//! The mosaic stream decoder: a single forward pass over the characters of
//! the input, stated as a recursive specification and implemented as a loop.
use vstd::prelude::*;
use vstd::std_specs::iter::IteratorSpec;
use crate::alphabet::{
    alphabet, all_ascii, build_rev, digit_value, is_noise, is_noise_char, is_white,
    is_white_char, is_rev_table, lemma_digit_value_bound, rev_get, rotated, rotation,
    base_alphabet, rotate_alpha, rotation_for_block, BASE, TERM,
};
use crate::block::{all_digits, base47_digits_to_5bytes, bytes40, horner, BLOCK_BYTES, BLOCK_SYMBOLS};
use crate::checksum::{block_seqs, checksum, checksum47, CHECKSUM_PERIOD};
use crate::xor::{xor_mask, xor_with_key};
use vstd::string::StringSliceAdditionalSpecFns;

verus! {

/// Why a stream could not be decoded.
#[derive(Debug, Clone, Copy, PartialEq, Eq, Structural)]
pub enum DecodeError {
    /// The trailer's pad-count symbol is not in the base alphabet.
    InvalidTrailerPadDigit(char),
    /// The pad count is 5 or more, or exceeds the bytes decoded so far.
    InvalidPadCount(u32),
    /// Characters follow a well-formed trailer.
    TrailingDataAfterTrailer,
    /// The stream ends where a digit is expected.
    UnexpectedEndOfInput,
    /// A terminator stands where a digit is expected.
    UnexpectedTerminator,
    /// A symbol that the block's rotated alphabet does not hold.
    InvalidDigitCharacter(char),
    /// No terminator after a block's eight digits.
    MissingBlockTerminator,
    /// The stream ends where a checksum symbol is expected.
    MissingChecksumCharacter,
    /// The checksum symbol is not in the base alphabet.
    InvalidChecksumChar(char),
    /// The checksum symbol read disagrees with the one computed.
    ChecksumMismatch { got: u32, expected: u32 },
    /// The stream ends without a trailer.
    NoTrailerFound,
}

/// The first position at or after `i` that holds no whitespace.
pub open spec fn skip_white(s: Seq<char>, i: nat) -> nat
    decreases s.len() - i,
{
    if i < s.len() && is_white(s[i as int]) {
        skip_white(s, i + 1)
    } else {
        i
    }
}

/// The first position at or after `i` that holds no noise symbol.
pub open spec fn skip_noise(s: Seq<char>, i: nat) -> nat
    decreases s.len() - i,
{
    if i < s.len() && is_noise(s[i as int]) {
        skip_noise(s, i + 1)
    } else {
        i
    }
}

/// Reads the remaining digits of a block from position `i`, with `ds` read
/// already, through the base alphabet rotated by `rot`: the eight digits and
/// the position after the last one.
pub open spec fn read_digits(s: Seq<char>, i: nat, rot: nat, ds: Seq<u32>) -> Result<
    (Seq<u32>, nat),
    DecodeError,
>
    decreases 8 - ds.len(),
{
    if ds.len() >= 8 {
        Ok((ds, i))
    } else {
        let j = skip_noise(s, i);
        if j >= s.len() {
            Err(DecodeError::UnexpectedEndOfInput)
        } else if s[j as int] == TERM {
            Err(DecodeError::UnexpectedTerminator)
        } else {
            match digit_value(rotated(alphabet(), rot), s[j as int]) {
                None => Err(DecodeError::InvalidDigitCharacter(s[j as int])),
                Some(v) => read_digits(s, j + 1, rot, ds.push(v as u32)),
            }
        }
    }
}

/// Reads one block at position `i`: its eight digits, then its terminator;
/// gives the digits and the position after the terminator.
pub open spec fn read_block(s: Seq<char>, i: nat, rot: nat) -> Result<(Seq<u32>, nat), DecodeError> {
    match read_digits(s, i, rot, Seq::empty()) {
        Err(e) => Err(e),
        Ok((ds, j)) => {
            let k = skip_noise(s, j);
            if k >= s.len() || s[k as int] != TERM {
                Err(DecodeError::MissingBlockTerminator)
            } else {
                Ok((ds, k + 1))
            }
        },
    }
}

/// The trailer at position `j` (two terminators and a pad-count symbol): the
/// output with the padding removed.
pub open spec fn read_trailer(s: Seq<char>, j: nat, out: Seq<u8>) -> Result<Seq<u8>, DecodeError>
    recommends
        j + 2 < s.len(),
{
    match digit_value(alphabet(), s[j + 2int]) {
        None => Err(DecodeError::InvalidTrailerPadDigit(s[j + 2int])),
        Some(p) => if p >= 5 || p > out.len() {
            Err(DecodeError::InvalidPadCount(p as u32))
        } else if j + 3 != s.len() {
            Err(DecodeError::TrailingDataAfterTrailer)
        } else {
            Ok(out.take(out.len() - p))
        },
    }
}

/// Whether a trailer opens at position `j`.
pub open spec fn trailer_at(s: Seq<char>, j: nat) -> bool {
    j + 2 < s.len() && s[j as int] == TERM && s[j + 1int] == TERM
}

/// One block read at position `j`, with `out` decoded so far, `window` the
/// blocks since the last checksum and `blocks` the number of blocks read: the
/// position after it (and after its checksum symbol, where one is due), the
/// output and the window after it.
pub open spec fn block_step(
    s: Seq<char>,
    j: nat,
    out: Seq<u8>,
    window: Seq<Seq<u8>>,
    blocks: nat,
) -> Result<(nat, Seq<u8>, Seq<Seq<u8>>), DecodeError> {
    match read_block(s, j, rotation(blocks as int) as nat) {
        Err(e) => Err(e),
        Ok((ds, k)) => {
            let b = bytes40(horner(ds));
            let out2 = out + b;
            let w2 = window.push(b);
            if w2.len() == CHECKSUM_PERIOD {
                let m = skip_noise(s, k);
                if m >= s.len() {
                    Err(DecodeError::MissingChecksumCharacter)
                } else {
                    match digit_value(alphabet(), s[m as int]) {
                        None => Err(DecodeError::InvalidChecksumChar(s[m as int])),
                        Some(g) => if g != checksum(w2) {
                            Err(
                                DecodeError::ChecksumMismatch {
                                    got: g as u32,
                                    expected: checksum(w2) as u32,
                                },
                            )
                        } else {
                            Ok((m + 1, out2, Seq::empty()))
                        },
                    }
                }
            } else {
                Ok((k, out2, w2))
            }
        },
    }
}

/// Decoding from position `i`, with `out` decoded so far, `window` the blocks
/// since the last checksum, and `blocks` the number of blocks read.
pub open spec fn run(
    s: Seq<char>,
    i: nat,
    out: Seq<u8>,
    window: Seq<Seq<u8>>,
    blocks: nat,
) -> Result<Seq<u8>, DecodeError>
    decreases s.len() - i,
    via run_decreases
{
    let j = skip_white(s, i);
    if j >= s.len() {
        Err(DecodeError::NoTrailerFound)
    } else if trailer_at(s, j) {
        read_trailer(s, j, out)
    } else {
        match block_step(s, j, out, window, blocks) {
            Err(e) => Err(e),
            Ok((k, out2, w2)) => run(s, k, out2, w2, blocks + 1),
        }
    }
}

/// The result of decoding the whole stream `s`.
pub open spec fn decode(s: Seq<char>) -> Result<Seq<u8>, DecodeError> {
    run(s, 0, Seq::empty(), Seq::empty(), 0)
}

pub proof fn lemma_skip_white(s: Seq<char>, i: nat)
    requires
        i <= s.len(),
    ensures
        i <= skip_white(s, i) <= s.len(),
    decreases s.len() - i,
{
    if i < s.len() && is_white(s[i as int]) {
        lemma_skip_white(s, i + 1);
    }
}

pub proof fn lemma_skip_noise(s: Seq<char>, i: nat)
    requires
        i <= s.len(),
    ensures
        i <= skip_noise(s, i) <= s.len(),
        skip_noise(s, i) < s.len() ==> !is_noise(s[skip_noise(s, i) as int]),
    decreases s.len() - i,
{
    if i < s.len() && is_noise(s[i as int]) {
        lemma_skip_noise(s, i + 1);
    }
}

pub proof fn lemma_read_digits(s: Seq<char>, i: nat, rot: nat, ds: Seq<u32>)
    requires
        i <= s.len(),
        ds.len() <= 8,
        all_digits(ds),
    ensures
        read_digits(s, i, rot, ds) matches Ok((d, j)) ==> d.len() == 8 && all_digits(d) && i
            + (8 - ds.len()) <= j <= s.len(),
    decreases 8 - ds.len(),
{
    if ds.len() < 8 {
        let j = skip_noise(s, i);
        lemma_skip_noise(s, i);
        if j < s.len() && s[j as int] != TERM {
            let c = s[j as int];
            lemma_digit_value_bound(rotated(alphabet(), rot), c);
            if let Some(v) = digit_value(rotated(alphabet(), rot), c) {
                let ds2 = ds.push(v as u32);
                assert(all_digits(ds2)) by {
                    assert forall|m: int| 0 <= m < ds2.len() implies #[trigger] ds2[m] < 47 by {
                        if m < ds.len() {
                            assert(ds2[m] == ds[m]);
                        }
                    }
                }
                lemma_read_digits(s, j + 1, rot, ds2);
            }
        }
    }
}

pub proof fn lemma_read_block(s: Seq<char>, i: nat, rot: nat)
    requires
        i <= s.len(),
    ensures
        read_block(s, i, rot) matches Ok((d, k)) ==> d.len() == 8 && all_digits(d) && i + 9
            <= k <= s.len(),
{
    lemma_read_digits(s, i, rot, Seq::empty());
    if let Ok((ds, j)) = read_digits(s, i, rot, Seq::empty()) {
        lemma_skip_noise(s, j);
    }
}

pub proof fn lemma_block_step(
    s: Seq<char>,
    j: nat,
    out: Seq<u8>,
    window: Seq<Seq<u8>>,
    blocks: nat,
)
    requires
        j <= s.len(),
    ensures
        block_step(s, j, out, window, blocks) matches Ok((k, o, w)) ==> j + 9 <= k <= s.len()
            && o.len() == out.len() + 5,
{
    lemma_read_block(s, j, rotation(blocks as int) as nat);
    if let Ok((ds, k)) = read_block(s, j, rotation(blocks as int) as nat) {
        lemma_skip_noise(s, k);
    }
}

#[via_fn]
proof fn run_decreases(
    s: Seq<char>,
    i: nat,
    out: Seq<u8>,
    window: Seq<Seq<u8>>,
    blocks: nat,
) {
    if i <= s.len() {
        let j = skip_white(s, i);
        lemma_skip_white(s, i);
        if j < s.len() && !trailer_at(s, j) {
            lemma_block_step(s, j, out, window, blocks);
        }
    }
}

/// The base alphabet and each of its rotations hold ASCII symbols only.
pub proof fn lemma_rotated_ascii(rot: nat)
    ensures
        all_ascii(alphabet()),
        all_ascii(rotated(alphabet(), rot)),
        rotated(alphabet(), rot).len() == BASE,
{
    let a = alphabet();
    assert(a.len() == 47);
    assert forall|i: int| 0 <= i < a.len() implies (#[trigger] a[i] as u32) < 128 by {
        assert(a[i] as u32 <= 126);
    }
    let r = rotated(a, rot);
    assert forall|i: int| 0 <= i < r.len() implies (#[trigger] r[i] as u32) < 128 by {
        let m = (i + rot) % 47;
        assert(0 <= m < 47);
        assert(r[i] == a[m]);
    }
}

/// The characters of `s`, in order.
fn chars_of(s: &str) -> (r: Vec<char>)
    ensures
        r@ == s@,
{
    broadcast use vstd::string::axiom_spec_iter, vstd::string::next_postcondition;

    let mut it = s.chars();
    let mut r: Vec<char> = Vec::new();
    loop
        invariant
            r@ + it.remaining() == s@,
            it.decrease() is Some,
        decreases it.decrease()->0,
    {
        match it.next() {
            Some(c) => {
                r.push(c);
            },
            None => {
                assert(r@ + it.remaining() =~= r@);
                return r;
            },
        }
    }
}

fn skip_white_at(s: &Vec<char>, i: usize) -> (r: usize)
    requires
        i <= s@.len(),
    ensures
        r == skip_white(s@, i as nat),
{
    let mut j = i;
    while j < s.len() && is_white_char(s[j])
        invariant
            i <= j <= s@.len(),
            skip_white(s@, j as nat) == skip_white(s@, i as nat),
        decreases s@.len() - j,
    {
        j += 1;
    }
    j
}

fn skip_noise_at(s: &Vec<char>, i: usize) -> (r: usize)
    requires
        i <= s@.len(),
    ensures
        r == skip_noise(s@, i as nat),
{
    let mut j = i;
    while j < s.len() && is_noise_char(s[j])
        invariant
            i <= j <= s@.len(),
            skip_noise(s@, j as nat) == skip_noise(s@, i as nat),
        decreases s@.len() - j,
    {
        j += 1;
    }
    j
}

/// Reads the block at `i` with `rev` the reverse table of its rotated
/// alphabet.
fn read_block_at(s: &Vec<char>, i: usize, rev: &Vec<Option<u32>>, Ghost(rot): Ghost<nat>) -> (r:
    Result<(Vec<u32>, usize), DecodeError>)
    requires
        i <= s@.len(),
        is_rev_table(rev@, rotated(alphabet(), rot)),
    ensures
        match r {
            Ok((ds, k)) => read_block(s@, i as nat, rot) == Ok::<(Seq<u32>, nat), DecodeError>(
                (ds@, k as nat),
            ),
            Err(e) => read_block(s@, i as nat, rot) == Err::<(Seq<u32>, nat), DecodeError>(e),
        },
{
    let mut ds: Vec<u32> = Vec::new();
    let mut j = i;
    while ds.len() < BLOCK_SYMBOLS
        invariant
            j <= s@.len(),
            ds@.len() <= 8,
            is_rev_table(rev@, rotated(alphabet(), rot)),
            read_digits(s@, j as nat, rot, ds@) == read_digits(s@, i as nat, rot, Seq::empty()),
        decreases 8 - ds@.len(),
    {
        proof {
            lemma_skip_noise(s@, j as nat);
        }
        j = skip_noise_at(s, j);
        if j >= s.len() {
            return Err(DecodeError::UnexpectedEndOfInput);
        }
        let c = s[j];
        if c == TERM {
            return Err(DecodeError::UnexpectedTerminator);
        }
        match rev_get(rev, c, Ghost(rotated(alphabet(), rot))) {
            None => {
                return Err(DecodeError::InvalidDigitCharacter(c));
            },
            Some(v) => {
                ds.push(v);
                j += 1;
            },
        }
    }
    let k = skip_noise_at(s, j);
    if k >= s.len() || s[k] != TERM {
        return Err(DecodeError::MissingBlockTerminator);
    }
    Ok((ds, k + 1))
}


proof fn lemma_rotation_mod(b: int)
    requires
        b >= 0,
    ensures
        rotation(b % 47) == rotation(b),
{
    let q = b / 47;
    let r = b % 47;
    vstd::arithmetic::div_mod::lemma_fundamental_div_mod(b, 47);
    assert(b * 13 + 11 == 47 * (13 * q) + (r * 13 + 11)) by (nonlinear_arith)
        requires
            b == 47 * q + r,
    ;
    vstd::arithmetic::div_mod::lemma_mod_multiples_vanish(13 * q, r * 13 + 11, 47);
}

/// Reads the trailer at `j`: the output with its padding removed.
fn finish_trailer(
    chars: &Vec<char>,
    j: usize,
    rev_base: &Vec<Option<u32>>,
    out: Vec<u8>,
) -> (r: Result<Vec<u8>, DecodeError>)
    requires
        trailer_at(chars@, j as nat),
        is_rev_table(rev_base@, alphabet()),
    ensures
        match r {
            Ok(v) => read_trailer(chars@, j as nat, out@) == Ok::<Seq<u8>, DecodeError>(v@),
            Err(e) => read_trailer(chars@, j as nat, out@) == Err::<Seq<u8>, DecodeError>(e),
        },
{
    let mut out = out;
    let n = chars.len();
    let pad_char = chars[j + 2];
    match rev_get(rev_base, pad_char, Ghost(alphabet())) {
        None => Err(DecodeError::InvalidTrailerPadDigit(pad_char)),
        Some(p) => {
            proof {
                lemma_digit_value_bound(alphabet(), pad_char);
            }
            if p as usize >= BLOCK_BYTES || p as usize > out.len() {
                return Err(DecodeError::InvalidPadCount(p));
            }
            if j + 3 != n {
                return Err(DecodeError::TrailingDataAfterTrailer);
            }
            let ghost whole = out@;
            out.truncate(out.len() - p as usize);
            assert(out@ =~= whole.take(whole.len() - p));
            Ok(out)
        },
    }
}

/// Reads the block at `j`, appends its bytes to `out` and checks the window
/// where a checksum is due: gives the position after what was read.
fn decode_block(
    chars: &Vec<char>,
    j: usize,
    base: &Vec<char>,
    rev_base: &Vec<Option<u32>>,
    out: &mut Vec<u8>,
    window: &mut Vec<[u8; 5]>,
    block_index: u64,
) -> (r: Result<usize, DecodeError>)
    requires
        j <= chars@.len(),
        base@ == alphabet(),
        is_rev_table(rev_base@, alphabet()),
        old(window)@.len() < CHECKSUM_PERIOD,
    ensures
        match r {
            Ok(k) => block_step(
                chars@,
                j as nat,
                old(out)@,
                block_seqs(old(window)@),
                block_index as nat,
            ) == Ok::<(nat, Seq<u8>, Seq<Seq<u8>>), DecodeError>(
                (k as nat, final(out)@, block_seqs(final(window)@)),
            ) && final(window)@.len() < CHECKSUM_PERIOD,
            Err(e) => block_step(
                chars@,
                j as nat,
                old(out)@,
                block_seqs(old(window)@),
                block_index as nat,
            ) == Err::<(nat, Seq<u8>, Seq<Seq<u8>>), DecodeError>(e),
        },
{
    let rot = rotation_for_block((block_index % 47) as u32);
    proof {
        lemma_rotation_mod(block_index as int);
        lemma_rotated_ascii(rot as nat);
        lemma_read_block(chars@, j as nat, rot as nat);
    }
    let rotated_alpha = rotate_alpha(base.as_slice(), rot);
    let rev_rot = build_rev(rotated_alpha.as_slice());
    let (digits, k) = match read_block_at(chars, j, &rev_rot, Ghost(rot as nat)) {
        Ok(x) => x,
        Err(e) => {
            return Err(e);
        },
    };
    let block5 = base47_digits_to_5bytes(digits.as_slice());
    let ghost out_before = out@;
    let ghost window_before = block_seqs(window@);
    let mut t: usize = 0;
    while t < BLOCK_BYTES
        invariant
            t <= BLOCK_BYTES,
            out@ =~= out_before + block5@.take(t as int),
        decreases BLOCK_BYTES - t,
    {
        out.push(block5[t]);
        t += 1;
    }
    assert(block5@.take(5) =~= block5@);
    window.push(block5);
    assert(block_seqs(window@) =~= window_before.push(block5@));
    let ghost b = bytes40(horner(digits@));
    assert(block5@ == b);
    assert(out@ =~= out_before + b);
    if window.len() < CHECKSUM_PERIOD {
        assert(window_before.push(b).len() < CHECKSUM_PERIOD);
        return Ok(k);
    }
    proof {
        lemma_skip_noise(chars@, k as nat);
    }
    let m = skip_noise_at(chars, k);
    if m >= chars.len() {
        return Err(DecodeError::MissingChecksumCharacter);
    }
    let chk_char = chars[m];
    proof {
        lemma_digit_value_bound(alphabet(), chk_char);
    }
    match rev_get(rev_base, chk_char, Ghost(alphabet())) {
        None => Err(DecodeError::InvalidChecksumChar(chk_char)),
        Some(got) => {
            let expected = checksum47(window.as_slice());
            if got != expected {
                return Err(DecodeError::ChecksumMismatch { got, expected });
            }
            window.clear();
            assert(block_seqs(window@) =~= Seq::<Seq<u8>>::empty());
            Ok(m + 1)
        },
    }
}

/// Decodes a mosaic stream into its bytes, with the trailer's padding
/// removed: the result is `decode(s@)`, success and each error alike.
pub fn decode_mosaic(s: &str) -> (r: Result<Vec<u8>, DecodeError>)
    ensures
        match r {
            Ok(v) => decode(s@) == Ok::<Seq<u8>, DecodeError>(v@),
            Err(e) => decode(s@) == Err::<Seq<u8>, DecodeError>(e),
        },
{
    let chars = chars_of(s);
    let base = base_alphabet();
    proof {
        lemma_rotated_ascii(0);
    }
    let rev_base = build_rev(base.as_slice());
    let mut out: Vec<u8> = Vec::new();
    let mut window: Vec<[u8; 5]> = Vec::new();
    let mut block_index: u64 = 0;
    let mut i: usize = 0;
    assert(block_seqs(window@) =~= Seq::<Seq<u8>>::empty());
    loop
        invariant
            i <= chars@.len(),
            chars@ == s@,
            base@ == alphabet(),
            is_rev_table(rev_base@, alphabet()),
            window@.len() < CHECKSUM_PERIOD,
            block_index <= i,
            out@.len() == BLOCK_BYTES * block_index,
            run(chars@, i as nat, out@, block_seqs(window@), block_index as nat) == decode(s@),
        decreases chars@.len() - i,
    {
        proof {
            lemma_skip_white(chars@, i as nat);
        }
        let j = skip_white_at(&chars, i);
        if j >= chars.len() {
            return Err(DecodeError::NoTrailerFound);
        }
        if chars.len() - j > 2 && chars[j] == TERM && chars[j + 1] == TERM {
            return finish_trailer(&chars, j, &rev_base, out);
        }
        proof {
            lemma_block_step(chars@, j as nat, out@, block_seqs(window@), block_index as nat);
        }
        match decode_block(&chars, j, &base, &rev_base, &mut out, &mut window, block_index) {
            Ok(k) => {
                i = k;
            },
            Err(e) => {
                return Err(e);
            },
        }
        block_index += 1;
    }
}

/// The decoded bytes of `s` masked with `key`; an error is passed on as it is.
pub open spec fn decoded_with_key(s: Seq<char>, key: Seq<u8>) -> Result<Seq<u8>, DecodeError> {
    match decode(s) {
        Ok(b) => Ok(xor_mask(b, key)),
        Err(e) => Err(e),
    }
}

/// Decodes `s` and masks the bytes with the bytes of `key`.
pub fn decode_with_key(s: &str, key: &str) -> (r: Result<Vec<u8>, DecodeError>)
    ensures
        match r {
            Ok(v) => decoded_with_key(s@, key.spec_bytes()) == Ok::<Seq<u8>, DecodeError>(v@),
            Err(e) => decoded_with_key(s@, key.spec_bytes()) == Err::<Seq<u8>, DecodeError>(e),
        },
{
    match decode_mosaic(s) {
        Ok(raw) => Ok(xor_with_key(raw.as_slice(), key)),
        Err(e) => Err(e),
    }
}

/// Decoding is deterministic: the same stream and key give the same result.
pub proof fn lemma_decode_deterministic(s1: Seq<char>, s2: Seq<char>, k1: Seq<u8>, k2: Seq<u8>)
    requires
        s1 == s2,
        k1 == k2,
    ensures
        decoded_with_key(s1, k1) == decoded_with_key(s2, k2),
{
}

/// A length that `n` whole blocks give once fewer than five padding bytes
/// are trimmed off.
pub open spec fn trimmed_block_len(len: nat, n: nat) -> bool {
    5 * n - 5 < len <= 5 * n
}

proof fn lemma_run_block_count(
    s: Seq<char>,
    i: nat,
    out: Seq<u8>,
    window: Seq<Seq<u8>>,
    blocks: nat,
)
    requires
        i <= s.len(),
        out.len() == 5 * blocks,
    ensures
        run(s, i, out, window, blocks) matches Ok(o) ==> exists|n: nat|
            n >= blocks && #[trigger] trimmed_block_len(o.len(), n),
    decreases s.len() - i,
{
    let j = skip_white(s, i);
    lemma_skip_white(s, i);
    if j < s.len() {
        if trailer_at(s, j) {
            if let Ok(o) = read_trailer(s, j, out) {
                assert(trimmed_block_len(o.len(), blocks));
            }
        } else {
            lemma_block_step(s, j, out, window, blocks);
            if let Ok((k, o2, w2)) = block_step(s, j, out, window, blocks) {
                lemma_run_block_count(s, k, o2, w2, blocks + 1);
            }
        }
    }
}

/// Every block adds exactly five bytes to the output, and the trailer takes
/// fewer than five off: a decoded stream of `n` blocks is `5 * n` bytes long
/// before the trailer trims it.
pub proof fn lemma_block_count(s: Seq<char>, j: nat, out: Seq<u8>, window: Seq<Seq<u8>>, blocks: nat)
    requires
        j <= s.len(),
    ensures
        block_step(s, j, out, window, blocks) matches Ok((k, o, w)) ==> o.len() == out.len() + 5,
        decode(s) matches Ok(o) ==> exists|n: nat| #[trigger] trimmed_block_len(o.len(), n),
{
    lemma_block_step(s, j, out, window, blocks);
    lemma_run_block_count(s, 0, Seq::empty(), Seq::empty(), 0);
}

/// The pad count of a trailer read after whole blocks is accepted exactly when
/// it is below 5 and at most the output's length; otherwise the trailer is
/// refused with `InvalidPadCount`.
pub proof fn lemma_pad_count(s: Seq<char>, j: nat, out: Seq<u8>, p: nat)
    requires
        trailer_at(s, j),
        out.len() % 5 == 0,
        digit_value(alphabet(), s[j + 2int]) == Some(p),
    ensures
        p >= 5 || p > out.len() <==> read_trailer(s, j, out) == Err::<Seq<u8>, DecodeError>(
            DecodeError::InvalidPadCount(p as u32),
        ),
        p >= out.len() && out.len() > 0 ==> read_trailer(s, j, out) == Err::<Seq<u8>, DecodeError>(
            DecodeError::InvalidPadCount(p as u32),
        ),
{
    lemma_digit_value_bound(alphabet(), s[j + 2int]);
}

} // verus!
