//! Noise robustness: a noise symbol inserted where the decoder skips noise
//! does not change what a stream decodes to.
use vstd::prelude::*;
use crate::alphabet::{alphabet, digit_value, is_noise, is_white, rotated, rotation, TERM};
use crate::decoder::{
    block_step, lemma_read_digits, lemma_skip_noise, lemma_skip_white, read_block, read_digits,
    read_trailer, run, skip_noise, skip_white, trailer_at, DecodeError,
};

verus! {

proof fn lemma_white_shift(s: Seq<char>, p: nat, c: char, k: nat)
    requires
        p <= k <= s.len(),
    ensures
        skip_white(s.insert(p as int, c), k + 1) == skip_white(s, k) + 1,
    decreases s.len() - k,
{
    let t = s.insert(p as int, c);
    if k < s.len() {
        assert(t[k + 1int] == s[k as int]);
        if is_white(s[k as int]) {
            lemma_white_shift(s, p, c, k + 1);
        }
    }
}

proof fn lemma_noise_shift(s: Seq<char>, p: nat, c: char, k: nat)
    requires
        p <= k <= s.len(),
    ensures
        skip_noise(s.insert(p as int, c), k + 1) == skip_noise(s, k) + 1,
    decreases s.len() - k,
{
    let t = s.insert(p as int, c);
    if k < s.len() {
        assert(t[k + 1int] == s[k as int]);
        if is_noise(s[k as int]) {
            lemma_noise_shift(s, p, c, k + 1);
        }
    }
}

proof fn lemma_white_before(s: Seq<char>, p: nat, c: char, i: nat)
    requires
        i <= s.len(),
        p <= s.len(),
        skip_white(s, i) <= p,
        !is_white(c),
    ensures
        skip_white(s.insert(p as int, c), i) == skip_white(s, i),
    decreases s.len() - i,
{
    let t = s.insert(p as int, c);
    if i < s.len() && is_white(s[i as int]) {
        lemma_skip_white(s, i + 1);
        assert(t[i as int] == s[i as int]);
        lemma_white_before(s, p, c, i + 1);
    } else if i < p {
        assert(t[i as int] == s[i as int]);
    }
}

proof fn lemma_noise_before(s: Seq<char>, p: nat, c: char, i: nat)
    requires
        i <= s.len(),
        i <= p <= s.len(),
        skip_noise(s, i) < p,
    ensures
        skip_noise(s.insert(p as int, c), i) == skip_noise(s, i),
    decreases s.len() - i,
{
    let t = s.insert(p as int, c);
    lemma_skip_noise(s, i);
    assert(t[i as int] == s[i as int]);
    if is_noise(s[i as int]) {
        lemma_skip_noise(s, i + 1);
        lemma_noise_before(s, p, c, i + 1);
    }
}

proof fn lemma_noise_skipped(s: Seq<char>, i: nat, p: nat, c: char)
    requires
        i <= p <= skip_noise(s, i),
        i <= s.len(),
        is_noise(c),
    ensures
        skip_noise(s.insert(p as int, c), i) == skip_noise(s, i) + 1,
    decreases s.len() - i,
{
    let t = s.insert(p as int, c);
    lemma_skip_noise(s, i);
    if i == p {
        assert(t[i as int] == c);
        lemma_noise_shift(s, p, c, i);
    } else {
        assert(t[i as int] == s[i as int]);
        lemma_noise_skipped(s, i + 1, p, c);
    }
}

proof fn lemma_read_digits_shift(s: Seq<char>, p: nat, c: char, i: nat, rot: nat, ds: Seq<u32>)
    requires
        p <= i <= s.len(),
    ensures
        match read_digits(s, i, rot, ds) {
            Ok((d, e)) => read_digits(s.insert(p as int, c), i + 1, rot, ds) == Ok::<
                (Seq<u32>, nat),
                DecodeError,
            >((d, e + 1)),
            Err(x) => read_digits(s.insert(p as int, c), i + 1, rot, ds) == Err::<
                (Seq<u32>, nat),
                DecodeError,
            >(x),
        },
    decreases 8 - ds.len(),
{
    if ds.len() < 8 {
        let t = s.insert(p as int, c);
        let j = skip_noise(s, i);
        lemma_skip_noise(s, i);
        lemma_noise_shift(s, p, c, i);
        if j < s.len() {
            assert(t[j + 1int] == s[j as int]);
            if s[j as int] != TERM {
                if let Some(v) = crate::alphabet::digit_value(
                    crate::alphabet::rotated(crate::alphabet::alphabet(), rot),
                    s[j as int],
                ) {
                    lemma_read_digits_shift(s, p, c, j + 1, rot, ds.push(v as u32));
                }
            }
        }
    }
}

proof fn lemma_read_block_shift(s: Seq<char>, p: nat, c: char, i: nat, rot: nat)
    requires
        p <= i <= s.len(),
    ensures
        match read_block(s, i, rot) {
            Ok((d, k)) => read_block(s.insert(p as int, c), i + 1, rot) == Ok::<
                (Seq<u32>, nat),
                DecodeError,
            >((d, k + 1)),
            Err(x) => read_block(s.insert(p as int, c), i + 1, rot) == Err::<
                (Seq<u32>, nat),
                DecodeError,
            >(x),
        },
{
    let t = s.insert(p as int, c);
    lemma_read_digits(s, i, rot, Seq::empty());
    lemma_read_digits_shift(s, p, c, i, rot, Seq::empty());
    if let Ok((d, e)) = read_digits(s, i, rot, Seq::empty()) {
        lemma_skip_noise(s, e);
        lemma_noise_shift(s, p, c, e);
        let k = skip_noise(s, e);
        if k < s.len() {
            assert(t[k + 1int] == s[k as int]);
        }
    }
}

proof fn lemma_block_step_shift(
    s: Seq<char>,
    p: nat,
    c: char,
    j: nat,
    out: Seq<u8>,
    window: Seq<Seq<u8>>,
    blocks: nat,
)
    requires
        p <= j <= s.len(),
    ensures
        match block_step(s, j, out, window, blocks) {
            Ok((k, o, w)) => block_step(s.insert(p as int, c), j + 1, out, window, blocks)
                == Ok::<(nat, Seq<u8>, Seq<Seq<u8>>), DecodeError>((k + 1, o, w)),
            Err(x) => block_step(s.insert(p as int, c), j + 1, out, window, blocks) == Err::<
                (nat, Seq<u8>, Seq<Seq<u8>>),
                DecodeError,
            >(x),
        },
{
    let t = s.insert(p as int, c);
    let rot = rotation(blocks as int) as nat;
    crate::decoder::lemma_read_block(s, j, rot);
    lemma_read_block_shift(s, p, c, j, rot);
    if let Ok((d, k)) = read_block(s, j, rot) {
        lemma_skip_noise(s, k);
        lemma_noise_shift(s, p, c, k);
        let m = skip_noise(s, k);
        if m < s.len() {
            assert(t[m + 1int] == s[m as int]);
        }
    }
}

proof fn lemma_run_shift(
    s: Seq<char>,
    p: nat,
    c: char,
    i: nat,
    out: Seq<u8>,
    window: Seq<Seq<u8>>,
    blocks: nat,
)
    requires
        p <= i <= s.len(),
    ensures
        run(s.insert(p as int, c), i + 1, out, window, blocks) == run(s, i, out, window, blocks),
    decreases s.len() - i,
{
    let t = s.insert(p as int, c);
    let j = skip_white(s, i);
    lemma_skip_white(s, i);
    lemma_white_shift(s, p, c, i);
    if j < s.len() {
        assert(t[j + 1int] == s[j as int]);
        if j + 1 < s.len() {
            assert(t[j + 2int] == s[j + 1int]);
        }
        if j + 2 < s.len() {
            assert(t[j + 3int] == s[j + 2int]);
        }
        assert(trailer_at(t, j + 1) == trailer_at(s, j));
        if trailer_at(s, j) {
            assert(read_trailer(t, j + 1, out) == read_trailer(s, j, out));
        } else {
            crate::decoder::lemma_block_step(s, j, out, window, blocks);
            lemma_block_step_shift(s, p, c, j, out, window, blocks);
            if let Ok((k, o, w)) = block_step(s, j, out, window, blocks) {
                lemma_run_shift(s, p, c, k, o, w, blocks + 1);
            }
        }
    }
}

proof fn lemma_read_digits_advance(s: Seq<char>, i: nat, rot: nat, ds: Seq<u32>)
    requires
        i <= s.len(),
    ensures
        read_digits(s, i, rot, ds) matches Ok((d, e)) ==> i <= e,
    decreases 8 - ds.len(),
{
    if ds.len() < 8 {
        lemma_skip_noise(s, i);
        let j = skip_noise(s, i);
        if j < s.len() && s[j as int] != TERM {
            if let Some(v) = digit_value(rotated(alphabet(), rot), s[j as int]) {
                lemma_read_digits_advance(s, j + 1, rot, ds.push(v as u32));
            }
        }
    }
}

proof fn lemma_read_digits_noise(s: Seq<char>, p: nat, c: char, i: nat, rot: nat, ds: Seq<u32>)
    requires
        i <= p <= s.len(),
        is_noise(c),
        read_digits(s, i, rot, ds) is Ok,
    ensures
        ({
            let (d, e) = read_digits(s, i, rot, ds)->Ok_0;
            read_digits(s.insert(p as int, c), i, rot, ds) == Ok::<(Seq<u32>, nat), DecodeError>(
                (d, if p < e { e + 1 } else { e }),
            )
        }),
    decreases 8 - ds.len(),
{
    if ds.len() < 8 {
        let t = s.insert(p as int, c);
        let j = skip_noise(s, i);
        lemma_skip_noise(s, i);
        let v = digit_value(rotated(alphabet(), rot), s[j as int])->Some_0;
        let ds2 = ds.push(v as u32);
        lemma_read_digits_advance(s, j + 1, rot, ds2);
        if p <= j {
            lemma_noise_skipped(s, i, p, c);
            assert(t[j + 1int] == s[j as int]);
            lemma_read_digits_shift(s, p, c, j + 1, rot, ds2);
        } else {
            lemma_noise_before(s, p, c, i);
            assert(t[j as int] == s[j as int]);
            lemma_read_digits_noise(s, p, c, j + 1, rot, ds2);
        }
    }
}

proof fn lemma_read_block_noise(s: Seq<char>, p: nat, c: char, i: nat, rot: nat)
    requires
        i <= p <= s.len(),
        is_noise(c),
        read_block(s, i, rot) is Ok,
    ensures
        ({
            let (d, k) = read_block(s, i, rot)->Ok_0;
            read_block(s.insert(p as int, c), i, rot) == Ok::<(Seq<u32>, nat), DecodeError>(
                (d, if p < k { k + 1 } else { k }),
            )
        }),
{
    let t = s.insert(p as int, c);
    let (d, e) = read_digits(s, i, rot, Seq::empty())->Ok_0;
    lemma_read_digits_advance(s, i, rot, Seq::empty());
    lemma_read_digits(s, i, rot, Seq::empty());
    lemma_read_digits_noise(s, p, c, i, rot, Seq::empty());
    lemma_skip_noise(s, e);
    let k0 = skip_noise(s, e);
    if p < e {
        lemma_noise_shift(s, p, c, e);
        assert(t[k0 + 1int] == s[k0 as int]);
    } else if p <= k0 {
        lemma_noise_skipped(s, e, p, c);
        assert(t[k0 + 1int] == s[k0 as int]);
    } else {
        lemma_noise_before(s, p, c, e);
        assert(t[k0 as int] == s[k0 as int]);
    }
}

proof fn lemma_block_step_noise(
    s: Seq<char>,
    p: nat,
    c: char,
    j: nat,
    out: Seq<u8>,
    window: Seq<Seq<u8>>,
    blocks: nat,
)
    requires
        j <= p,
        j <= s.len(),
        is_noise(c),
        block_step(s, j, out, window, blocks) is Ok,
        p < block_step(s, j, out, window, blocks)->Ok_0.0,
    ensures
        ({
            let (k, o, w) = block_step(s, j, out, window, blocks)->Ok_0;
            block_step(s.insert(p as int, c), j, out, window, blocks) == Ok::<
                (nat, Seq<u8>, Seq<Seq<u8>>),
                DecodeError,
            >((k + 1, o, w))
        }),
{
    let t = s.insert(p as int, c);
    let rot = rotation(blocks as int) as nat;
    crate::decoder::lemma_read_block(s, j, rot);
    crate::decoder::lemma_block_step(s, j, out, window, blocks);
    let (d, kb) = read_block(s, j, rot)->Ok_0;
    lemma_read_block_noise(s, p, c, j, rot);
    lemma_skip_noise(s, kb);
    let m = skip_noise(s, kb);
    if p < kb {
        lemma_noise_shift(s, p, c, kb);
        if m < s.len() {
            assert(t[m + 1int] == s[m as int]);
        }
    } else if p <= m {
        lemma_noise_skipped(s, kb, p, c);
        if m < s.len() {
            assert(t[m + 1int] == s[m as int]);
        }
    }
}

/// A noise symbol inserted inside a block that the decoder reads from state
/// `(i, out, window, blocks)` (before one of its digits, before its
/// terminator, or before the checksum symbol that follows it) does not change
/// the result of decoding from that state.
pub proof fn lemma_noise_robust(
    s: Seq<char>,
    i: nat,
    out: Seq<u8>,
    window: Seq<Seq<u8>>,
    blocks: nat,
    p: nat,
    c: char,
)
    requires
        i <= s.len(),
        is_noise(c),
        skip_white(s, i) < s.len(),
        !trailer_at(s, skip_white(s, i)),
        block_step(s, skip_white(s, i), out, window, blocks) is Ok,
        skip_white(s, i) <= p < block_step(s, skip_white(s, i), out, window, blocks)->Ok_0.0,
    ensures
        run(s.insert(p as int, c), i, out, window, blocks) == run(s, i, out, window, blocks),
{
    let t = s.insert(p as int, c);
    let j = skip_white(s, i);
    lemma_skip_white(s, i);
    crate::decoder::lemma_block_step(s, j, out, window, blocks);
    assert(!is_white(c));
    lemma_white_before(s, p, c, i);
    let rot = rotation(blocks as int) as nat;
    lemma_skip_noise(s, j);
    assert(s[j as int] != TERM);
    assert(t[j as int] != TERM);
    assert(!trailer_at(t, j));
    lemma_block_step_noise(s, p, c, j, out, window, blocks);
    let (k, o, w) = block_step(s, j, out, window, blocks)->Ok_0;
    lemma_run_shift(s, p, c, k, o, w, blocks + 1);
}

} // verus!
