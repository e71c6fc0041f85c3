//! The symbol tables of the mosaic format: the base alphabet, its per-block
//! rotations, the reverse lookup from symbol to digit value, and the noise and
//! whitespace classes.
use vstd::prelude::*;

verus! {

/// The symbol that ends a block and, doubled, opens the trailer.
pub const TERM: char = '~';

/// Number of symbols in the alphabet, and the radix of a block's digits.
pub const BASE: u32 = 47;

/// Size of the reverse lookup table: one slot per ASCII code.
pub const TABLE_SIZE: usize = 128;

/// The base alphabet: the symbol at position `v` stands for digit value `v`.
pub open spec fn alphabet() -> Seq<char> {
    seq![
        'A', 'B', 'C', 'D', 'E', 'F', 'G', 'H', 'I', 'J', 'K', 'L', 'M', 'N', 'O', 'P', 'Q', 'R',
        'S', 'T', 'U', 'V', 'W', 'X', 'Y', 'Z', '0', '1', '2', '3', '4', '5', '6', '7', '8', '9',
        '!', '@', '#', '$', '%', '^', '&', '*', '_', '-', '?',
    ]
}

/// Every symbol of the sequence is an ASCII character.
pub open spec fn all_ascii(a: Seq<char>) -> bool {
    forall|i: int| 0 <= i < a.len() ==> (#[trigger] a[i] as u32) < 128
}

/// Noise symbols carry no information: the lowercase ASCII letters.
pub open spec fn is_noise(c: char) -> bool {
    'a' <= c && c <= 'z'
}

/// Characters with the Unicode `White_Space` property.
pub open spec fn is_white(c: char) -> bool {
    let u = c as u32;
    (0x09 <= u && u <= 0x0d) || u == 0x20 || u == 0x85 || u == 0xa0 || u == 0x1680 || (0x2000
        <= u && u <= 0x200a) || u == 0x2028 || u == 0x2029 || u == 0x202f || u == 0x205f || u
        == 0x3000
}

/// The rotation amount that block `b` applies to the base alphabet.
pub open spec fn rotation(b: int) -> int {
    (b * 13 + 11) % 47
}

/// `a` shifted cyclically left by `rot`: position 0 holds `a[rot mod len]`.
pub open spec fn rotated(a: Seq<char>, rot: nat) -> Seq<char> {
    Seq::new(a.len(), |j: int| a[(j + rot) % (a.len() as int)])
}

/// The digit value of `c` in alphabet `a`: its position (the last one, where
/// the symbol occurs more than once); `None` where it does not occur. Symbols
/// are compared by code point.
pub open spec fn digit_value(a: Seq<char>, c: char) -> Option<nat>
    decreases a.len(),
{
    if a.len() == 0 {
        None
    } else if a.last() as u32 == c as u32 {
        Some((a.len() - 1) as nat)
    } else {
        digit_value(a.drop_last(), c)
    }
}

/// A reverse lookup table for `a`: slot `k` holds the digit value of the
/// character with code `k`.
pub open spec fn is_rev_table(t: Seq<Option<u32>>, a: Seq<char>) -> bool {
    &&& t.len() == TABLE_SIZE
    &&& all_ascii(a)
    &&& forall|c: char|
        (c as u32) < 128 ==> match #[trigger] digit_value(a, c) {
            Some(v) => t[c as u32 as int] == Some(v as u32),
            None => t[c as u32 as int] is None,
        }
}

pub proof fn lemma_digit_value_bound(a: Seq<char>, c: char)
    ensures
        match digit_value(a, c) {
            Some(v) => v < a.len() && a[v as int] as u32 == c as u32,
            None => forall|i: int| 0 <= i < a.len() ==> a[i] as u32 != c as u32,
        },
    decreases a.len(),
{
    if a.len() > 0 && a.last() as u32 != c as u32 {
        lemma_digit_value_bound(a.drop_last(), c);
        if digit_value(a, c) is None {
            assert forall|i: int| 0 <= i < a.len() implies a[i] as u32 != c as u32 by {
                if i < a.len() - 1 {
                    assert(a.drop_last()[i] == a[i]);
                }
            }
        }
    }
}

pub proof fn lemma_ascii_only(a: Seq<char>, c: char)
    requires
        all_ascii(a),
        (c as u32) >= 128,
    ensures
        digit_value(a, c) is None,
{
    lemma_digit_value_bound(a, c);
}

/// The symbols of the base alphabet, in order.
pub fn base_alphabet() -> (r: Vec<char>)
    ensures
        r@ == alphabet(),
{
    let r = vec![
        'A', 'B', 'C', 'D', 'E', 'F', 'G', 'H', 'I', 'J', 'K', 'L', 'M', 'N', 'O', 'P', 'Q', 'R',
        'S', 'T', 'U', 'V', 'W', 'X', 'Y', 'Z', '0', '1', '2', '3', '4', '5', '6', '7', '8', '9',
        '!', '@', '#', '$', '%', '^', '&', '*', '_', '-', '?',
    ];
    assert(r@ =~= alphabet());
    r
}

pub fn is_noise_char(c: char) -> (r: bool)
    ensures
        r == is_noise(c),
{
    'a' <= c && c <= 'z'
}

pub fn is_white_char(c: char) -> (r: bool)
    ensures
        r == is_white(c),
{
    let u = c as u32;
    (0x09 <= u && u <= 0x0d) || u == 0x20 || u == 0x85 || u == 0xa0 || u == 0x1680 || (0x2000
        <= u && u <= 0x200a) || u == 0x2028 || u == 0x2029 || u == 0x202f || u == 0x205f || u
        == 0x3000
}

/// The rotation for block `block_index`: `(13 * block_index + 11) mod 47`.
pub fn rotation_for_block(block_index: u32) -> (r: u32)
    ensures
        r as int == rotation(block_index as int),
        r < BASE,
{
    (((block_index as u64) * 13 + 11) % 47) as u32
}

/// The alphabet shifted cyclically left by `rot` positions.
pub fn rotate_alpha(alpha: &[char], rot: u32) -> (r: Vec<char>)
    requires
        alpha@.len() > 0,
    ensures
        r@ == rotated(alpha@, rot as nat),
{
    let n = alpha.len();
    let k = (rot as usize) % n;
    let mut r: Vec<char> = Vec::new();
    let mut j: usize = 0;
    while j < n
        invariant
            n == alpha@.len(),
            n > 0,
            k == (rot as nat) % (n as nat),
            j <= n,
            r@.len() == j,
            forall|m: int| 0 <= m < j ==> r@[m] == rotated(alpha@, rot as nat)[m],
        decreases n - j,
    {
        let p = if j < n - k {
            j + k
        } else {
            j - (n - k)
        };
        proof {
            let ghost ni = n as int;
            assert((j + rot as nat) % ni == (j + k) % ni) by (nonlinear_arith)
                requires
                    k == (rot as nat) % (ni as nat),
                    ni > 0,
            {
                vstd::arithmetic::div_mod::lemma_add_mod_noop_right(j as int, rot as int, ni);
            }
            if j < n - k {
                vstd::arithmetic::div_mod::lemma_small_mod((j + k) as nat, n as nat);
            } else {
                vstd::arithmetic::div_mod::lemma_mod_sub_multiples_vanish((j + k) as int, ni);
                vstd::arithmetic::div_mod::lemma_small_mod((j + k - n) as nat, n as nat);
            }
        }
        r.push(alpha[p]);
        j += 1;
    }
    assert(r@ =~= rotated(alpha@, rot as nat));
    r
}

/// The reverse lookup table of an ASCII alphabet: for each symbol, its digit
/// value (a later occurrence of a symbol replaces an earlier one).
pub fn build_rev(alpha: &[char]) -> (r: Vec<Option<u32>>)
    requires
        all_ascii(alpha@),
        alpha@.len() <= u32::MAX,
    ensures
        is_rev_table(r@, alpha@),
{
    let mut t: Vec<Option<u32>> = Vec::new();
    let mut k: usize = 0;
    while k < TABLE_SIZE
        invariant
            k <= TABLE_SIZE,
            t@.len() == k,
            forall|m: int| 0 <= m < k ==> t@[m] is None,
        decreases TABLE_SIZE - k,
    {
        t.push(None);
        k += 1;
    }
    let mut i: usize = 0;
    while i < alpha.len()
        invariant
            i <= alpha@.len(),
            alpha@.len() <= u32::MAX,
            all_ascii(alpha@),
            t@.len() == TABLE_SIZE,
            forall|c: char|
                (c as u32) < 128 ==> match #[trigger] digit_value(alpha@.take(i as int), c) {
                    Some(v) => t@[c as u32 as int] == Some(v as u32),
                    None => t@[c as u32 as int] is None,
                },
        decreases alpha@.len() - i,
    {
        let ch = alpha[i];
        assert((ch as u32) < 128);
        t.set(ch as u32 as usize, Some(i as u32));
        proof {
            let a1 = alpha@.take(i as int + 1);
            assert(a1.drop_last() =~= alpha@.take(i as int));
            assert(a1.last() == ch);
            assert forall|c: char| (c as u32) < 128 implies match #[trigger] digit_value(a1, c) {
                Some(v) => t@[c as u32 as int] == Some(v as u32),
                None => t@[c as u32 as int] is None,
            } by {
                assert(digit_value(alpha@.take(i as int), c) == digit_value(a1.drop_last(), c));
            }
        }
        i += 1;
    }
    assert(alpha@.take(alpha@.len() as int) =~= alpha@);
    t
}

/// Looks up the digit value of `c` in a reverse table of `a`.
pub fn rev_get(t: &Vec<Option<u32>>, c: char, Ghost(a): Ghost<Seq<char>>) -> (r: Option<u32>)
    requires
        is_rev_table(t@, a),
    ensures
        r == (match digit_value(a, c) {
            Some(v) => Some(v as u32),
            None => None::<u32>,
        }),
{
    let u = c as u32;
    if u < 128 {
        t[u as usize]
    } else {
        proof {
            lemma_ascii_only(a, c);
        }
        None
    }
}

} // verus!
