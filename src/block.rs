//! Conversion of a block's base-47 digits into its five bytes.
use vstd::prelude::*;

verus! {

/// Number of digit symbols in a block.
pub const BLOCK_SYMBOLS: usize = 8;

/// Number of bytes that a block decodes to.
pub const BLOCK_BYTES: usize = 5;

/// Every value of the sequence is a base-47 digit.
pub open spec fn all_digits(ds: Seq<u32>) -> bool {
    forall|i: int| 0 <= i < ds.len() ==> #[trigger] ds[i] < 47
}

/// The number that the digits spell in base 47, most significant first.
pub open spec fn horner(ds: Seq<u32>) -> nat
    decreases ds.len(),
{
    if ds.len() == 0 {
        0
    } else {
        horner(ds.drop_last()) * 47 + ds.last() as nat
    }
}

pub open spec fn pow47(n: nat) -> nat
    decreases n,
{
    if n == 0 {
        1
    } else {
        pow47((n - 1) as nat) * 47
    }
}

/// The low 40 bits of `v` as five bytes, most significant first.
pub open spec fn bytes40(v: nat) -> Seq<u8> {
    let w = v % 0x100_0000_0000;
    seq![
        (w / 0x1_0000_0000 % 256) as u8,
        (w / 0x100_0000 % 256) as u8,
        (w / 0x1_0000 % 256) as u8,
        (w / 0x100 % 256) as u8,
        (w % 256) as u8,
    ]
}

proof fn lemma_pow47_monotonic(i: nat, j: nat)
    requires
        i <= j,
    ensures
        pow47(i) <= pow47(j),
    decreases j,
{
    if i < j {
        lemma_pow47_monotonic(i, (j - 1) as nat);
    }
}

/// The five bytes of a block: its digits accumulated in base 47, truncated to
/// the low 40 bits.
pub fn base47_digits_to_5bytes(digits: &[u32]) -> (r: [u8; 5])
    requires
        digits@.len() <= BLOCK_SYMBOLS,
        all_digits(digits@),
    ensures
        r@ == bytes40(horner(digits@)),
{
    let mut val: u64 = 0;
    let mut i: usize = 0;
    proof {
        reveal_with_fuel(pow47, 9);
        lemma_pow47_monotonic(digits@.len() as nat, 8);
    }
    while i < digits.len()
        invariant
            i <= digits@.len(),
            digits@.len() <= 8,
            all_digits(digits@),
            val == horner(digits@.take(i as int)),
            val < pow47(i as nat),
            pow47(digits@.len() as nat) <= 23811286661761,
        decreases digits@.len() - i,
    {
        let d = digits[i];
        proof {
            lemma_pow47_monotonic((i + 1) as nat, digits@.len() as nat);
            let p = pow47(i as nat);
            assert(val * 47 + d < p * 47) by (nonlinear_arith)
                requires
                    val < p,
                    d < 47,
            ;
            assert(digits@.take(i as int + 1).drop_last() =~= digits@.take(i as int));
        }
        val = val * 47 + d as u64;
        i += 1;
    }
    assert(digits@.take(digits@.len() as int) =~= digits@);
    let w = val % 0x100_0000_0000;
    let r = [
        (w / 0x1_0000_0000 % 256) as u8,
        (w / 0x100_0000 % 256) as u8,
        (w / 0x1_0000 % 256) as u8,
        (w / 0x100 % 256) as u8,
        (w % 256) as u8,
    ];
    assert(r@ =~= bytes40(horner(digits@)));
    r
}

} // verus!
