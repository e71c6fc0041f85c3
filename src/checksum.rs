//! The checksum over a window of decoded blocks.
use vstd::prelude::*;

verus! {

/// Number of blocks that one checksum symbol covers.
pub const CHECKSUM_PERIOD: usize = 4;

/// All bytes of the sequence XORed together.
pub open spec fn xor_bytes(bs: Seq<u8>) -> u8
    decreases bs.len(),
{
    if bs.len() == 0 {
        0
    } else {
        xor_bytes(bs.drop_last()) ^ bs.last()
    }
}

/// The bytes of the blocks, one block after another.
pub open spec fn flatten(blocks: Seq<Seq<u8>>) -> Seq<u8>
    decreases blocks.len(),
{
    if blocks.len() == 0 {
        Seq::empty()
    } else {
        flatten(blocks.drop_last()) + blocks.last()
    }
}

/// The expected checksum digit of a window: the XOR of all its bytes, mod 47.
pub open spec fn checksum(blocks: Seq<Seq<u8>>) -> nat {
    (xor_bytes(flatten(blocks)) as nat) % 47
}

/// The bytes of each block, as sequences.
pub open spec fn block_seqs(blocks: Seq<[u8; 5]>) -> Seq<Seq<u8>> {
    blocks.map_values(|b: [u8; 5]| b@)
}

/// The checksum digit of the blocks.
pub fn checksum47(blocks: &[[u8; 5]]) -> (r: u32)
    ensures
        r == checksum(block_seqs(blocks@)),
        r < 47,
{
    let mut x: u8 = 0;
    let mut i: usize = 0;
    while i < blocks.len()
        invariant
            i <= blocks@.len(),
            x == xor_bytes(flatten(block_seqs(blocks@.take(i as int)))),
        decreases blocks@.len() - i,
    {
        let block = blocks[i];
        let ghost before = flatten(block_seqs(blocks@.take(i as int)));
        let mut j: usize = 0;
        while j < 5
            invariant
                j <= 5,
                x == xor_bytes(before + block@.take(j as int)),
            decreases 5 - j,
        {
            let ghost s = before + block@.take(j as int);
            assert((before + block@.take(j as int + 1)).drop_last() =~= s);
            x = x ^ block[j];
            j += 1;
        }
        assert(block_seqs(blocks@.take(i as int + 1)).drop_last() =~= block_seqs(
            blocks@.take(i as int),
        ));
        assert(block@.take(5) =~= block@);
        i += 1;
    }
    assert(blocks@.take(blocks@.len() as int) =~= blocks@);
    (x as u32) % 47
}

proof fn lemma_xor_update(s: Seq<u8>, k: int, v: u8)
    requires
        0 <= k < s.len(),
    ensures
        xor_bytes(s.update(k, v)) == xor_bytes(s) ^ s[k] ^ v,
    decreases s.len(),
{
    let t = s.update(k, v);
    let p = xor_bytes(s.drop_last());
    if k == s.len() - 1 {
        assert(t.drop_last() =~= s.drop_last());
        let a = s[k];
        assert(p ^ v == p ^ a ^ a ^ v) by (bit_vector);
    } else {
        assert(t.drop_last() =~= s.drop_last().update(k, v));
        lemma_xor_update(s.drop_last(), k, v);
        let a = s[k];
        let l = s.last();
        assert((p ^ a ^ v) ^ l == (p ^ l) ^ a ^ v) by (bit_vector);
    }
}

proof fn lemma_xor_concat(a: Seq<u8>, b: Seq<u8>)
    ensures
        xor_bytes(a + b) == xor_bytes(a) ^ xor_bytes(b),
    decreases b.len(),
{
    let x = xor_bytes(a);
    if b.len() == 0 {
        assert(a + b =~= a);
        assert(x ^ 0u8 == x) by (bit_vector);
    } else {
        assert((a + b).drop_last() =~= a + b.drop_last());
        lemma_xor_concat(a, b.drop_last());
        let y = xor_bytes(b.drop_last());
        let l = b.last();
        assert((x ^ y) ^ l == x ^ (y ^ l)) by (bit_vector);
    }
}

/// Changing byte `r` of block `q` of a checksum window to `v` changes the XOR
/// of all the window's bytes by exactly the old and new byte: where they
/// differ, the XOR that the checksum digit reduces mod 47 differs too.
pub proof fn lemma_window_byte_change(w: Seq<Seq<u8>>, q: int, r: int, v: u8)
    requires
        0 <= q < w.len(),
        0 <= r < w[q].len(),
    ensures
        xor_bytes(flatten(w.update(q, w[q].update(r, v)))) == xor_bytes(flatten(w)) ^ w[q][r] ^ v,
        v != w[q][r] ==> xor_bytes(flatten(w.update(q, w[q].update(r, v)))) != xor_bytes(
            flatten(w),
        ),
    decreases w.len(),
{
    let w2 = w.update(q, w[q].update(r, v));
    let a = w[q][r];
    if q == w.len() - 1 {
        let front = flatten(w.drop_last());
        assert(w2.drop_last() =~= w.drop_last());
        assert(flatten(w2) =~= flatten(w).update(front.len() + r, v));
        lemma_xor_update(flatten(w), front.len() + r, v);
    } else {
        assert(w2.drop_last() =~= w.drop_last().update(q, w[q].update(r, v)));
        lemma_window_byte_change(w.drop_last(), q, r, v);
        lemma_xor_concat(flatten(w2.drop_last()), w.last());
        lemma_xor_concat(flatten(w.drop_last()), w.last());
        let x = xor_bytes(flatten(w.drop_last()));
        let l = xor_bytes(w.last());
        assert((x ^ a ^ v) ^ l == (x ^ l) ^ a ^ v) by (bit_vector);
    }
    let x = xor_bytes(flatten(w));
    assert(a != v ==> x ^ a ^ v != x) by (bit_vector);
}

} // verus!
