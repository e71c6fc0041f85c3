//! The repeating-key XOR mask applied to decoded bytes.
use vstd::prelude::*;
use vstd::string::StringSliceAdditionalSpecFns;

verus! {

/// Each byte XORed with the key byte at its position modulo the key's length;
/// an empty key leaves the bytes as they are.
pub open spec fn xor_mask(data: Seq<u8>, key: Seq<u8>) -> Seq<u8> {
    if key.len() == 0 {
        data
    } else {
        Seq::new(data.len(), |i: int| data[i] ^ key[i % (key.len() as int)])
    }
}

/// Masks `data` with the bytes of `key`, repeated.
pub fn xor_with_key(data: &[u8], key: &str) -> (r: Vec<u8>)
    ensures
        r@ == xor_mask(data@, key.spec_bytes()),
{
    let key_bytes = key.as_bytes();
    let n = key_bytes.len();
    let mut r: Vec<u8> = Vec::new();
    if n == 0 {
        let mut i: usize = 0;
        while i < data.len()
            invariant
                i <= data@.len(),
                r@ =~= data@.take(i as int),
            decreases data@.len() - i,
        {
            r.push(data[i]);
            i += 1;
        }
        assert(data@.take(data@.len() as int) =~= data@);
        return r;
    }
    let mut i: usize = 0;
    while i < data.len()
        invariant
            n == key_bytes@.len(),
            key_bytes@ == key.spec_bytes(),
            n > 0,
            i <= data@.len(),
            r@.len() == i,
            forall|m: int| 0 <= m < i ==> r@[m] == data@[m] ^ key_bytes@[m % (n as int)],
        decreases data@.len() - i,
    {
        r.push(data[i] ^ key_bytes[i % n]);
        i += 1;
    }
    assert(r@ =~= xor_mask(data@, key.spec_bytes()));
    r
}

/// Masking twice with the same key gives back the original bytes.
pub proof fn lemma_xor_round_trip(data: Seq<u8>, key: Seq<u8>)
    ensures
        xor_mask(xor_mask(data, key), key) == data,
{
    if key.len() > 0 {
        let once = xor_mask(data, key);
        let twice = xor_mask(once, key);
        assert forall|i: int| 0 <= i < data.len() implies twice[i] == data[i] by {
            let b = data[i];
            let k = key[i % (key.len() as int)];
            assert((b ^ k) ^ k == b) by (bit_vector);
        }
        assert(twice =~= data);
    }
}

} // verus!
