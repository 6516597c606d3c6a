//! The 32-bit XOR mask applied to frame payloads.

use vstd::prelude::*;

verus! {

/// Byte `i` of `p` XOR-ed with byte `i mod 4` of the key.
pub open spec fn masked(p: Seq<u8>, key: Seq<u8>) -> Seq<u8>
    recommends
        key.len() == 4,
{
    Seq::new(p.len(), |i: int| p[i] ^ key[i % 4])
}

/// Masking twice with the same key gives the payload back.
pub proof fn lemma_mask_involutive(p: Seq<u8>, key: Seq<u8>)
    requires
        key.len() == 4,
    ensures
        masked(masked(p, key), key) == p,
{
    assert forall|i: int| 0 <= i < p.len() implies #[trigger] masked(masked(p, key), key)[i]
        == p[i] by {
        let a = p[i];
        let k = key[i % 4];
        assert((a ^ k) ^ k == a) by (bit_vector);
    }
    assert(masked(masked(p, key), key) =~= p);
}

/// Applies the mask `key` to `data` in place.
pub fn apply_mask(key: [u8; 4], data: &mut Vec<u8>)
    ensures
        final(data)@ == masked(old(data)@, key@),
{
    let n = data.len();
    let mut i: usize = 0;
    while i < n
        invariant
            0 <= i <= n,
            n == old(data)@.len(),
            data@.len() == n,
            forall|j: int| 0 <= j < i ==> data@[j] == old(data)@[j] ^ key@[j % 4],
            forall|j: int| i <= j < n ==> data@[j] == old(data)@[j],
        decreases n - i,
    {
        let b = data[i] ^ key[i % 4];
        data.set(i, b);
        i = i + 1;
    }
    assert(data@ =~= masked(old(data)@, key@));
}

} // verus!
