//! The XOR masking transform applied to payloads of client-originated frames.

use vstd::prelude::*;

verus! {

/// The masking transform as a value: every byte XORed with the key byte
/// selected by its position modulo four.
pub open spec fn mask_seq(data: Seq<u8>, key: [u8; 4]) -> Seq<u8> {
    Seq::new(data.len(), |i: int| data[i] ^ key[i % 4])
}

/// XORs each payload byte in place with `key[i % 4]`.
pub fn apply_mask(buf: &mut Vec<u8>, key: [u8; 4])
    ensures
        final(buf)@ == mask_seq(old(buf)@, key),
{
    let n = buf.len();
    let mut i: usize = 0;
    while i < n
        invariant
            i <= n,
            n == buf@.len(),
            n == old(buf)@.len(),
            forall|j: int| 0 <= j < i ==> buf@[j] == mask_seq(old(buf)@, key)[j],
            forall|j: int| i <= j < n ==> buf@[j] == old(buf)@[j],
        decreases n - i,
    {
        let b = buf[i];
        let k = key[i % 4];
        buf[i] = b ^ k;
        i = i + 1;
    }
    proof {
        assert(buf@ =~= mask_seq(old(buf)@, key));
    }
}

/// Masking never changes a payload's length.
pub proof fn lemma_mask_seq_len(data: Seq<u8>, key: [u8; 4])
    ensures
        mask_seq(data, key).len() == data.len(),
{
}

/// Masking is an involution: applying the transform twice with the same key
/// restores the original bytes, for every key and payload, the empty payload
/// included.
pub proof fn lemma_mask_involution(data: Seq<u8>, key: [u8; 4])
    ensures
        mask_seq(mask_seq(data, key), key) == data,
{
    assert forall|i: int| 0 <= i < data.len() implies mask_seq(mask_seq(data, key), key)[i]
        == data[i] by {
        let k = key[i % 4];
        let b = data[i];
        assert((b ^ k) ^ k == b) by (bit_vector);
    }
    assert(mask_seq(mask_seq(data, key), key) =~= data);
}

} // verus!
