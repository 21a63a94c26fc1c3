//! The XOR masking transform of RFC 6455 §5.3.
//!
//! Every byte of a masked payload is XORed with one byte of a 4-byte key,
//! chosen by the byte's position modulo four. Applying the transform twice
//! with the same key restores the original payload.

use vstd::prelude::*;

verus! {

/// The payload `p` with the 4-byte key `k` XORed in, position by position.
pub open spec fn apply_mask(p: Seq<u8>, k: [u8; 4]) -> Seq<u8> {
    Seq::new(p.len(), |i: int| p[i] ^ k@[i % 4])
}

/// The payload with the key XORed in when one is present, and unchanged
/// when none is.
pub open spec fn unmask_opt(p: Seq<u8>, m: Option<[u8; 4]>) -> Seq<u8> {
    match m {
        Some(k) => apply_mask(p, k),
        None => p,
    }
}

/// XOR the 4-byte key into `payload` in place.
pub fn unmask(payload: &mut Vec<u8>, mask: [u8; 4])
    ensures
        final(payload)@ == apply_mask(old(payload)@, mask),
{
    let n = payload.len();
    let mut i: usize = 0;
    while i < n
        invariant
            n == payload@.len(),
            i <= n,
            payload@.len() == old(payload)@.len(),
            forall|j: int| 0 <= j < i ==> payload@[j] == apply_mask(old(payload)@, mask)[j],
            forall|j: int| i <= j < n ==> payload@[j] == old(payload)@[j],
        decreases n - i,
    {
        let b = payload[i] ^ mask[i % 4];
        payload[i] = b;
        i = i + 1;
    }
    proof {
        assert(payload@ =~= apply_mask(old(payload)@, mask));
    }
}

/// Masking is an involution: unmasking an unmasked payload with the same
/// key gives back the payload.
pub proof fn lemma_mask_involution(p: Seq<u8>, k: [u8; 4])
    ensures
        apply_mask(apply_mask(p, k), k) == p,
{
    assert forall|i: int| 0 <= i < p.len() implies apply_mask(apply_mask(p, k), k)[i] == p[i] by {
        let b = p[i];
        let m = k@[i % 4];
        assert((b ^ m) ^ m == b) by (bit_vector);
    }
    assert(apply_mask(apply_mask(p, k), k) =~= p);
}

} // verus!
