//! A square field's samples as the bits of their floats: their digest, which tells two
//! fields apart in tests and caches.

use vstd::prelude::*;

use crate::placement::{fnv1a64, spec_fnv1a64};

verus! {

/// The little-endian bytes of `words`, one after the other.
pub open spec fn le_bytes(words: Seq<u32>) -> Seq<u8> {
    Seq::new(4 * words.len(), |i: int| ((words[i / 4] >> (8 * (i % 4)) as u32) & 0xffu32) as u8)
}

/// FNV-1a over the little-endian bytes of the samples whose float bits are `bits`.
pub fn digest(bits: &[u32]) -> (hash: u64)
    requires
        4 * bits@.len() <= usize::MAX,
    ensures
        hash == spec_fnv1a64(le_bytes(bits@), 4 * bits@.len() as int),
{
    let mut bytes: Vec<u8> = Vec::new();
    let mut k: usize = 0;
    while k < bits.len()
        invariant
            k <= bits@.len(),
            bytes@.len() == 4 * k,
            forall|i: int| 0 <= i < 4 * k ==> #[trigger] bytes@[i] == le_bytes(bits@)[i],
        decreases bits@.len() - k,
    {
        let w = bits[k];
        let b0 = w & 0xff;
        let b1 = (w >> 8u32) & 0xff;
        let b2 = (w >> 16u32) & 0xff;
        let b3 = (w >> 24u32) & 0xff;
        assert(b0 < 256 && b1 < 256 && b2 < 256 && b3 < 256) by (bit_vector)
            requires
                b0 == w & 0xff,
                b1 == (w >> 8u32) & 0xff,
                b2 == (w >> 16u32) & 0xff,
                b3 == (w >> 24u32) & 0xff,
        ;
        assert(w >> 0u32 == w) by (bit_vector);
        bytes.push(b0 as u8);
        bytes.push(b1 as u8);
        bytes.push(b2 as u8);
        bytes.push(b3 as u8);
        proof {
            assert forall|i: int| 0 <= i < 4 * (k + 1) implies #[trigger] bytes@[i] == le_bytes(bits@)[i] by {
                if i >= 4 * k {
                    assert(i / 4 == k);
                }
            }
        }
        k = k + 1;
    }
    proof {
        assert(bytes@ =~= le_bytes(bits@));
    }
    fnv1a64(bytes.as_slice())
}

} // verus!
