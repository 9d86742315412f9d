use lib::field::digest;
use lib::placement::fnv1a64;

/// FNV-1a as the field digest folds it, over the samples' little-endian bytes.
fn fold(samples: &[f32]) -> u64 {
    samples.iter().fold(0xcbf2_9ce4_8422_2325_u64, |h, v| {
        v.to_le_bytes().iter().fold(h, |h, &b| (h ^ u64::from(b)).wrapping_mul(0x0000_0100_0000_01b3))
    })
}

#[test]
fn the_digest_hashes_the_samples_bytes() {
    let samples = [1.0f32, -2.5, 0.0, 1.0e9];
    let bits: Vec<u32> = samples.iter().map(|v| v.to_bits()).collect();
    assert_eq!(digest(&bits), fold(&samples));
    assert_eq!(digest(&bits[..1]), fnv1a64(&1.0f32.to_le_bytes()));
    assert_eq!(digest(&[]), 0xcbf2_9ce4_8422_2325);
    // A changed sample changes the digest.
    let mut other = bits.clone();
    other[2] = 0.5f32.to_bits();
    assert_ne!(digest(&other), digest(&bits));
}
