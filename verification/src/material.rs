//! Per-instance hashes the shaders make of an instance id, mirrored on the CPU.

use vstd::prelude::*;

verus! {

/// The 32-bit mix `hash_color` applies to an instance id before splitting it into bytes.
pub open spec fn instance_mix(id: u32) -> u32 {
    let n0 = vstd::wrapping::u32_specs::wrapping_mul(id, 1_664_525u32);
    let n1 = vstd::wrapping::u32_specs::wrapping_add(n0, 1_013_904_223u32);
    let n2 = n1 ^ (n1 >> 16u32);
    let n3 = vstd::wrapping::u32_specs::wrapping_mul(n2, 0x7feb_352du32);
    let n4 = n3 ^ (n3 >> 15u32);
    let n5 = vstd::wrapping::u32_specs::wrapping_mul(n4, 0x846c_a68bu32);
    n5 ^ (n5 >> 16u32)
}

/// The per-instance hash `hash_color` makes of an instance id, bit for bit: the standard
/// shading class mixes a row's two colours by its first byte.
pub fn instance_hash(id: u32) -> (bytes: [u8; 3])
    ensures
        bytes[0] == instance_mix(id) as u8,
        bytes[1] == (instance_mix(id) >> 8u32) as u8,
        bytes[2] == (instance_mix(id) >> 16u32) as u8,
{
    let mut n = id.wrapping_mul(1_664_525).wrapping_add(1_013_904_223);
    n ^= n >> 16;
    n = n.wrapping_mul(0x7feb_352d);
    n ^= n >> 15;
    n = n.wrapping_mul(0x846c_a68b);
    n ^= n >> 16;
    [n as u8, (n >> 8) as u8, (n >> 16) as u8]
}

/// The asteroid fields' rule: a fifth of the rocks are ice, by the second byte of their
/// instance hash (`hash_color(id).y < 0.2` in the shader's terms; 51 / 255 is 0.2 exactly,
/// so byte 50 is ice and byte 51 is not).
pub fn is_ice(instance_id: u32) -> (ice: bool)
    ensures
        ice == (((instance_mix(instance_id) >> 8u32) as u8) < 51),
{
    instance_hash(instance_id)[1] < 51
}

/// Wellons' `lowbias32` finalizer, the rounds `hash_color` applies after its LCG step: an
/// xor-shift by 16, a multiplication by `0x7feb352d`, an xor-shift by 15, a multiplication by
/// `0x846ca68b` and an xor-shift by 16, the products taken modulo 2^32.
pub open spec fn lowbias32(x: u32) -> u32 {
    let a = x ^ (x >> 16u32);
    let b = ((a as nat * 0x7feb_352d) % 0x1_0000_0000) as u32;
    let c = b ^ (b >> 15u32);
    let d = ((c as nat * 0x846c_a68b) % 0x1_0000_0000) as u32;
    d ^ (d >> 16u32)
}

/// The step of the Numerical Recipes LCG: `1664525 x + 1013904223` modulo 2^32.
pub open spec fn lcg_step(x: u32) -> u32 {
    ((x as nat * 1_664_525 + 1_013_904_223) % 0x1_0000_0000) as u32
}

/// The instance hash is `lowbias32` of one LCG step of the id, as `hash_color` computes it in
/// the shader: the bytes [`instance_hash`] returns are those of this word, low byte first.
pub proof fn instance_mix_is_lcg_then_lowbias32(id: u32)
    ensures
        instance_mix(id) == lowbias32(lcg_step(id)),
{
    let m: int = 0x1_0000_0000;
    let n0 = vstd::wrapping::u32_specs::wrapping_mul(id, 1_664_525u32);
    assert(n0 as int == (id as int * 1_664_525) % m);
    let n1 = vstd::wrapping::u32_specs::wrapping_add(n0, 1_013_904_223u32);
    assert(n1 as int == (n0 as int + 1_013_904_223) % m);
    vstd::arithmetic::div_mod::lemma_add_mod_noop(id as int * 1_664_525, 1_013_904_223, m);
    assert((1_013_904_223int) % m == 1_013_904_223);
    assert(((n0 as int) % m) == n0 as int) by {
        vstd::arithmetic::div_mod::lemma_small_mod(n0 as nat, m as nat);
    }
    assert(n1 == lcg_step(id));
}

} // verus!
