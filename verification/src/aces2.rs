//! The ACES 2.0 tables' building on the CPU where it needs no floating point: the rotation of
//! the cube's six cusp corners into hue order, and the half-precision encoding of the baked
//! table's values.

use vstd::prelude::*;

use crate::text::round_half_even;

verus! {

/// Corners of the RGB cube on the gamut's cusp: red, yellow, green, cyan, blue, magenta.
pub const CUSP_CORNER_COUNT: usize = 6;
/// The corners with the cycle closed at both ends.
pub const TOTAL_CORNER_COUNT: usize = 8;

/// Rotates the six corners so that the one at `min_index` (the lowest hue) comes first, at
/// `out[1]`, and closes the cycle: `out[0]` repeats the last corner and `out[7]` the first.
pub fn cycle_corners<T: Copy>(temp: &[T; 6], min_index: usize, out: &mut [T; 8])
    requires
        min_index < CUSP_CORNER_COUNT,
    ensures
        forall|i: int| 0 <= i < 6 ==> #[trigger] final(out)[i + 1] == temp[(i + min_index) % 6],
        final(out)[0] == temp[(5 + min_index) % 6],
        final(out)[7] == temp[min_index as int],
{
    let mut i: usize = 0;
    while i < CUSP_CORNER_COUNT
        invariant
            i <= 6,
            min_index < 6,
            forall|k: int| 0 <= k < i ==> #[trigger] out[k + 1] == temp[(k + min_index) % 6],
        decreases 6 - i,
    {
        out[i + 1] = temp[(i + min_index) % CUSP_CORNER_COUNT];
        i = i + 1;
    }
    assert(out[5int + 1] == temp[(5 + min_index) % 6]);
    assert(out[0int + 1] == temp[(0 + min_index) % 6]);
    out[0] = out[CUSP_CORNER_COUNT];
    out[CUSP_CORNER_COUNT + 1] = out[1];
}

/// The magnitude bits of the half-precision float nearest the `f32` whose bits are `bits`,
/// ties to even: an infinity stays one and a NaN becomes the quiet NaN; a finite value has its
/// significand rounded at the half's precision (ten bits for a normal half, fewer below), a
/// round-up carrying into the exponent; what exceeds the largest half is an infinity and what
/// lies below half the smallest subnormal is zero.
pub open spec fn half_magnitude(bits: u32) -> nat {
    let exponent = (bits >> 23u32) & 0xffu32;
    let mantissa = bits & 0x7f_ffffu32;
    if exponent == 255 {
        if mantissa != 0 {
            0x7e00
        } else {
            0x7c00
        }
    } else if exponent >= 143 {
        0x7c00
    } else if exponent >= 113 {
        ((exponent - 112) * 1024 + round_half_even(mantissa as nat, 8192)) as nat
    } else if exponent >= 102 {
        round_half_even((mantissa + 0x80_0000) as nat, vstd::arithmetic::power2::pow2((126 - exponent) as nat))
    } else {
        0
    }
}

/// The half-precision bits of the `f32` whose bits are `bits`: its sign, then
/// [`half_magnitude`].
pub open spec fn half_of_bits(bits: u32) -> u16 {
    ((if bits >= 0x8000_0000 {
        0x8000nat
    } else {
        0
    }) + half_magnitude(bits)) as u16
}

/// The half-precision bits of the `f32` whose bits are `bits`, rounded to nearest, ties to
/// even (see [`half_magnitude`]).
pub fn half_from_bits(bits: u32) -> (half: u16)
    ensures
        half == half_of_bits(bits),
        half_magnitude(bits) <= 0x7e00,
{
    let sign: u16 = if bits >= 0x8000_0000 {
        0x8000
    } else {
        0
    };
    let exponent = (bits >> 23u32) & 0xffu32;
    let mantissa = bits & 0x7f_ffffu32;
    assert(exponent <= 255) by (bit_vector)
        requires
            exponent == (bits >> 23u32) & 0xffu32,
    ;
    assert(mantissa < 0x80_0000) by (bit_vector)
        requires
            mantissa == bits & 0x7f_ffffu32,
    ;
    let magnitude: u16 = if exponent == 255 {
        if mantissa != 0 {
            0x7e00
        } else {
            0x7c00
        }
    } else if exponent >= 143 {
        0x7c00
    } else if exponent >= 113 {
        let q = mantissa >> 13u32;
        let rest = mantissa & 0x1fffu32;
        assert(q == mantissa / 8192 && rest == mantissa % 8192 && ((q & 1u32 == 1u32) == (q % 2 == 1))) by (bit_vector)
            requires
                q == mantissa >> 13u32,
                rest == mantissa & 0x1fffu32,
        ;
        let up: u32 = if rest > 0x1000 || (rest == 0x1000 && q & 1u32 == 1u32) {
            1
        } else {
            0
        };
        assert(q + up == round_half_even(mantissa as nat, 8192));
        ((exponent - 112) * 1024 + q + up) as u16
    } else if exponent >= 102 {
        let m = mantissa | 0x80_0000u32;
        assert(m == mantissa + 0x80_0000) by (bit_vector)
            requires
                m == mantissa | 0x80_0000u32,
                mantissa < 0x80_0000,
        ;
        let shift = 126 - exponent;
        let q = m >> shift;
        let p = 1u32 << shift;
        proof {
            vstd::bits::lemma_u32_pow2_no_overflow(shift as nat);
            vstd::bits::lemma_u32_shl_is_mul(1u32, shift);
            vstd::bits::lemma_u32_shr_is_div(m, shift);
            vstd::arithmetic::power2::lemma_pow2_unfold(shift as nat);
            vstd::arithmetic::power2::lemma_pow2_pos((shift - 1) as nat);
        }
        let rest = m & (p - 1);
        proof {
            assert((p - 1) as u32 == vstd::bits::low_bits_mask(shift as nat) as u32);
            vstd::bits::lemma_u32_low_bits_mask_is_mod(m, shift as nat);
        }
        let half = p / 2;
        assert((q & 1u32 == 1u32) == (q % 2 == 1)) by (bit_vector);
        let up: u32 = if rest > half || (rest == half && q & 1u32 == 1u32) {
            1
        } else {
            0
        };
        proof {
            assert(q as nat == m as nat / vstd::arithmetic::power2::pow2(shift as nat));
            assert(rest as nat == m as nat % vstd::arithmetic::power2::pow2(shift as nat));
            lemma_subnormal_small(m, shift as nat);
        }
        assert(q + up == round_half_even(m as nat, vstd::arithmetic::power2::pow2(shift as nat)));
        (q + up) as u16
    } else {
        0
    };
    sign + magnitude
}

/// A subnormal half's significand fits in eleven bits: the 24-bit significand over at least
/// 2^14, rounded up by at most one.
proof fn lemma_subnormal_small(m: u32, shift: nat)
    requires
        m < 0x100_0000,
        14 <= shift <= 24,
    ensures
        m as nat / vstd::arithmetic::power2::pow2(shift) < 1024,
{
    if shift > 14 { vstd::arithmetic::power2::lemma_pow2_strictly_increases(14, shift); }
    vstd::arithmetic::power2::lemma2_to64();
    let p = vstd::arithmetic::power2::pow2(shift);
    assert(m as nat / p <= m as nat / 16384) by {
        vstd::arithmetic::div_mod::lemma_div_is_ordered_by_denominator(m as int, 16384, p as int);
    }
    assert(m / 16384 < 1024) by (nonlinear_arith)
        requires
            m < 0x100_0000,
    ;
}

/// The table entry texel `t` of a `n`² × `n` image of the baked table shows: red `t mod n`,
/// blue `(t / n) mod n` (the slice, side by side along x) and green `t / n²` (along y); the
/// table holds red fastest, then green, then blue.
pub open spec fn lut_source(n: int, t: int) -> int {
    t % n + n * (t / n / n + n * (t / n % n))
}

/// The eight bytes of a texel of the table entry whose float bits are `v`: the half-precision
/// red, green and blue and an alpha of one, each little-endian.
pub open spec fn texel_bytes(v: [u32; 3]) -> Seq<u8> {
    let (r, g, b) = (half_of_bits(v[0]), half_of_bits(v[1]), half_of_bits(v[2]));
    seq![low_byte(r), high_byte(r), low_byte(g), high_byte(g), low_byte(b), high_byte(b), low_byte(0x3c00), high_byte(0x3c00)]
}

/// The low byte of `h`.
pub open spec fn low_byte(h: u16) -> u8 {
    (h % 256) as u8
}

/// The high byte of `h`.
pub open spec fn high_byte(h: u16) -> u8 {
    (h / 256) as u8
}

/// Appends `h` little-endian.
fn push_half(bytes: &mut Vec<u8>, h: u16)
    ensures
        final(bytes)@ == old(bytes)@.push(low_byte(h)).push(high_byte(h)),
{
    assert((h & 0xff) == h % 256 && (h >> 8) == h / 256) by (bit_vector);
    bytes.push((h & 0xff) as u8);
    bytes.push((h >> 8) as u8);
}

/// The bytes of the first `count` texels of the image of `table` (see [`lut_source`]).
pub open spec fn lut_bytes(table: Seq<[u32; 3]>, n: int, count: int) -> Seq<u8>
    decreases count,
{
    if count <= 0 {
        Seq::empty()
    } else {
        lut_bytes(table, n, count - 1) + texel_bytes(table[lut_source(n, count - 1)])
    }
}

/// The baked table, as the bits of its floats (red fastest, then green, then blue), as RGBA16F
/// texels for a 2D image `size`² wide and `size` high: slice b (blue) occupies columns
/// [b · size, (b + 1) · size), red along x within it, green along y.
pub fn lut_texels(table: &Vec<[u32; 3]>, size: u32) -> (bytes: Vec<u8>)
    requires
        table@.len() >= size * size * size,
        size * size * size * 8 <= usize::MAX,
    ensures
        bytes@ == lut_bytes(table@, size as int, size * size * size),
{
    let n = size as usize;
    assert(n * n <= n * n * n * 8 && n * n * n <= n * n * n * 8) by (nonlinear_arith)
        requires
            n == size,
    ;
    let total = n * n * n;
    let mut bytes: Vec<u8> = Vec::new();
    let mut t: usize = 0;
    while t < total
        invariant
            t <= total,
            n == size,
            total == n * n * n,
            total * 8 <= usize::MAX,
            table@.len() >= total,
            bytes@ == lut_bytes(table@, n as int, t as int),
            bytes@.len() == 8 * t,
        decreases total - t,
    {
        let r = t % n;
        let q = t / n;
        let b = q % n;
        let g = q / n;
        assert(r < n && b < n && g < n && n * b < n * n && g + n * b < n * n && n * (g + n * b) <= total - n && r + n * (g
            + n * b) < total && n * n <= total) by (nonlinear_arith)
            requires
                t < total,
                total == n * n * n,
                r == t % n,
                q == t / n,
                b == q % n,
                g == q / n,
        ;
        let v = table[r + n * (g + n * b)];
        let ghost before = bytes@;
        push_half(&mut bytes, half_from_bits(v[0]));
        push_half(&mut bytes, half_from_bits(v[1]));
        push_half(&mut bytes, half_from_bits(v[2]));
        push_half(&mut bytes, 0x3c00);
        proof {
            assert(lut_source(n as int, t as int) == r + n * (g + n * b));
            assert(bytes@ =~= before + texel_bytes(v));
        }
        t = t + 1;
    }
    bytes
}

} // verus!
