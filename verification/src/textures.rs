//! Surface textures' mip chains: every level halves the one above, each texel from its 2 × 2
//! block, down to 1 × 1; and the ramp texture the mip check samples.

use vstd::prelude::*;

verus! {

/// A texture's pixels: RGBA8 level after level, level 0 first, down to 1 × 1.
#[derive(Clone, Debug)]
pub struct TextureData {
    /// A name for the debugger and the logs.
    pub name: &'static str,
    /// Level 0's side in pixels.
    pub size: u32,
    /// sRGB-encoded colour (albedo), else linear data (normals).
    pub srgb: bool,
    /// Every level's RGBA8 pixels, rows top to bottom.
    pub levels: Vec<Vec<u8>>,
}

/// The sides of a mip chain from `side`: halved (rounding down) until 1.
pub open spec fn level_sides(side: nat) -> Seq<nat>
    decreases side,
{
    if side <= 1 {
        seq![side]
    } else {
        seq![side] + level_sides(side / 2)
    }
}

proof fn lemma_level_sides(side: nat)
    requires
        side >= 1,
    ensures
        level_sides(side).len() >= 1,
        level_sides(side)[0] == side,
        level_sides(side)[level_sides(side).len() - 1] == 1,
        forall|k: int| 0 <= k < level_sides(side).len() ==> 1 <= #[trigger] level_sides(side)[k] <= side,
        forall|k: int| 0 <= k < level_sides(side).len() - 1 ==> #[trigger] level_sides(side)[k + 1]
            == level_sides(side)[k] / 2 && level_sides(side)[k] > 1,
        side > 1 ==> level_sides(side).drop_first() == level_sides(side / 2),
    decreases side,
{
    if side > 1 {
        lemma_level_sides(side / 2);
        let rest = level_sides(side / 2);
        assert(level_sides(side) == seq![side] + rest);
        assert(level_sides(side).drop_first() =~= rest);
        assert forall|k: int| 0 <= k < level_sides(side).len() - 1 implies #[trigger] level_sides(side)[k + 1]
            == level_sides(side)[k] / 2 && level_sides(side)[k] > 1 by {
            if k > 0 {
                assert(level_sides(side)[k + 1] == rest[k]);
                assert(level_sides(side)[k] == rest[k - 1]);
            }
        }
    }
}

/// Whether `out` is the `side × side` level `level` halved by `f`: texel (x, y) of the
/// `side / 2`-wide result is what `f` may return for the 2 × 2 block at (2x, 2y), in the order
/// top left, top right, bottom left, bottom right.
pub open spec fn halved_by<T, F: Fn(T, T, T, T) -> T>(level: Seq<T>, side: nat, f: F, out: Seq<T>) -> bool {
    let half = side / 2;
    &&& out.len() == half * half
    &&& forall|y: int, x: int| #![trigger out[y * half + x]]
        0 <= y < half && 0 <= x < half ==> call_ensures(
            f,
            (
                level[2 * y * side + 2 * x],
                level[2 * y * side + 2 * x + 1],
                level[(2 * y + 1) * side + 2 * x],
                level[(2 * y + 1) * side + 2 * x + 1],
            ),
            out[y * half + x],
        )
}

/// Whether `f` may be called on the 2 × 2 block at (2x, 2y) of the `side`-wide `level`.
pub open spec fn block_callable<T, F: Fn(T, T, T, T) -> T>(level: Seq<T>, side: nat, f: F, y: int, x: int) -> bool {
    call_requires(
        f,
        (
            level[2 * y * side + 2 * x],
            level[2 * y * side + 2 * x + 1],
            level[(2 * y + 1) * side + 2 * x],
            level[(2 * y + 1) * side + 2 * x + 1],
        ),
    )
}

/// The four texels of the block at (2x, 2y) of a `side`-wide level lie in it.
proof fn lemma_block_in(side: nat, y: int, x: int)
    requires
        0 <= y < side / 2,
        0 <= x < side / 2,
    ensures
        0 <= 2 * y * side + 2 * x,
        2 * y * side + 2 * x + 1 < (2 * y + 1) * side + 2 * x,
        (2 * y + 1) * side + 2 * x + 1 < side * side,
{
    assert(0 <= 2 * y * side + 2 * x) by (nonlinear_arith)
        requires
            0 <= y,
            0 <= x,
    ;
    assert((2 * y + 1) * side + 2 * x + 1 < side * side) by (nonlinear_arith)
        requires
            0 <= y < side / 2,
            0 <= x < side / 2,
    ;
    assert(2 * y * side + 2 * x + 1 < (2 * y + 1) * side + 2 * x) by (nonlinear_arith)
        requires
            0 <= x < side / 2,
    ;
}

/// Halves a `side × side` level, each texel from its 2 × 2 block.
pub fn downsample<T: Copy, F: Fn(T, T, T, T) -> T>(level: &Vec<T>, side: u32, f: F) -> (out: Vec<T>)
    requires
        level@.len() == side * side,
        side * side <= u32::MAX,
        forall|y: int, x: int| 0 <= y < side / 2 && 0 <= x < side / 2 ==> #[trigger] block_callable(level@, side as nat, f, y, x),
    ensures
        halved_by(level@, side as nat, f, out@),
{
    let half = side / 2;
    let s = side as usize;
    let mut out: Vec<T> = Vec::new();
    let mut y: usize = 0;
    while y < half as usize
        invariant
            half == side / 2,
            s == side,
            level@.len() == side * side,
            side * side <= u32::MAX,
            forall|yy: int, x: int| 0 <= yy < side / 2 && 0 <= x < side / 2 ==> #[trigger] block_callable(level@, side as nat, f, yy, x),
            y <= half,
            out@.len() == y * half,
            forall|yy: int, x: int| #![trigger out@[yy * half + x]]
                0 <= yy < y && 0 <= x < half ==> call_ensures(
                    f,
                    (
                        level@[2 * yy * side + 2 * x],
                        level@[2 * yy * side + 2 * x + 1],
                        level@[(2 * yy + 1) * side + 2 * x],
                        level@[(2 * yy + 1) * side + 2 * x + 1],
                    ),
                    out@[yy * half + x],
                ),
        decreases half - y,
    {
        let mut x: usize = 0;
        while x < half as usize
            invariant
                half == side / 2,
                s == side,
                level@.len() == side * side,
                side * side <= u32::MAX,
                forall|yy: int, xx: int| 0 <= yy < side / 2 && 0 <= xx < side / 2 ==> #[trigger] block_callable(level@, side as nat, f, yy, xx),
                y < half,
                x <= half,
                out@.len() == y * half + x,
                forall|yy: int, xx: int| #![trigger out@[yy * half + xx]]
                    (0 <= yy < y && 0 <= xx < half) || (yy == y && 0 <= xx < x) ==> call_ensures(
                        f,
                        (
                            level@[2 * yy * side + 2 * xx],
                            level@[2 * yy * side + 2 * xx + 1],
                            level@[(2 * yy + 1) * side + 2 * xx],
                            level@[(2 * yy + 1) * side + 2 * xx + 1],
                        ),
                        out@[yy * half + xx],
                    ),
            decreases half - x,
        {
            proof {
                assert((2 * y + 1) * side + 2 * x + 1 < side * side) by (nonlinear_arith)
                    requires
                        y < half,
                        x < half,
                        half == side / 2,
                ;
                assert(2 * y * side + 2 * x + 1 < (2 * y + 1) * side + 2 * x + 1) by (nonlinear_arith)
                    requires
                        x < half,
                        half == side / 2,
                ;
            }
            let i = 2 * y * s + 2 * x;
            assert(i == 2 * y * side + 2 * x) by (nonlinear_arith)
                requires
                    i == 2 * y * s + 2 * x,
                    s == side,
            ;
            assert(i + s == (2 * y + 1) * side + 2 * x) by (nonlinear_arith)
                requires
                    i == 2 * y * side + 2 * x,
                    s == side,
            ;
            assert(block_callable(level@, side as nat, f, y as int, x as int));
            let texel = f(level[i], level[i + 1], level[i + s], level[i + s + 1]);
            let ghost before = out@;
            out.push(texel);
            proof {
                assert(y * half + x == before.len());
                assert forall|yy: int, xx: int| #![trigger out@[yy * half + xx]]
                    (0 <= yy < y && 0 <= xx < half) || (yy == y && 0 <= xx < x + 1) implies call_ensures(
                        f,
                        (
                            level@[2 * yy * side + 2 * xx],
                            level@[2 * yy * side + 2 * xx + 1],
                            level@[(2 * yy + 1) * side + 2 * xx],
                            level@[(2 * yy + 1) * side + 2 * xx + 1],
                        ),
                        out@[yy * half + xx],
                    ) by {
                    if yy == y && xx == x {
                    } else {
                        assert(yy * half + xx < y * half + x) by (nonlinear_arith)
                            requires
                                (0 <= yy < y && 0 <= xx < half) || (yy == y && 0 <= xx < x),
                        ;
                        assert(out@[yy * half + xx] == before[yy * half + xx]);
                    }
                }
            }
            x = x + 1;
        }
        assert((y + 1) * half == y * half + half) by (nonlinear_arith);
        y = y + 1;
    }
    out
}

/// Whether `v` is a texel of `base` or a value `f` may return: what a mip chain built from
/// `base` by `f` holds.
#[verifier::opaque]
pub open spec fn chain_value<T, F: Fn(T, T, T, T) -> T>(base: Seq<T>, f: F, v: T) -> bool {
    base.contains(v) || exists|a: T, b: T, c: T, d: T| call_ensures(f, (a, b, c, d), v)
}

/// Whether `f` may be called on any four [`chain_value`]s.
#[verifier::opaque]
pub open spec fn callable_on_chain<T, F: Fn(T, T, T, T) -> T>(base: Seq<T>, f: F) -> bool {
    forall|a: T, b: T, c: T, d: T|
        chain_value(base, f, a) && chain_value(base, f, b) && chain_value(base, f, c) && chain_value(base, f, d)
            ==> #[trigger] call_requires(f, (a, b, c, d))
}

/// Whether every texel of `lv` is a [`chain_value`].
#[verifier::opaque]
pub open spec fn chain_level<T, F: Fn(T, T, T, T) -> T>(base: Seq<T>, f: F, lv: Seq<T>) -> bool {
    forall|i: int| 0 <= i < lv.len() ==> chain_value(base, f, #[trigger] lv[i])
}

/// The mip chain of the `size × size` level `base`, every level halved from the one above by
/// `f`, down to 1 × 1. `f` is called only on values of the chain.
#[verifier::rlimit(60)]
pub fn mip_chain<T: Copy, F: Fn(T, T, T, T) -> T + Copy>(base: Vec<T>, size: u32, f: F) -> (levels: Vec<Vec<T>>)
    requires
        size >= 1,
        base@.len() == size * size,
        size * size <= u32::MAX,
        callable_on_chain(base@, f),
    ensures
        levels@.len() == level_sides(size as nat).len(),
        levels@[0]@ == base@,
        forall|k: int| 0 <= k < levels@.len() ==> (#[trigger] levels@[k])@.len() == level_sides(size as nat)[k]
            * level_sides(size as nat)[k],
        forall|k: int| 0 <= k < levels@.len() - 1 ==> halved_by(
            (#[trigger] levels@[k])@,
            level_sides(size as nat)[k],
            f,
            levels@[k + 1]@,
        ),
{
    proof {
        lemma_level_sides(size as nat);
    }
    let ghost sides = level_sides(size as nat);
    let ghost b = base@;
    let mut levels: Vec<Vec<T>> = Vec::new();
    levels.push(base);
    proof {
        assert(levels@[0]@ == b);
        lemma_base_chain(b, f);
    }
    let mut side = size;
    let mut k: usize = 0;
    while side > 1
        invariant
            sides == level_sides(size as nat),
            size >= 1,
            sides.len() >= 1,
            sides[sides.len() - 1] == 1,
            forall|j: int| 0 <= j < sides.len() ==> 1 <= #[trigger] sides[j] <= size,
            forall|j: int| 0 <= j < sides.len() - 1 ==> #[trigger] sides[j + 1] == sides[j] / 2 && sides[j] > 1,
            callable_on_chain(b, f),
            forall|j: int| 0 <= j <= k ==> #[trigger] chain_level(b, f, levels@[j]@),
            b == base@,
            size * size <= u32::MAX,
            k < sides.len(),
            levels@.len() == k + 1,
            side == sides[k as int],
            levels@[0]@ == base@,
            forall|j: int| 0 <= j <= k ==> (#[trigger] levels@[j])@.len() == sides[j] * sides[j],
            forall|j: int| 0 <= j < k ==> halved_by(#[trigger] levels@[j]@, sides[j], f, levels@[j + 1]@),
        decreases side,
    {
        proof {
            if k == sides.len() - 1 {
                assert(sides[k as int] == 1);
            }
            assert(sides[k as int + 1] == sides[k as int] / 2);
            assert(side * side <= size * size) by (nonlinear_arith)
                requires
                    side <= size,
            ;
            let lv = levels@[k as int]@;
            assert(chain_level(b, f, lv));
            lemma_blocks_callable(b, f, lv, side as nat);
        }
        let next = downsample(&levels[k], side, f);
        let ghost before = levels@;
        levels.push(next);
        side = side / 2;
        k = k + 1;
        proof {
            assert(sides[(k - 1) + 1] == sides[k - 1] / 2);
            lemma_chain_grows(before, levels@, sides, f, k as int);
            lemma_next_chain(b, f, before[k - 1]@, sides[k - 1], levels@[k as int]@);
            assert forall|j: int| 0 <= j <= k implies #[trigger] chain_level(b, f, levels@[j]@) by {
                if j < k {
                    assert(levels@[j] == before[j]);
                }
            }
        }
    }
    proof {
        if k < sides.len() - 1 {
            assert(sides[k as int + 1] == sides[k as int] / 2 && sides[k as int] > 1);
        }
    }
    levels
}

/// Every block of a level of chain values may be halved.
proof fn lemma_blocks_callable<T, F: Fn(T, T, T, T) -> T>(b: Seq<T>, f: F, lv: Seq<T>, side: nat)
    requires
        lv.len() == side * side,
        chain_level(b, f, lv),
        callable_on_chain(b, f),
    ensures
        forall|y: int, x: int| 0 <= y < side / 2 && 0 <= x < side / 2 ==> #[trigger] block_callable(lv, side, f, y, x),
{
    reveal(callable_on_chain);
    reveal(chain_level);
    assert forall|y: int, x: int| 0 <= y < side / 2 && 0 <= x < side / 2 implies #[trigger] block_callable(lv, side, f, y, x) by {
        lemma_block_in(side, y, x);
        assert(chain_value(b, f, lv[2 * y * side + 2 * x]));
        assert(chain_value(b, f, lv[2 * y * side + 2 * x + 1]));
        assert(chain_value(b, f, lv[(2 * y + 1) * side + 2 * x]));
        assert(chain_value(b, f, lv[(2 * y + 1) * side + 2 * x + 1]));
    }
}

/// The base level holds chain values.
proof fn lemma_base_chain<T, F: Fn(T, T, T, T) -> T>(b: Seq<T>, f: F)
    ensures
        chain_level(b, f, b),
{
    reveal(chain_value);
    reveal(chain_level);
    assert forall|i: int| 0 <= i < b.len() implies chain_value(b, f, #[trigger] b[i]) by {
        assert(b.contains(b[i]));
    }
}

/// A level halved by `f` holds values `f` may return, so chain values.
proof fn lemma_next_chain<T, F: Fn(T, T, T, T) -> T>(b: Seq<T>, f: F, lv: Seq<T>, sd: nat, next: Seq<T>)
    requires
        halved_by(lv, sd, f, next),
    ensures
        chain_level(b, f, next),
{
    reveal(chain_value);
    reveal(chain_level);
    let half = sd / 2;
    assert forall|i: int| 0 <= i < next.len() implies chain_value(b, f, #[trigger] next[i]) by {
        let y = i / half as int;
        let x = i % half as int;
        assert(i == y * half + x && 0 <= y < half && 0 <= x < half) by (nonlinear_arith)
            requires
                0 <= i < half * half,
                y == i / half as int,
                x == i % half as int,
        ;
        assert(call_ensures(
            f,
            (
                lv[2 * y * sd + 2 * x],
                lv[2 * y * sd + 2 * x + 1],
                lv[(2 * y + 1) * sd + 2 * x],
                lv[(2 * y + 1) * sd + 2 * x + 1],
            ),
            next[y * half + x],
        ));
    }
}

/// Pushing the halved last level keeps a mip chain's invariant.
proof fn lemma_chain_grows<T, F: Fn(T, T, T, T) -> T>(before: Seq<Vec<T>>, after: Seq<Vec<T>>, sides: Seq<nat>, f: F, k: int)
    requires
        k >= 1,
        k < sides.len(),
        before.len() == k,
        after == before.push(after[k]),
        forall|j: int| 0 <= j < k ==> (#[trigger] before[j])@.len() == sides[j] * sides[j],
        forall|j: int| 0 <= j < k - 1 ==> halved_by(#[trigger] before[j]@, sides[j], f, before[j + 1]@),
        halved_by(before[k - 1]@, sides[k - 1], f, after[k]@),
        sides[k] == sides[k - 1] / 2,
    ensures
        forall|j: int| 0 <= j <= k ==> (#[trigger] after[j])@.len() == sides[j] * sides[j],
        forall|j: int| 0 <= j < k ==> halved_by(#[trigger] after[j]@, sides[j], f, after[j + 1]@),
{
    assert forall|j: int| 0 <= j <= k implies (#[trigger] after[j])@.len() == sides[j] * sides[j] by {
        if j < k {
            assert(after[j] == before[j]);
        }
    }
    assert forall|j: int| 0 <= j < k implies halved_by(#[trigger] after[j]@, sides[j], f, after[j + 1]@) by {
        assert(after[j] == before[j]);
        if j + 1 < k {
            assert(after[j + 1] == before[j + 1]);
        }
    }
}

/// The byte of the mip check's level `k`: `k / 16` as an 8-bit unorm, rounded to nearest.
pub open spec fn ramp_byte(k: nat) -> u8 {
    if k >= 16 {
        255
    } else {
        ((255 * k + 8) / 16) as u8
    }
}

/// A test texture for the mip check: level `k` is filled with `k / 16` (alpha one), so a
/// trilinear sample returns the level of detail the sampler chose, over 16.
pub fn mip_ramp(size: u32) -> (texture: TextureData)
    requires
        size >= 1,
        size * size <= u32::MAX,
    ensures
        texture.name@ == "mip ramp"@,
        texture.size == size,
        !texture.srgb,
        texture.levels@.len() == level_sides(size as nat).len(),
        forall|k: int| 0 <= k < texture.levels@.len() ==> (#[trigger] texture.levels@[k])@.len() == 4 * level_sides(
            size as nat,
        )[k] * level_sides(size as nat)[k],
        forall|k: int, i: int| 0 <= k < texture.levels@.len() && 0 <= i < texture.levels@[k]@.len()
            ==> #[trigger] texture.levels@[k]@[i] == if i % 4 == 3 { 255 } else { ramp_byte(k as nat) },
{
    proof {
        lemma_level_sides(size as nat);
    }
    let ghost sides = level_sides(size as nat);
    let mut levels: Vec<Vec<u8>> = Vec::new();
    let mut side = size;
    let mut level: u32 = 0;
    loop
        invariant_except_break
            sides == level_sides(size as nat),
            sides.len() >= 1,
            sides[sides.len() - 1] == 1,
            forall|j: int| 0 <= j < sides.len() ==> 1 <= #[trigger] sides[j] <= size,
            forall|j: int| 0 <= j < sides.len() - 1 ==> #[trigger] sides[j + 1] == sides[j] / 2 && sides[j] > 1,
            size * size <= u32::MAX,
            level < sides.len(),
            level <= 32,
            levels@.len() == level,
            side == sides[level as int],
            forall|k: int| 0 <= k < level ==> (#[trigger] levels@[k])@.len() == 4 * sides[k] * sides[k],
            forall|k: int, i: int| 0 <= k < level && 0 <= i < levels@[k]@.len()
                ==> #[trigger] levels@[k]@[i] == if i % 4 == 3 { 255 } else { ramp_byte(k as nat) },
        ensures
            levels@.len() == sides.len(),
            forall|k: int| 0 <= k < levels@.len() ==> (#[trigger] levels@[k])@.len() == 4 * sides[k] * sides[k],
            forall|k: int, i: int| 0 <= k < levels@.len() && 0 <= i < levels@[k]@.len()
                ==> #[trigger] levels@[k]@[i] == if i % 4 == 3 { 255 } else { ramp_byte(k as nat) },
        decreases side,
    {
        assert(level < sides.len());
        assert(level as int + 1 < sides.len() ==> sides[level as int + 1] == sides[level as int] / 2);
        let value: u8 = if level >= 16 {
            255
        } else {
            ((255 * level + 8) / 16) as u8
        };
        assert(side * side <= size * size) by (nonlinear_arith)
            requires
                side <= size,
        ;
        let texels: usize = (side * side) as usize;
        let mut bytes: Vec<u8> = Vec::new();
        let mut t: usize = 0;
        while t < texels
            invariant
                t <= texels,
                texels <= u32::MAX,
                bytes@.len() == 4 * t,
                forall|i: int| 0 <= i < bytes@.len() ==> #[trigger] bytes@[i] == if i % 4 == 3 { 255 } else { value },
            decreases texels - t,
        {
            bytes.push(value);
            bytes.push(value);
            bytes.push(value);
            bytes.push(255);
            t = t + 1;
        }
        let ghost before = levels@;
        levels.push(bytes);
        proof {
            assert(forall|k: int| 0 <= k < level ==> #[trigger] levels@[k] == before[k]);
            assert(levels@[level as int]@.len() == 4 * sides[level as int] * sides[level as int]) by (nonlinear_arith)
                requires
                    levels@[level as int]@.len() == 4 * texels,
                    texels == side * side,
                    side == sides[level as int],
            ;
        }
        if side == 1 {
            proof {
                let lv = level as int;
                if lv < sides.len() - 1 {
                    assert(sides[lv + 1] == sides[lv] / 2 && sides[lv] > 1);
                    assert(false);
                }
            }
            break;
        }
        proof {
            if level == sides.len() - 1 {
                assert(sides[level as int] == 1);
            }
            assert(sides[level as int + 1] == sides[level as int] / 2);
        }
        side = side / 2;
        level = level + 1;
        proof {
            if level >= 33 {
                // Each level halves the side, which fits in 32 bits.
                lemma_halvings(size as nat, sides, level as int);
            }
        }
    }
    TextureData { name: "mip ramp", size, srgb: false, levels }
}

proof fn lemma_halvings(size: nat, sides: Seq<nat>, k: int)
    requires
        size <= u32::MAX,
        0 <= k < sides.len(),
        sides.len() >= 1,
        sides[0] == size,
        forall|j: int| 0 <= j < sides.len() - 1 ==> #[trigger] sides[j + 1] == sides[j] / 2 && sides[j] > 1,
        forall|j: int| 0 <= j < sides.len() ==> 1 <= #[trigger] sides[j],
    ensures
        k <= 32,
{
    assert forall|j: int| 0 <= j <= k implies #[trigger] sides[j] * vstd::arithmetic::power2::pow2(j as nat) <= size by {
        lemma_halving_bound(size, sides, j);
    }
    vstd::arithmetic::power2::lemma2_to64();
    if k > 32 {
        vstd::arithmetic::power2::lemma_pow2_strictly_increases(32, k as nat);
        assert(sides[k] * vstd::arithmetic::power2::pow2(k as nat) >= vstd::arithmetic::power2::pow2(k as nat)) by (nonlinear_arith)
            requires
                sides[k] >= 1,
        ;
    }
}

proof fn lemma_halving_bound(size: nat, sides: Seq<nat>, j: int)
    requires
        0 <= j < sides.len(),
        sides[0] == size,
        forall|i: int| 0 <= i < sides.len() - 1 ==> #[trigger] sides[i + 1] == sides[i] / 2 && sides[i] > 1,
    ensures
        sides[j] * vstd::arithmetic::power2::pow2(j as nat) <= size,
    decreases j,
{
    if j > 0 {
        lemma_halving_bound(size, sides, j - 1);
        vstd::arithmetic::power2::lemma_pow2_unfold(j as nat);
        let p = vstd::arithmetic::power2::pow2((j - 1) as nat);
        assert(vstd::arithmetic::power2::pow2(j as nat) == 2 * p);
        assert(sides[(j - 1) + 1] == sides[j - 1] / 2);
        assert(sides[j] * (2 * p) <= sides[j - 1] * p) by (nonlinear_arith)
            requires
                sides[j] == sides[j - 1] / 2,
                p >= 0,
        ;
    } else {
        vstd::arithmetic::power2::lemma2_to64();
    }
}

} // verus!
