//! The city-blocks placement's integer side: how many instance slots each category takes,
//! how many instances show each mesh, the checksum of the placed table, and the Morton order
//! its records are written back in.

use vstd::prelude::*;

use std::collections::HashMap;

use crate::meshlet::MeshId;

verus! {

/// The city's street grid as the categories count it.
#[derive(Clone, Copy, Debug, PartialEq, Eq)]
pub struct CityGrid {
    /// Blocks per side of the city.
    pub blocks: u32,
    /// Lamp posts per street line and side.
    pub lamps_per_line: u32,
    /// Crossings `k` with `k % plaza_every == plaza_every / 2` along both axes hold a plaza
    /// (zero counts as one).
    pub plaza_every: u32,
    /// Instances to place in all; what the city does not take goes to the hills as rocks.
    pub total: u32,
}

/// Slots per category, in the order the shader lays them out.
#[derive(Clone, Copy, Debug, Default, PartialEq, Eq)]
pub struct CategoryCounts {
    /// Four per block.
    pub buildings: u32,
    /// Along both sides of every street.
    pub lamps: u32,
    /// Five per plaza: a fountain and four columns.
    pub plaza_slots: u32,
    /// The rest.
    pub rocks: u32,
}

/// The plaza rule's period, at least one.
pub open spec fn plaza_period(plaza_every: u32) -> nat {
    if plaza_every == 0 {
        1
    } else {
        plaza_every as nat
    }
}

/// How many crossings `0..=last` along an axis fit the plaza rule of period `e`.
pub open spec fn plaza_crossings(last: nat, e: nat) -> nat
    decreases last,
{
    let here: nat = if last % e == e / 2 {
        1
    } else {
        0
    };
    if last == 0 {
        here
    } else {
        plaza_crossings((last - 1) as nat, e) + here
    }
}

/// The count of plaza crossings in closed form, as the layout computes it.
pub open spec fn plazas_closed_form(blocks: nat, e: nat) -> nat {
    ((blocks + e - e / 2) as nat) / e
}

/// One more than `x` adds one to its quotient by `d` exactly when the division comes out even.
proof fn lemma_div_step(x: int, d: int)
    requires
        x >= 0,
        d >= 1,
    ensures
        (x + 1) / d == x / d + (if (x + 1) % d == 0 { 1int } else { 0int }),
{
    vstd::arithmetic::div_mod::lemma_fundamental_div_mod(x, d);
    vstd::arithmetic::div_mod::lemma_mod_pos_bound(x, d);
    let q = x / d;
    let r = x % d;
    assert(d * q == q * d) by (nonlinear_arith);
    if r + 1 < d {
        vstd::arithmetic::div_mod::lemma_fundamental_div_mod_converse(x + 1, d, q, r + 1);
    } else {
        assert((q + 1) * d == q * d + d) by (nonlinear_arith);
        vstd::arithmetic::div_mod::lemma_fundamental_div_mod_converse(x + 1, d, q + 1, 0);
    }
}

/// `b + e - e / 2` is a multiple of `e` exactly when `b % e == e / 2`.
proof fn lemma_plaza_hit(b: int, e: int)
    requires
        b >= 0,
        e >= 1,
    ensures
        ((b + e - e / 2) % e == 0) == (b % e == e / 2),
{
    vstd::arithmetic::div_mod::lemma_fundamental_div_mod(b, e);
    vstd::arithmetic::div_mod::lemma_mod_pos_bound(b, e);
    let q = b / e;
    let r = b % e;
    let h = e / 2;
    assert(e * q == q * e) by (nonlinear_arith);
    assert((q + 1) * e == q * e + e) by (nonlinear_arith);
    if r == h {
        vstd::arithmetic::div_mod::lemma_fundamental_div_mod_converse(b + e - h, e, q + 1, 0);
    } else if r < h {
        vstd::arithmetic::div_mod::lemma_fundamental_div_mod_converse(b + e - h, e, q, r + e - h);
    } else {
        vstd::arithmetic::div_mod::lemma_fundamental_div_mod_converse(b + e - h, e, q + 1, r - h);
    }
}

/// The closed form counts the crossings `0..=blocks` that fit the plaza rule.
pub proof fn plazas_are_the_crossings(blocks: nat, e: nat)
    requires
        e >= 1,
    ensures
        plazas_closed_form(blocks, e) == plaza_crossings(blocks, e),
    decreases blocks,
{
    let c: int = e - e / 2;
    if blocks == 0 {
        vstd::arithmetic::div_mod::lemma_small_mod(0, e);
        lemma_plaza_hit(0, e as int);
        vstd::arithmetic::div_mod::lemma_fundamental_div_mod(c, e as int);
        if e / 2 == 0 {
            vstd::arithmetic::div_mod::lemma_fundamental_div_mod_converse(c, e as int, 1, 0);
        } else {
            vstd::arithmetic::div_mod::lemma_fundamental_div_mod_converse(c, e as int, 0, c);
        }
    } else {
        plazas_are_the_crossings((blocks - 1) as nat, e);
        lemma_div_step(blocks - 1 + c, e as int);
        lemma_plaza_hit(blocks as int, e as int);
    }
}

/// The categories' slot counts of a grid.
pub open spec fn spec_counts(grid: CityGrid) -> (nat, nat, nat) {
    let b = grid.blocks as nat;
    (4 * b * b, 2 * (b + 1) * 2 * (grid.lamps_per_line as nat), 5 * plazas_closed_form(b, plaza_period(grid.plaza_every)) * plazas_closed_form(
        b,
        plaza_period(grid.plaza_every),
    ))
}

impl CityGrid {
    /// Plazas per side: the crossings `0..=blocks` whose index fits the plaza rule.
    pub fn plazas_per_side(&self) -> (plazas: u32)
        requires
            self.blocks + plaza_period(self.plaza_every) - plaza_period(self.plaza_every) / 2 <= u32::MAX,
        ensures
            plazas == plazas_closed_form(self.blocks as nat, plaza_period(self.plaza_every)),
            plazas == plaza_crossings(self.blocks as nat, plaza_period(self.plaza_every)),
    {
        let e: u64 = if self.plaza_every == 0 {
            1
        } else {
            self.plaza_every as u64
        };
        proof {
            plazas_are_the_crossings(self.blocks as nat, e as nat);
        }
        let plazas = (self.blocks as u64 + e - e / 2) / e;
        assert(plazas <= self.blocks as u64 + e - e / 2) by (nonlinear_arith)
            requires
                plazas as int == (self.blocks + e - e / 2) / (e as int),
                e >= 1,
        ;
        plazas as u32
    }

    /// Slots per category: four buildings per block, lamp posts along both sides of every
    /// street line (one more line than blocks per axis, both axes), five slots per plaza,
    /// and the rest of `total` rocks.
    pub fn counts(&self) -> (counts: CategoryCounts)
        requires
            self.blocks + plaza_period(self.plaza_every) - plaza_period(self.plaza_every) / 2 <= u32::MAX,
            spec_counts(*self).0 + spec_counts(*self).1 + spec_counts(*self).2 <= u32::MAX,
        ensures
            counts.buildings == spec_counts(*self).0,
            counts.lamps == spec_counts(*self).1,
            counts.plaza_slots == spec_counts(*self).2,
            counts.rocks == (if self.total >= counts.buildings + counts.lamps + counts.plaza_slots {
                self.total - counts.buildings - counts.lamps - counts.plaza_slots
            } else {
                0
            }),
    {
        let b = self.blocks as u64;
        let p = self.plazas_per_side() as u64;
        let ghost sums = spec_counts(*self);
        assert(4 * b * b == sums.0 && 2 * (b + 1) * 2 * (self.lamps_per_line as u64) == sums.1 && 5 * p * p == sums.2);
        assert(b * b <= u32::MAX) by (nonlinear_arith)
            requires
                4 * b * b <= u32::MAX,
        ;
        assert((b + 1) * (self.lamps_per_line as u64) <= u32::MAX) by (nonlinear_arith)
            requires
                2 * (b + 1) * 2 * (self.lamps_per_line as u64) <= u32::MAX,
        ;
        assert(p * p <= u32::MAX) by (nonlinear_arith)
            requires
                5 * p * p <= u32::MAX,
        ;
        let buildings = (4 * b * b) as u32;
        let lamps = (2 * (b + 1) * 2 * (self.lamps_per_line as u64)) as u32;
        let plaza_slots = (5 * p * p) as u32;
        let taken = buildings + lamps + plaza_slots;
        let rocks = if self.total >= taken {
            self.total - taken
        } else {
            0
        };
        CategoryCounts { buildings, lamps, plaza_slots, rocks }
    }
}

/// Which meshes the categories use.
#[derive(Clone, Debug)]
pub struct CityMeshes {
    /// Buildings, chosen per lot (at most 16).
    pub buildings: Vec<MeshId>,
    /// Rocks and rubble, chosen per slot (at most 8).
    pub rocks: Vec<MeshId>,
    /// The lamp post.
    pub lamp: MeshId,
    /// The fountain.
    pub fountain: MeshId,
    /// The column.
    pub column: MeshId,
}

/// How many of `choices[..upto]` are `m`.
pub open spec fn chosen(choices: Seq<u32>, m: int, upto: int) -> nat
    decreases upto,
{
    if upto <= 0 {
        0
    } else {
        chosen(choices, m, upto - 1) + if choices[upto - 1] == m {
            1nat
        } else {
            0nat
        }
    }
}

proof fn lemma_chosen_bound(choices: Seq<u32>, m: int, upto: int)
    requires
        0 <= upto,
    ensures
        chosen(choices, m, upto) <= upto,
    decreases upto,
{
    if upto > 0 {
        lemma_chosen_bound(choices, m, upto - 1);
    }
}

/// How many of `choices` pick each of `count` meshes (every choice below `count`).
pub fn tally(choices: &Vec<u32>, count: usize) -> (counts: Vec<u32>)
    requires
        choices@.len() <= u32::MAX,
        forall|i: int| 0 <= i < choices@.len() ==> #[trigger] choices@[i] < count,
    ensures
        counts@.len() == count,
        forall|m: int| 0 <= m < count ==> #[trigger] counts@[m] == chosen(choices@, m, choices@.len() as int),
{
    let mut counts: Vec<u32> = Vec::new();
    let mut m: usize = 0;
    while m < count
        invariant
            m <= count,
            counts@.len() == m,
            forall|j: int| 0 <= j < m ==> #[trigger] counts@[j] == 0,
        decreases count - m,
    {
        counts.push(0);
        m = m + 1;
    }
    let mut i: usize = 0;
    while i < choices.len()
        invariant
            i <= choices@.len() <= u32::MAX,
            counts@.len() == count,
            forall|k: int| 0 <= k < choices@.len() ==> #[trigger] choices@[k] < count,
            forall|j: int| 0 <= j < count ==> #[trigger] counts@[j] == chosen(choices@, j, i as int),
        decreases choices@.len() - i,
    {
        let c = choices[i] as usize;
        proof {
            lemma_chosen_bound(choices@, c as int, i as int);
        }
        let current = counts[c];
        counts.set(c, current + 1);
        i = i + 1;
        proof {
            assert forall|j: int| 0 <= j < count implies #[trigger] counts@[j] == chosen(choices@, j, i as int) by {
                assert(chosen(choices@, j, i as int) == chosen(choices@, j, i - 1) + if choices@[i - 1] == j {
                    1nat
                } else {
                    0nat
                });
            }
        }
    }
    counts
}

/// What [`mesh_counts`] lists: each building mesh with its tally, each rock mesh with its
/// tally, the lamp post with the lamps, the fountain with the plazas and the column with four
/// per plaza.
pub open spec fn spec_mesh_counts(
    counts: CategoryCounts,
    meshes: CityMeshes,
    building_choices: Seq<u32>,
    rock_choices: Seq<u32>,
) -> Seq<(MeshId, u32)> {
    let plazas = counts.plaza_slots / 5;
    Seq::new(meshes.buildings@.len(), |m: int| (meshes.buildings@[m], chosen(building_choices, m, building_choices.len() as int) as u32))
        + Seq::new(meshes.rocks@.len(), |m: int| (meshes.rocks@[m], chosen(rock_choices, m, rock_choices.len() as int) as u32))
        + seq![(meshes.lamp, counts.lamps), (meshes.fountain, plazas as u32), (meshes.column, (4 * plazas) as u32)]
}

/// How many placed instances show each mesh (the CPU mirror of the shader's choices), given
/// the choice of building for each building slot and of rock for each rock slot.
pub fn mesh_counts(counts: &CategoryCounts, meshes: &CityMeshes, building_choices: &Vec<u32>, rock_choices: &Vec<u32>) -> (out: Vec<(MeshId, u32)>)
    requires
        building_choices@.len() <= u32::MAX,
        rock_choices@.len() <= u32::MAX,
        forall|i: int| 0 <= i < building_choices@.len() ==> #[trigger] building_choices@[i] < meshes.buildings@.len(),
        forall|i: int| 0 <= i < rock_choices@.len() ==> #[trigger] rock_choices@[i] < meshes.rocks@.len(),
    ensures
        out@ == spec_mesh_counts(*counts, *meshes, building_choices@, rock_choices@),
{
    let buildings = tally(building_choices, meshes.buildings.len());
    let rocks = tally(rock_choices, meshes.rocks.len());
    let mut out: Vec<(MeshId, u32)> = Vec::new();
    let mut m: usize = 0;
    while m < meshes.buildings.len()
        invariant
            m <= meshes.buildings@.len(),
            buildings@.len() == meshes.buildings@.len(),
            out@ == Seq::new(m as nat, |j: int| (meshes.buildings@[j], buildings@[j])),
        decreases meshes.buildings@.len() - m,
    {
        out.push((meshes.buildings[m], buildings[m]));
        m = m + 1;
        assert(out@ =~= Seq::new(m as nat, |j: int| (meshes.buildings@[j], buildings@[j])));
    }
    let ghost first = out@;
    let mut r: usize = 0;
    while r < meshes.rocks.len()
        invariant
            r <= meshes.rocks@.len(),
            rocks@.len() == meshes.rocks@.len(),
            out@ == first + Seq::new(r as nat, |j: int| (meshes.rocks@[j], rocks@[j])),
        decreases meshes.rocks@.len() - r,
    {
        out.push((meshes.rocks[r], rocks[r]));
        r = r + 1;
        assert(out@ =~= first + Seq::new(r as nat, |j: int| (meshes.rocks@[j], rocks@[j])));
    }
    let plazas = counts.plaza_slots / 5;
    out.push((meshes.lamp, counts.lamps));
    out.push((meshes.fountain, plazas));
    out.push((meshes.column, 4 * plazas));
    assert(out@ =~= spec_mesh_counts(*counts, *meshes, building_choices@, rock_choices@));
    out
}

/// FNV-1a over the first `n` of `bytes`.
pub open spec fn spec_fnv1a64(bytes: Seq<u8>, n: int) -> u64
    decreases n,
{
    if n <= 0 {
        0xcbf2_9ce4_8422_2325
    } else {
        vstd::wrapping::u64_specs::wrapping_mul(
            spec_fnv1a64(bytes, n - 1) ^ (bytes[n - 1] as u64),
            0x0000_0100_0000_01b3u64,
        )
    }
}

/// FNV-1a over `bytes`.
pub fn fnv1a64(bytes: &[u8]) -> (hash: u64)
    ensures
        hash == spec_fnv1a64(bytes@, bytes@.len() as int),
{
    let mut h: u64 = 0xcbf2_9ce4_8422_2325;
    let mut i: usize = 0;
    while i < bytes.len()
        invariant
            i <= bytes@.len(),
            h == spec_fnv1a64(bytes@, i as int),
        decreases bytes@.len() - i,
    {
        h = (h ^ (bytes[i] as u64)).wrapping_mul(0x0000_0100_0000_01b3);
        i = i + 1;
    }
    h
}

/// Spreads the low 16 bits of `v` to the even bits of the result: bit `i` of `v` becomes
/// bit `2 i`, every odd bit is zero.
pub fn spread_bits(v: u32) -> (spread: u32)
    ensures
        spread & 0xAAAA_AAAAu32 == 0,
        forall|i: u32| i < 16 ==> #[trigger] ((spread >> (2 * i)) & 1u32) == ((v >> i) & 1u32),
{
    let x0 = v & 0xFFFF;
    let x1 = (x0 | (x0 << 8u32)) & 0x00FF_00FF;
    let x2 = (x1 | (x1 << 4u32)) & 0x0F0F_0F0F;
    let x3 = (x2 | (x2 << 2u32)) & 0x3333_3333;
    let spread = (x3 | (x3 << 1u32)) & 0x5555_5555;
    proof {
        lemma_spread_bits(v, x0, x1, x2, x3, spread);
    }
    spread
}

proof fn lemma_spread_bits(v: u32, x0: u32, x1: u32, x2: u32, x3: u32, s: u32)
    by (bit_vector)
    requires
        x0 == v & 0xFFFFu32,
        x1 == (x0 | (x0 << 8u32)) & 0x00FF_00FFu32,
        x2 == (x1 | (x1 << 4u32)) & 0x0F0F_0F0Fu32,
        x3 == (x2 | (x2 << 2u32)) & 0x3333_3333u32,
        s == (x3 | (x3 << 1u32)) & 0x5555_5555u32,
    ensures
        s & 0xAAAA_AAAAu32 == 0,
        forall|i: u32| i < 16 ==> #[trigger] ((s >> (2 * i)) & 1u32) == ((v >> i) & 1u32),
{
}

/// The Morton code of a cell: the x cell's bits on the even bits, the z cell's on the odd.
#[verifier::spinoff_prover]
pub fn morton_code(cell_x: u32, cell_z: u32) -> (morton: u32)
    requires
        cell_x < 65536,
        cell_z < 65536,
    ensures
        forall|i: u32| i < 16 ==> #[trigger] ((morton >> (2 * i)) & 1u32) == ((cell_x >> i) & 1u32),
        forall|i: u32| i < 16 ==> #[trigger] ((morton >> (2 * i + 1)) & 1u32) == ((cell_z >> i) & 1u32),
{
    let sx = spread_bits(cell_x);
    let sz = spread_bits(cell_z);
    let code = sx | (sz << 1u32);
    proof {
        assert forall|i: u32| i < 16 implies #[trigger] ((code >> (2 * i)) & 1u32) == ((cell_x >> i) & 1u32) by {
            lemma_interleave_bit(sx, sz, code, i);
            assert(((sx >> (2 * i)) & 1u32) == ((cell_x >> i) & 1u32));
        }
        assert forall|i: u32| i < 16 implies #[trigger] ((code >> (2 * i + 1)) & 1u32) == ((cell_z >> i) & 1u32) by {
            lemma_interleave_bit(sx, sz, code, i);
            assert(((sz >> (2 * i)) & 1u32) == ((cell_z >> i) & 1u32));
        }
    }
    code
}

proof fn lemma_interleave_bit(sx: u32, sz: u32, code: u32, i: u32)
    by (bit_vector)
    requires
        sx & 0xAAAA_AAAAu32 == 0,
        sz & 0xAAAA_AAAAu32 == 0,
        code == sx | (sz << 1u32),
        i < 16,
    ensures
        ((code >> (2 * i)) & 1u32) == ((sx >> (2 * i)) & 1u32),
        ((code >> (2 * i + 1)) & 1u32) == ((sz >> (2 * i)) & 1u32),
{
}

/// Whether pair `a` comes before or with `b` in lexicographic order.
pub open spec fn pair_le(a: (u32, u32), b: (u32, u32)) -> bool {
    a.0 < b.0 || (a.0 == b.0 && a.1 <= b.1)
}

/// `keys` sorted in lexicographic order (`slice::sort_unstable` on pairs of integers, which
/// std orders lexicographically): the same pairs, each as often, in ascending order.
#[verifier::external_body]
fn sort_pairs(keys: &mut Vec<(u32, u32)>)
    ensures
        final(keys)@.to_multiset() == old(keys)@.to_multiset(),
        final(keys)@.len() == old(keys)@.len(),
        forall|i: int, j: int| 0 <= i < j < final(keys)@.len() ==> pair_le(#[trigger] final(keys)@[i], #[trigger] final(keys)@[j]),
{
    keys.sort_unstable();
}

/// The order the records go in: record indices sorted by their `codes` (Morton codes of
/// their centres), ties kept in table order. Every index appears once.
pub fn morton_order(codes: &Vec<u32>) -> (order: Vec<u32>)
    requires
        codes@.len() <= u32::MAX,
    ensures
        order@.len() == codes@.len(),
        forall|k: int| 0 <= k < order@.len() ==> #[trigger] order@[k] < codes@.len(),
        order@.no_duplicates(),
        forall|k: int, l: int| 0 <= k < l < order@.len() ==> codes@[#[trigger] order@[k] as int] < codes@[#[trigger] order@[l] as int]
            || (codes@[order@[k] as int] == codes@[order@[l] as int] && order@[k] < order@[l]),
{
    let mut keys: Vec<(u32, u32)> = Vec::new();
    let mut i: usize = 0;
    while i < codes.len()
        invariant
            i <= codes@.len() <= u32::MAX,
            keys@.len() == i,
            forall|k: int| 0 <= k < i ==> #[trigger] keys@[k] == (codes@[k], k as u32),
        decreases codes@.len() - i,
    {
        keys.push((codes[i], i as u32));
        i = i + 1;
    }
    let ghost unsorted = keys@;
    assert(forall|k: int| 0 <= k < unsorted.len() ==> #[trigger] unsorted[k] == (codes@[k], k as u32));
    sort_pairs(&mut keys);
    let ghost sorted = keys@;
    proof {
        lemma_sorted_keys(codes@, unsorted, sorted);
    }
    let mut order: Vec<u32> = Vec::new();
    let mut j: usize = 0;
    while j < keys.len()
        invariant
            j <= keys@.len(),
            keys@ == sorted,
            order@.len() == j,
            forall|k: int| 0 <= k < j ==> #[trigger] order@[k] == sorted[k].1,
        decreases keys@.len() - j,
    {
        order.push(keys[j].1);
        j = j + 1;
    }
    proof {
        assert(order@.no_duplicates()) by {
            assert forall|x: int, y: int| 0 <= x < y < order@.len() implies order@[x] != order@[y] by {
                if order@[x] == order@[y] {
                    assert(sorted[x].0 == codes@[sorted[x].1 as int]);
                    assert(sorted[y].0 == codes@[sorted[y].1 as int]);
                    assert(sorted[x] == sorted[y]);
                }
            }
        }
        assert forall|k: int, l: int| 0 <= k < l < order@.len() implies codes@[#[trigger] order@[k] as int] < codes@[#[trigger] order@[l] as int]
            || (codes@[order@[k] as int] == codes@[order@[l] as int] && order@[k] < order@[l]) by {
            assert(pair_le(sorted[k], sorted[l]));
            assert(sorted[k].0 == codes@[sorted[k].1 as int]);
            assert(sorted[l].0 == codes@[sorted[l].1 as int]);
            if sorted[k].0 == sorted[l].0 && sorted[k].1 == sorted[l].1 {
                assert(sorted[k] == sorted[l]);
            }
        }
    }
    order
}

/// The sorted keys are the pairs (code, index), each index once.
proof fn lemma_sorted_keys(codes: Seq<u32>, unsorted: Seq<(u32, u32)>, sorted: Seq<(u32, u32)>)
    requires
        unsorted.len() == codes.len(),
        codes.len() <= u32::MAX,
        forall|k: int| 0 <= k < unsorted.len() ==> #[trigger] unsorted[k] == (codes[k], k as u32),
        sorted.to_multiset() == unsorted.to_multiset(),
    ensures
        forall|k: int| 0 <= k < sorted.len() ==> #[trigger] sorted[k].1 < codes.len() && sorted[k].0 == codes[sorted[k].1 as int],
        sorted.no_duplicates(),
{
    assert forall|k: int| 0 <= k < sorted.len() implies #[trigger] sorted[k].1 < codes.len() && sorted[k].0 == codes[sorted[k].1 as int] by {
        let x = sorted[k];
        assert(sorted.contains(x));
        vstd::seq_lib::to_multiset_contains(sorted, x);
        vstd::seq_lib::to_multiset_contains(unsorted, x);
        assert(unsorted.contains(x));
        let i = choose|i: int| 0 <= i < unsorted.len() && unsorted[i] == x;
        assert(unsorted[i] == (codes[i], i as u32));
    }
    assert(unsorted.no_duplicates()) by {
        assert forall|x: int, y: int| 0 <= x < y < unsorted.len() implies unsorted[x] != unsorted[y] by {
            assert(unsorted[x].1 == x as u32 && unsorted[y].1 == y as u32);
        }
    }
    unsorted.lemma_multiset_has_no_duplicates();
    sorted.lemma_multiset_has_no_duplicates_conv();
}

/// Bytes of one record of the placed instance table.
pub const INSTANCE_BYTES: usize = 96;

/// The mesh of record `r` of an instance table: the little-endian `u32` that follows the
/// model (64 bytes), the centre (12) and the radius (4).
pub open spec fn record_mesh(bytes: Seq<u8>, r: int) -> u32 {
    let o = r * 96 + 80;
    (bytes[o] + 256 * bytes[o + 1] + 65536 * bytes[o + 2] + 16777216 * bytes[o + 3]) as u32
}

/// The meshes of the whole records of an instance table, in order.
pub open spec fn table_meshes(bytes: Seq<u8>) -> Seq<u32> {
    Seq::new(bytes.len() / 96, |r: int| record_mesh(bytes, r))
}

/// How many times `m` occurs in `s`.
pub open spec fn count_of(s: Seq<u32>, m: u32) -> nat
    decreases s.len(),
{
    if s.len() == 0 {
        0
    } else {
        count_of(s.drop_last(), m) + if s.last() == m {
            1nat
        } else {
            0nat
        }
    }
}

/// The instances that `pairs` (as [`mesh_counts`] lists them) give mesh `m`, over all its
/// entries.
pub open spec fn expected_of(pairs: Seq<(MeshId, u32)>, m: u32) -> nat
    decreases pairs.len(),
{
    if pairs.len() == 0 {
        0
    } else {
        expected_of(pairs.drop_last(), m) + if pairs.last().0@ == m {
            pairs.last().1 as nat
        } else {
            0nat
        }
    }
}

proof fn lemma_count_absent(s: Seq<u32>, m: u32)
    requires
        !s.contains(m),
    ensures
        count_of(s, m) == 0,
    decreases s.len(),
{
    if s.len() > 0 {
        assert(!s.drop_last().contains(m)) by {
            if s.drop_last().contains(m) {
                let k = choose|k: int| 0 <= k < s.drop_last().len() && s.drop_last()[k] == m;
                assert(s[k] == m);
            }
        }
        lemma_count_absent(s.drop_last(), m);
        assert(s[s.len() - 1] == s.last());
    }
}

proof fn lemma_expected_absent(pairs: Seq<(MeshId, u32)>, m: u32)
    requires
        forall|j: int| 0 <= j < pairs.len() ==> (#[trigger] pairs[j]).0@ != m,
    ensures
        expected_of(pairs, m) == 0,
    decreases pairs.len(),
{
    if pairs.len() > 0 {
        let d = pairs.drop_last();
        assert forall|j: int| 0 <= j < d.len() implies (#[trigger] d[j]).0@ != m by {
            assert(d[j] == pairs[j]);
        }
        lemma_expected_absent(d, m);
        assert(pairs[pairs.len() - 1] == pairs.last());
    }
}

/// The count a tally gives `m`: its entry, zero where it has none.
pub open spec fn tally_at(t: Map<u32, u64>, m: u32) -> int {
    if t.contains_key(m) {
        t[m] as int
    } else {
        0
    }
}

/// The entry of `m` in `t`, zero where it has none.
fn tally_of(t: &HashMap<u32, u64>, m: u32) -> (c: u64)
    ensures
        c == tally_at(t@, m),
{
    match t.get(&m) {
        Some(c) => *c,
        None => 0,
    }
}

proof fn lemma_count_push(s: Seq<u32>, x: u32, m: u32)
    ensures
        count_of(s.push(x), m) == count_of(s, m) + if x == m {
            1nat
        } else {
            0nat
        },
{
    assert(s.push(x).drop_last() =~= s);
}

proof fn lemma_count_bound(s: Seq<u32>, m: u32)
    ensures
        count_of(s, m) <= s.len(),
    decreases s.len(),
{
    if s.len() > 0 {
        lemma_count_bound(s.drop_last(), m);
    }
}

proof fn lemma_expected_bound(pairs: Seq<(MeshId, u32)>, m: u32)
    ensures
        expected_of(pairs, m) <= pairs.len() * 0xffff_ffff,
    decreases pairs.len(),
{
    if pairs.len() > 0 {
        lemma_expected_bound(pairs.drop_last(), m);
    }
}

/// Whether the meshes read back from a placed instance table (`bytes`, whole records of
/// [`INSTANCE_BYTES`]) show each mesh as many times as `pairs` (from [`mesh_counts`]) says,
/// entries of one mesh added up and meshes of no instance left out. Each side is tallied once,
/// per mesh.
pub fn matches_mirror(bytes: &[u8], pairs: &Vec<(MeshId, u32)>) -> (ok: bool)
    requires
        pairs@.len() <= u32::MAX,
    ensures
        ok == forall|m: u32| #[trigger] count_of(table_meshes(bytes@), m) == expected_of(pairs@, m),
{
    let len = bytes.len();
    let n = len / INSTANCE_BYTES;
    let ghost t = table_meshes(bytes@);
    let mut meshes: Vec<u32> = Vec::new();
    let mut seen: HashMap<u32, u64> = HashMap::new();
    let mut r: usize = 0;
    while r < n
        invariant
            r <= n,
            len == bytes@.len(),
            n == bytes@.len() / 96,
            t == table_meshes(bytes@),
            meshes@ == t.take(r as int),
            forall|m: u32| #[trigger] tally_at(seen@, m) == count_of(t.take(r as int), m),
        decreases n - r,
    {
        assert(r * 96 + 84 <= bytes@.len()) by (nonlinear_arith)
            requires
                r < n,
                n == bytes@.len() / 96,
        ;
        let o = r * INSTANCE_BYTES + 80;
        let mesh: u32 = bytes[o] as u32 + (bytes[o + 1] as u32) * 256 + (bytes[o + 2] as u32) * 65536
            + (bytes[o + 3] as u32) * 16777216;
        let c = tally_of(&seen, mesh);
        proof {
            lemma_count_bound(t.take(r as int), mesh);
        }
        let ghost seen_before = seen@;
        seen.insert(mesh, c + 1);
        meshes.push(mesh);
        proof {
            assert(t.take(r + 1) =~= t.take(r as int).push(mesh));
            assert forall|m: u32| #[trigger] tally_at(seen@, m) == count_of(t.take(r + 1), m) by {
                lemma_count_push(t.take(r as int), mesh, m);
                assert(tally_at(seen_before, m) == count_of(t.take(r as int), m));
            }
        }
        r = r + 1;
        assert(meshes@ =~= t.take(r as int));
    }
    assert(meshes@ =~= t);
    assert(t.take(r as int) =~= t);
    let mut expected: HashMap<u32, u64> = HashMap::new();
    let mut j: usize = 0;
    while j < pairs.len()
        invariant
            j <= pairs@.len(),
            pairs@.len() <= u32::MAX,
            forall|m: u32| #[trigger] tally_at(expected@, m) == expected_of(pairs@.take(j as int), m),
        decreases pairs@.len() - j,
    {
        let (id, count) = pairs[j];
        let m = id.index();
        let c = tally_of(&expected, m);
        proof {
            lemma_expected_bound(pairs@.take(j as int), m);
            assert(j * 0xffff_ffff + 0xffff_ffff <= 0xffff_ffff * 0xffff_ffff) by (nonlinear_arith)
                requires
                    j < 0xffff_ffff,
            ;
        }
        let ghost expected_before = expected@;
        expected.insert(m, c + count as u64);
        proof {
            assert(pairs@.take(j + 1).drop_last() =~= pairs@.take(j as int));
            assert(pairs@.take(j + 1).last() == pairs@[j as int]);
            assert forall|x: u32| #[trigger] tally_at(expected@, x) == expected_of(pairs@.take(j + 1), x) by {
                assert(tally_at(expected_before, x) == expected_of(pairs@.take(j as int), x));
            }
        }
        j = j + 1;
    }
    assert(pairs@.take(j as int) =~= pairs@);
    let mut k: usize = 0;
    while k < meshes.len()
        invariant
            k <= meshes@.len(),
            meshes@ == t,
            t == table_meshes(bytes@),
            forall|m: u32| #[trigger] tally_at(seen@, m) == count_of(t, m),
            forall|m: u32| #[trigger] tally_at(expected@, m) == expected_of(pairs@, m),
            forall|i: int| 0 <= i < k ==> count_of(t, #[trigger] meshes@[i]) == expected_of(pairs@, meshes@[i]),
        decreases meshes@.len() - k,
    {
        let m = meshes[k];
        if tally_of(&seen, m) != tally_of(&expected, m) {
            return false;
        }
        k = k + 1;
    }
    let mut q: usize = 0;
    while q < pairs.len()
        invariant
            q <= pairs@.len(),
            meshes@ == t,
            t == table_meshes(bytes@),
            forall|m: u32| #[trigger] tally_at(seen@, m) == count_of(t, m),
            forall|m: u32| #[trigger] tally_at(expected@, m) == expected_of(pairs@, m),
            forall|i: int| 0 <= i < meshes@.len() ==> count_of(t, #[trigger] meshes@[i]) == expected_of(pairs@, meshes@[i]),
            forall|i: int| 0 <= i < q ==> count_of(t, (#[trigger] pairs@[i]).0@) == expected_of(pairs@, pairs@[i].0@),
        decreases pairs@.len() - q,
    {
        let m = pairs[q].0.index();
        if tally_of(&seen, m) != tally_of(&expected, m) {
            assert(count_of(t, pairs@[q as int].0@) != expected_of(pairs@, pairs@[q as int].0@));
            return false;
        }
        q = q + 1;
    }
    proof {
        assert forall|m: u32| #[trigger] count_of(table_meshes(bytes@), m) == expected_of(pairs@, m) by {
            if t.contains(m) {
                let i = choose|i: int| 0 <= i < t.len() && t[i] == m;
                assert(meshes@[i] == m);
            } else if exists|i: int| 0 <= i < pairs@.len() && (#[trigger] pairs@[i]).0@ == m {
                let i = choose|i: int| 0 <= i < pairs@.len() && (#[trigger] pairs@[i]).0@ == m;
                assert(count_of(t, pairs@[i].0@) == expected_of(pairs@, pairs@[i].0@));
            } else {
                lemma_count_absent(t, m);
                lemma_expected_absent(pairs@, m);
            }
        }
    }
    true
}

} // verus!
