//! The river network as courses: from every mouth (a river cell draining into an outlet) the
//! trunk follows the largest river donor upstream to its head, and every other river donor
//! along it starts a tributary of its own, traced the same way; so each course runs from a head
//! to an outlet or to its junction with an earlier, larger river.

use vstd::prelude::*;

use crate::flow::{areas_add_up, donors, downstream_first, is_outlet, lemma_donors_upto, lemma_stack_facts};
use crate::rivers::{
    is_river, larger_donor, lemma_donor_sum_bounds, order_fits, river_donor_lists, river_donors, strahler_orders,
    strahler_orders_of,
};

verus! {

/// Where a river ends.
#[derive(Clone, Copy, Debug, PartialEq, Eq)]
pub enum Mouth {
    /// It reaches an outlet: the sea or the border, at this cell.
    Outlet(u32),
    /// It joins the river at this index, at that point of it.
    Junction {
        /// The larger river.
        river: u32,
        /// The index of the point of `river` the water joins at.
        point: u32,
    },
}

/// "No river" in the per-cell table.
pub const NO_RIVER: u32 = 0xFFFF_FFFF;

/// One river of the network: its cells head first, their catchments, its Strahler order (its
/// last cell's) and where it ends.
#[derive(Clone, Debug)]
pub struct RiverCourse {
    /// The cells, head first.
    pub cells: Vec<u32>,
    /// The catchment at each cell, head first.
    pub area: Vec<u32>,
    /// The Strahler order at the mouth.
    pub order: u8,
    /// Where it ends.
    pub mouth: Mouth,
}

/// Whether river cell `s` starts a river of its own: it drains into an outlet, or it is not
/// the largest donor of the river cell it drains into.
pub open spec fn is_start(r: Seq<u32>, ls: Seq<Seq<u32>>, s: int) -> bool {
    is_outlet(r, r[s] as int) || (ls[r[s] as int].len() > 0 && ls[r[s] as int][0] != s)
}

/// Whether `mouth` says where a river whose last cell is `s` ends, among the first `count`
/// rivers `cells`: the outlet `s` drains into, or the point of an earlier river it joins, a
/// larger one: the river's cell just above the junction has at least the catchment of `s`.
pub open spec fn mouth_of(r: Seq<u32>, area: Seq<u32>, cells: Seq<Seq<u32>>, count: int, s: int, mouth: Mouth) -> bool {
    match mouth {
        Mouth::Outlet(o) => is_outlet(r, r[s] as int) && o == r[s],
        Mouth::Junction { river, point } => !is_outlet(r, r[s] as int) && river < count && 1 <= point < cells[
            river as int].len() && cells[river as int][point as int] == r[s] && area[cells[river as int][point - 1] as int]
            >= area[s],
    }
}

/// Whether the course `c` runs from a head (no river donor) along the largest donors down to a
/// start, every cell a river cell.
pub open spec fn course_ok(r: Seq<u32>, area: Seq<u32>, min_area: u32, ls: Seq<Seq<u32>>, c: Seq<u32>) -> bool {
    &&& c.len() > 0
    &&& forall|k: int| 0 <= k < c.len() ==> #[trigger] c[k] < r.len() && is_river(r, area, min_area, c[k] as int)
    &&& ls[c[0] as int].len() == 0
    &&& forall|k: int| 1 <= k < c.len() ==> (#[trigger] ls[c[k] as int]).len() > 0 && ls[c[k] as int][0] == c[k - 1]
    &&& is_start(r, ls, c[c.len() - 1] as int)
}

/// The state of the tracing: the rivers so far (`cells`, `mouths`), the river of each cell,
/// and the pending starts with their mouths.
spec fn trace_state(
    r: Seq<u32>,
    st: Seq<u32>,
    area: Seq<u32>,
    min_area: u32,
    ls: Seq<Seq<u32>>,
    cells: Seq<Seq<u32>>,
    mouths: Seq<Mouth>,
    river_of: Seq<u32>,
    pending: Seq<(u32, Mouth)>,
) -> bool {
    let n = r.len();
    &&& river_of.len() == n
    &&& mouths.len() == cells.len()
    &&& cells.len() < NO_RIVER
    &&& forall|j: int| 0 <= j < cells.len() ==> course_ok(r, area, min_area, ls, #[trigger] cells[j])
    &&& forall|j: int| 0 <= j < cells.len() ==> mouth_of(r, area, cells, j, cells[j][cells[j].len() - 1] as int, #[trigger] mouths[j])
    &&& forall|j: int, k: int| 0 <= j < cells.len() && 0 <= k < cells[j].len() ==> river_of[#[trigger] cells[j][k] as int] == j
    &&& forall|x: int| 0 <= x < n && river_of[x] != NO_RIVER ==> #[trigger] river_of[x] < cells.len()
        && cells[river_of[x] as int].contains(x as u32)
    &&& forall|x: int| 0 <= x < n && river_of[x] != NO_RIVER ==> #[trigger] st.contains(x as u32)
    &&& forall|x: int| 0 <= x < n && #[trigger] river_of[x] != NO_RIVER ==> is_outlet(r, r[x] as int) || river_of[r[x] as int]
        != NO_RIVER
    &&& forall|k: int| 0 <= k < pending.len() ==> #[trigger] pending[k].0 < n && is_river(r, area, min_area, pending[k].0 as int)
        && river_of[pending[k].0 as int] == NO_RIVER && is_start(r, ls, pending[k].0 as int) && mouth_of(
        r,
        area,
        cells,
        cells.len() as int,
        pending[k].0 as int,
        pending[k].1,
    ) && st.contains(pending[k].0)
    &&& forall|a: int, b: int| 0 <= a < b < pending.len() ==> #[trigger] pending[a].0 != #[trigger] pending[b].0
    &&& forall|x: int, a: int| 0 <= x < n && river_of[x] != NO_RIVER && 0 <= a < ls[x].len() ==> river_of[#[trigger] ls[x][a] as int]
        != NO_RIVER || exists|k: int| 0 <= k < pending.len() && #[trigger] pending[k].0 == ls[x][a]
}

/// How many of the cells `0..upto` have no river.
spec fn unassigned(river_of: Seq<u32>, upto: int) -> nat
    decreases upto,
{
    if upto <= 0 {
        0
    } else {
        unassigned(river_of, upto - 1) + if river_of[upto - 1] == NO_RIVER {
            1nat
        } else {
            0nat
        }
    }
}

proof fn lemma_unassigned_update(river_of: Seq<u32>, upto: int, x: int, v: u32)
    requires
        0 <= x < river_of.len(),
        0 <= upto <= river_of.len(),
        river_of[x] == NO_RIVER,
        v != NO_RIVER,
    ensures
        unassigned(river_of.update(x, v), upto) + (if x < upto { 1nat } else { 0nat }) == unassigned(river_of, upto),
    decreases upto,
{
    if upto > 0 {
        lemma_unassigned_update(river_of, upto - 1, x, v);
    }
}

proof fn lemma_unassigned_bound(river_of: Seq<u32>, upto: int)
    requires
        0 <= upto <= river_of.len(),
    ensures
        unassigned(river_of, upto) <= upto,
    decreases upto,
{
    if upto > 0 {
        lemma_unassigned_bound(river_of, upto - 1);
    }
}

proof fn lemma_all_unassigned(river_of: Seq<u32>, upto: int)
    requires
        0 <= upto <= river_of.len(),
        forall|x: int| 0 <= x < upto ==> #[trigger] river_of[x] == NO_RIVER,
    ensures
        unassigned(river_of, upto) == upto,
    decreases upto,
{
    if upto > 0 {
        lemma_all_unassigned(river_of, upto - 1);
    }
}

/// The river table after giving the first `k` cells of a course the river `index`.
spec fn assigned_upto(river_of: Seq<u32>, cells: Seq<u32>, index: u32, k: int) -> Seq<u32>
    decreases k,
{
    if k <= 0 {
        river_of
    } else {
        assigned_upto(river_of, cells, index, k - 1).update(cells[k - 1] as int, index)
    }
}

/// Giving distinct cells without a river the river `index` changes just them and leaves that
/// many fewer cells without a river.
proof fn lemma_assigned_upto(river_of: Seq<u32>, cells: Seq<u32>, index: u32, k: int)
    requires
        0 <= k <= cells.len(),
        index != NO_RIVER,
        forall|a: int| 0 <= a < cells.len() ==> #[trigger] cells[a] < river_of.len() && river_of[cells[a] as int] == NO_RIVER,
        forall|a: int, b: int| 0 <= a < b < cells.len() ==> #[trigger] cells[a] != #[trigger] cells[b],
    ensures
        assigned_upto(river_of, cells, index, k).len() == river_of.len(),
        forall|a: int| 0 <= a < k ==> assigned_upto(river_of, cells, index, k)[#[trigger] cells[a] as int] == index,
        forall|a: int| k <= a < cells.len() ==> assigned_upto(river_of, cells, index, k)[#[trigger] cells[a] as int] == NO_RIVER,
        forall|y: int| 0 <= y < river_of.len() ==> #[trigger] assigned_upto(river_of, cells, index, k)[y] == river_of[y] || (
        assigned_upto(river_of, cells, index, k)[y] == index && cells.contains(y as u32)),
        unassigned(assigned_upto(river_of, cells, index, k), river_of.len() as int) + k == unassigned(river_of, river_of.len() as int),
    decreases k,
{
    if k > 0 {
        lemma_assigned_upto(river_of, cells, index, k - 1);
        let prev = assigned_upto(river_of, cells, index, k - 1);
        let c = cells[k - 1];
        lemma_unassigned_update(prev, river_of.len() as int, c as int, index);
        assert forall|y: int| 0 <= y < river_of.len() implies #[trigger] assigned_upto(river_of, cells, index, k)[y] == river_of[y]
            || (assigned_upto(river_of, cells, index, k)[y] == index && cells.contains(y as u32)) by {
            if y == c {
                assert(cells[k - 1] == y as u32);
            }
        }
    }
}

/// The tributaries a course's cell `k` sends to the pending starts: its river donors but the
/// largest, the smallest first, each joining river `index` at point `k`.
spec fn tributaries(ls: Seq<Seq<u32>>, cell: u32, index: u32, k: int) -> Seq<(u32, Mouth)> {
    let ds = ls[cell as int];
    Seq::new(
        if ds.len() > 0 { (ds.len() - 1) as nat } else { 0 },
        |a: int| (ds[ds.len() - 1 - a], Mouth::Junction { river: index, point: k as u32 }),
    )
}

/// The tributaries of cells `0..k` of a course.
spec fn tributaries_upto(ls: Seq<Seq<u32>>, cells: Seq<u32>, index: u32, k: int) -> Seq<(u32, Mouth)>
    decreases k,
{
    if k <= 0 {
        Seq::empty()
    } else {
        tributaries_upto(ls, cells, index, k - 1) + tributaries(ls, cells[k - 1], index, k - 1)
    }
}

/// What a river donor list holds: river donors of the cell, no one twice.
proof fn lemma_list_facts(r: Seq<u32>, area: Seq<u32>, min_area: u32, ls: Seq<Seq<u32>>, i: int)
    requires
        river_donor_lists(r, area, min_area, ls),
        0 <= i < r.len(),
    ensures
        forall|a: int| 0 <= a < ls[i].len() ==> #[trigger] ls[i][a] < r.len() && r[ls[i][a] as int] == i && is_river(
            r,
            area,
            min_area,
            ls[i][a] as int,
        ) && is_river(r, area, min_area, i),
        forall|a: int, b: int| 0 <= a < ls[i].len() && 0 <= b < ls[i].len() && a != b ==> #[trigger] ls[i][a] != #[trigger] ls[i][b],
{
    assert forall|a: int| 0 <= a < ls[i].len() implies #[trigger] ls[i][a] < r.len() && r[ls[i][a] as int] == i && is_river(
        r,
        area,
        min_area,
        ls[i][a] as int,
    ) && is_river(r, area, min_area, i) by {
        assert(ls[i].contains(ls[i][a]));
    }
    assert forall|a: int, b: int| 0 <= a < ls[i].len() && 0 <= b < ls[i].len() && a != b implies #[trigger] ls[i][a]
        != #[trigger] ls[i][b] by {
        if a < b {
            assert(larger_donor(area, ls[i][a], ls[i][b]));
        } else {
            assert(larger_donor(area, ls[i][b], ls[i][a]));
        }
    }
}

/// A cell on the stack that is no outlet has less catchment than the cell it drains into.
proof fn lemma_receiver_larger(r: Seq<u32>, st: Seq<u32>, area: Seq<u32>, x: int)
    requires
        r.len() < u32::MAX,
        forall|i: int| 0 <= i < r.len() ==> #[trigger] r[i] < r.len(),
        downstream_first(r, st),
        areas_add_up(r, st, area),
        0 <= x < r.len(),
        st.contains(x as u32),
        !is_outlet(r, x),
    ensures
        st.contains(r[x]),
        area[x] < area[r[x] as int],
{
    let k = choose|k: int| 0 <= k < st.len() && st[k] == x as u32;
    assert(st.take(k).contains(r[x]));
    let q = choose|q: int| 0 <= q < k && st.take(k)[q] == r[x];
    assert(st[q] == r[x]);
    let c = r[x] as int;
    lemma_donors_upto(r, c, r.len() as int);
    let ds = donors(r, c);
    assert(ds.contains(x as u32));
    assert(ds.no_duplicates()) by {
        assert forall|a: int, b: int| 0 <= a < ds.len() && 0 <= b < ds.len() && a != b implies ds[a] != ds[b] by {
            if a < b {
                assert(ds[a] < ds[b]);
            } else {
                assert(ds[b] < ds[a]);
            }
        }
    }
    lemma_donor_sum_bounds(ds, area, x as u32, x as u32);
}

/// What the tributaries of the first `k` cells of a course are: river donors of those cells
/// but their largest, each once, joining river `index` at its cell's point.
proof fn lemma_tributaries(r: Seq<u32>, area: Seq<u32>, min_area: u32, ls: Seq<Seq<u32>>, cells: Seq<u32>, index: u32, k: int)
    requires
        river_donor_lists(r, area, min_area, ls),
        0 <= k <= cells.len(),
        cells.len() < u32::MAX,
        forall|a: int| 0 <= a < cells.len() ==> #[trigger] cells[a] < r.len(),
        forall|a: int, b: int| 0 <= a < b < cells.len() ==> #[trigger] cells[a] != #[trigger] cells[b],
    ensures
        forall|t: int| 0 <= t < tributaries_upto(ls, cells, index, k).len() ==> {
            let e = #[trigger] tributaries_upto(ls, cells, index, k)[t];
            &&& e.1 is Junction
            &&& e.1->river == index
            &&& e.1->point < k
            &&& ls[cells[e.1->point as int] as int].contains(e.0)
            &&& ls[cells[e.1->point as int] as int][0] != e.0
        },
        forall|p: int, a: int| 0 <= p < k && 1 <= a < ls[cells[p] as int].len() ==> tributaries_upto(ls, cells, index, k).contains(
            (#[trigger] ls[cells[p] as int][a], Mouth::Junction { river: index, point: p as u32 }),
        ),
        forall|t1: int, t2: int| 0 <= t1 < t2 < tributaries_upto(ls, cells, index, k).len() ==> (#[trigger] tributaries_upto(
            ls,
            cells,
            index,
            k,
        )[t1]).0 != (#[trigger] tributaries_upto(ls, cells, index, k)[t2]).0,
    decreases k,
{
    if k > 0 {
        lemma_tributaries(r, area, min_area, ls, cells, index, k - 1);
        let prev = tributaries_upto(ls, cells, index, k - 1);
        let c = cells[k - 1];
        let tr = tributaries(ls, c, index, k - 1);
        let cur = tributaries_upto(ls, cells, index, k);
        assert(cur == prev + tr);
        let ds = ls[c as int];
        lemma_list_facts(r, area, min_area, ls, c as int);
        assert forall|t: int| 0 <= t < cur.len() implies {
            let e = #[trigger] cur[t];
            &&& e.1 is Junction
            &&& e.1->river == index
            &&& e.1->point < k
            &&& ls[cells[e.1->point as int] as int].contains(e.0)
            &&& ls[cells[e.1->point as int] as int][0] != e.0
        } by {
            if t < prev.len() {
                assert(cur[t] == prev[t]);
            } else {
                let s = t - prev.len();
                assert(cur[t] == tr[s]);
                assert(tr[s].0 == ds[ds.len() - 1 - s]);
                assert(ds.contains(ds[ds.len() - 1 - s]));
                assert(ds[0] != ds[ds.len() - 1 - s]);
            }
        }
        assert forall|p: int, a: int| 0 <= p < k && 1 <= a < ls[cells[p] as int].len() implies cur.contains(
            (#[trigger] ls[cells[p] as int][a], Mouth::Junction { river: index, point: p as u32 }),
        ) by {
            let e = (ls[cells[p] as int][a], Mouth::Junction { river: index, point: p as u32 });
            if p < k - 1 {
                assert(prev.contains(e));
                let t = choose|t: int| 0 <= t < prev.len() && prev[t] == e;
                assert(cur[t] == e);
            } else {
                let s = ds.len() - 1 - a;
                assert(tr[s] == e);
                assert(cur[prev.len() + s] == e);
            }
        }
        assert forall|t1: int, t2: int| 0 <= t1 < t2 < cur.len() implies (#[trigger] cur[t1]).0 != (#[trigger] cur[t2]).0 by {
            if t2 < prev.len() {
                assert(cur[t1] == prev[t1] && cur[t2] == prev[t2]);
            } else if t1 < prev.len() {
                let e = prev[t1];
                assert(cur[t1] == e);
                let p = e.1->point as int;
                let dp = ls[cells[p] as int];
                let w = choose|w: int| 0 <= w < dp.len() && dp[w] == e.0;
                lemma_list_facts(r, area, min_area, ls, cells[p] as int);
                assert(r[e.0 as int] == cells[p]);
                let s = t2 - prev.len();
                assert(cur[t2] == tr[s]);
                assert(r[ds[ds.len() - 1 - s] as int] == c);
                assert(cells[p] != cells[k - 1]);
            } else {
                let s1 = t1 - prev.len();
                let s2 = t2 - prev.len();
                assert(cur[t1] == tr[s1] && cur[t2] == tr[s2]);
                assert(ds[ds.len() - 1 - s1] != ds[ds.len() - 1 - s2]);
            }
        }
    }
}

/// Whether the river started at `s1` that joins at `m1` comes before the one started at `s2`
/// that joins the same river at `m2`: it joins nearer that river's mouth, or at the same
/// point with the larger catchment (on a tie, the lower index).
pub open spec fn joins_before(area: Seq<u32>, m1: Mouth, s1: u32, m2: Mouth, s2: u32) -> bool {
    m1->point > m2->point || (m1->point == m2->point && larger_donor(area, s1, s2))
}

/// Whether two mouths join the same river.
pub open spec fn same_river(m1: Mouth, m2: Mouth) -> bool {
    m1 is Junction && m2 is Junction && m1->river == m2->river
}

/// Whether the rivers and pending starts that join one river come in [`joins_before`] order:
/// the rivers in index order, then the pending starts from the top of the stack down.
spec fn junctions_ordered(area: Seq<u32>, cells: Seq<Seq<u32>>, mouths: Seq<Mouth>, pending: Seq<(u32, Mouth)>) -> bool {
    &&& forall|j1: int, j2: int|
        0 <= j1 < j2 < cells.len() && same_river(#[trigger] mouths[j1], #[trigger] mouths[j2]) ==> joins_before(
            area,
            mouths[j1],
            cells[j1][cells[j1].len() - 1],
            mouths[j2],
            cells[j2][cells[j2].len() - 1],
        )
    &&& forall|j: int, k: int|
        0 <= j < cells.len() && 0 <= k < pending.len() && same_river(#[trigger] mouths[j], (#[trigger] pending[k]).1)
            ==> joins_before(area, mouths[j], cells[j][cells[j].len() - 1], pending[k].1, pending[k].0)
    &&& forall|a: int, b: int|
        0 <= a < b < pending.len() && same_river((#[trigger] pending[a]).1, (#[trigger] pending[b]).1) ==> joins_before(
            area,
            pending[b].1,
            pending[b].0,
            pending[a].1,
            pending[a].0,
        )
}

/// The tributaries of the first `k` cells of a course all join it, each at its cell's point,
/// and come out in [`joins_before`] order from the top of the stack.
proof fn lemma_tributaries_ordered(
    area: Seq<u32>,
    ls: Seq<Seq<u32>>,
    cells: Seq<u32>,
    index: u32,
    k: int,
)
    requires
        0 <= k <= cells.len(),
        cells.len() < u32::MAX,
        forall|a: int| 0 <= a < cells.len() ==> #[trigger] cells[a] < ls.len(),
        forall|i: int, a: int, b: int| 0 <= i < ls.len() && 0 <= a < b < ls[i].len() ==> larger_donor(
            area,
            #[trigger] ls[i][a],
            #[trigger] ls[i][b],
        ),
    ensures
        forall|t: int| 0 <= t < tributaries_upto(ls, cells, index, k).len() ==> {
            let e = #[trigger] tributaries_upto(ls, cells, index, k)[t];
            &&& e.1 is Junction
            &&& e.1->river == index
            &&& e.1->point < k
        },
        forall|t1: int, t2: int|
            0 <= t1 < t2 < tributaries_upto(ls, cells, index, k).len() ==> joins_before(
                area,
                (#[trigger] tributaries_upto(ls, cells, index, k)[t2]).1,
                tributaries_upto(ls, cells, index, k)[t2].0,
                (#[trigger] tributaries_upto(ls, cells, index, k)[t1]).1,
                tributaries_upto(ls, cells, index, k)[t1].0,
            ),
    decreases k,
{
    if k > 0 {
        lemma_tributaries_ordered(area, ls, cells, index, k - 1);
        let prev = tributaries_upto(ls, cells, index, k - 1);
        let c = cells[k - 1];
        let tr = tributaries(ls, c, index, k - 1);
        let cur = tributaries_upto(ls, cells, index, k);
        assert(cur == prev + tr);
        let ds = ls[c as int];
        assert forall|t: int| 0 <= t < cur.len() implies {
            let e = #[trigger] cur[t];
            &&& e.1 is Junction
            &&& e.1->river == index
            &&& e.1->point < k
        } by {
            if t < prev.len() {
                assert(cur[t] == prev[t]);
            } else {
                assert(cur[t] == tr[t - prev.len()]);
            }
        }
        assert forall|t1: int, t2: int|
            0 <= t1 < t2 < cur.len() implies joins_before(area, (#[trigger] cur[t2]).1, cur[t2].0, (#[trigger] cur[t1]).1, cur[t1].0) by {
            if t2 < prev.len() {
                assert(cur[t1] == prev[t1] && cur[t2] == prev[t2]);
            } else if t1 < prev.len() {
                assert(cur[t1] == prev[t1]);
                assert(cur[t2] == tr[t2 - prev.len()]);
                assert(prev[t1].1->point < k - 1);
            } else {
                let s1 = t1 - prev.len();
                let s2 = t2 - prev.len();
                assert(cur[t1] == tr[s1] && cur[t2] == tr[s2]);
                assert(larger_donor(area, ds[ds.len() - 1 - s2], ds[ds.len() - 1 - s1]));
            }
        }
    }
}

/// Adding a course keeps the rivers and pending starts of each junction the larger first:
/// the course is the top of the stack, and its own tributaries join it alone.
#[verifier::rlimit(40)]
proof fn lemma_added_junctions(
    r: Seq<u32>,
    st: Seq<u32>,
    area: Seq<u32>,
    min_area: u32,
    ls: Seq<Seq<u32>>,
    cells_g: Seq<Seq<u32>>,
    mouths_g: Seq<Mouth>,
    river_of0: Seq<u32>,
    river_of1: Seq<u32>,
    p1: Seq<(u32, Mouth)>,
    start: u32,
    mouth: Mouth,
    cells: Seq<u32>,
)
    requires
        course_added_pre(r, st, area, min_area, ls, cells_g, mouths_g, river_of0, river_of1, p1, start, mouth, cells),
        junctions_ordered(area, cells_g, mouths_g, p1.push((start, mouth))),
    ensures
        junctions_ordered(
            area,
            cells_g.push(cells),
            mouths_g.push(mouth),
            p1 + tributaries_upto(ls, cells, cells_g.len() as u32, cells.len() as int),
        ),
{
    let index = cells_g.len() as u32;
    let old_len = cells_g.len() as int;
    let p0 = p1.push((start, mouth));
    let tu = tributaries_upto(ls, cells, index, cells.len() as int);
    let cn = cells_g.push(cells);
    let mn = mouths_g.push(mouth);
    let pn = p1 + tu;
    lemma_tributaries_ordered(area, ls, cells, index, cells.len() as int);
    assert(p0[p1.len() as int] == (start, mouth));
    assert(mouth_of(r, area, cells_g, old_len, p0[p1.len() as int].0 as int, p0[p1.len() as int].1));
    assert(cn[old_len] == cells && mn[old_len] == mouth);
    assert forall|j1: int, j2: int|
        0 <= j1 < j2 < cn.len() && same_river(#[trigger] mn[j1], #[trigger] mn[j2]) implies joins_before(
        area,
        mn[j1],
        cn[j1][cn[j1].len() - 1],
        mn[j2],
        cn[j2][cn[j2].len() - 1],
    ) by {
        assert(cn[j1] == cells_g[j1] && mn[j1] == mouths_g[j1]);
        if j2 < old_len {
            assert(cn[j2] == cells_g[j2] && mn[j2] == mouths_g[j2]);
        } else {
            assert(same_river(mouths_g[j1], p0[p1.len() as int].1));
        }
    }
    assert forall|j: int, k: int|
        0 <= j < cn.len() && 0 <= k < pn.len() && same_river(#[trigger] mn[j], (#[trigger] pn[k]).1) implies joins_before(
        area,
        mn[j],
        cn[j][cn[j].len() - 1],
        pn[k].1,
        pn[k].0,
    ) by {
        if k < p1.len() {
            assert(pn[k] == p1[k] && p0[k] == p1[k]);
            if j < old_len {
                assert(cn[j] == cells_g[j] && mn[j] == mouths_g[j]);
            } else {
                assert(same_river(p0[k].1, p0[p1.len() as int].1));
            }
        } else {
            assert(pn[k] == tu[k - p1.len()]);
            if j < old_len {
                assert(cn[j] == cells_g[j] && mn[j] == mouths_g[j]);
                assert(mouth_of(r, area, cells_g, j, cells_g[j][cells_g[j].len() - 1] as int, mouths_g[j]));
            }
        }
    }
    assert forall|a: int, b: int|
        0 <= a < b < pn.len() && same_river((#[trigger] pn[a]).1, (#[trigger] pn[b]).1) implies joins_before(
        area,
        pn[b].1,
        pn[b].0,
        pn[a].1,
        pn[a].0,
    ) by {
        if b < p1.len() {
            assert(pn[a] == p0[a] && pn[b] == p0[b]);
        } else if a < p1.len() {
            assert(pn[a] == p0[a]);
            assert(pn[b] == tu[b - p1.len()]);
            assert(mouth_of(r, area, cells_g, old_len, p0[a].0 as int, p0[a].1));
        } else {
            assert(pn[a] == tu[a - p1.len()] && pn[b] == tu[b - p1.len()]);
        }
    }
}

/// Whether river `j` flows into river `a`: it is `a`, or the river it joins (an earlier one)
/// flows into `a`.
pub open spec fn flows_into(mouths: Seq<Mouth>, j: int, a: int) -> bool
    decreases j,
{
    if j == a {
        true
    } else if 0 <= j < mouths.len() && mouths[j] is Junction && mouths[j]->river < j {
        flows_into(mouths, mouths[j]->river as int, a)
    } else {
        false
    }
}

/// Whether every river's tributaries, theirs and so on come right after it, and the pending
/// starts keep it so: one that will flow into a river has every river after that one flow
/// into it too, and each pending start joins a river that flows into the river the one below
/// it joins.
spec fn courses_nested(mouths: Seq<Mouth>, pending: Seq<(u32, Mouth)>) -> bool {
    &&& forall|a: int, b: int, c: int|
        #![trigger flows_into(mouths, c, a), flows_into(mouths, b, a)]
        0 <= a < b < c < mouths.len() && flows_into(mouths, c, a) ==> flows_into(mouths, b, a)
    &&& forall|a: int, b: int, k: int|
        #![trigger pending[k], flows_into(mouths, b, a)]
        0 <= a < b < mouths.len() && 0 <= k < pending.len() && pending[k].1 is Junction && flows_into(
            mouths,
            pending[k].1->river as int,
            a,
        ) ==> flows_into(mouths, b, a)
    &&& forall|k1: int, k2: int|
        0 <= k1 < k2 < pending.len() ==> (#[trigger] pending[k1]).1 is Junction && (#[trigger] pending[k2]).1 is Junction
            && flows_into(mouths, pending[k2].1->river as int, pending[k1].1->river as int)
}

/// A river that is added after the others changes none of their ways down.
proof fn lemma_flows_into_push(mouths: Seq<Mouth>, m: Mouth, j: int, a: int)
    requires
        0 <= j < mouths.len(),
    ensures
        flows_into(mouths.push(m), j, a) == flows_into(mouths, j, a),
    decreases j,
{
    assert(mouths.push(m)[j] == mouths[j]);
    if j != a && mouths[j] is Junction && mouths[j]->river < j {
        lemma_flows_into_push(mouths, m, mouths[j]->river as int, a);
    }
}

/// Flowing into a river is transitive.
proof fn lemma_flows_into_trans(mouths: Seq<Mouth>, x: int, y: int, a: int)
    requires
        flows_into(mouths, x, y),
        flows_into(mouths, y, a),
    ensures
        flows_into(mouths, x, a),
    decreases x,
{
    if x != y && x != a {
        lemma_flows_into_trans(mouths, mouths[x]->river as int, y, a);
    }
}

/// Adding a course keeps the courses nested: it is the top of the stack, so every river that
/// will flow into one it flows into comes after it, and its tributaries join it.
#[verifier::rlimit(60)]
proof fn lemma_added_nesting(
    r: Seq<u32>,
    st: Seq<u32>,
    area: Seq<u32>,
    min_area: u32,
    ls: Seq<Seq<u32>>,
    cells_g: Seq<Seq<u32>>,
    mouths_g: Seq<Mouth>,
    river_of0: Seq<u32>,
    river_of1: Seq<u32>,
    p1: Seq<(u32, Mouth)>,
    start: u32,
    mouth: Mouth,
    cells: Seq<u32>,
)
    requires
        course_added_pre(r, st, area, min_area, ls, cells_g, mouths_g, river_of0, river_of1, p1, start, mouth, cells),
        courses_nested(mouths_g, p1.push((start, mouth))),
    ensures
        courses_nested(mouths_g.push(mouth), p1 + tributaries_upto(ls, cells, cells_g.len() as u32, cells.len() as int)),
{
    let index = cells_g.len() as u32;
    let nn = cells_g.len() as int;
    let p0 = p1.push((start, mouth));
    let top = p1.len() as int;
    let tu = tributaries_upto(ls, cells, index, cells.len() as int);
    let mn = mouths_g.push(mouth);
    let pn = p1 + tu;
    lemma_tributaries_ordered(area, ls, cells, index, cells.len() as int);
    assert(p0[top] == (start, mouth));
    assert(mouth_of(r, area, cells_g, nn, p0[top].0 as int, p0[top].1));
    assert(mn[nn] == mouth);
    assert forall|x: int, a: int| 0 <= x < nn implies #[trigger] flows_into(mn, x, a) == flows_into(mouths_g, x, a) by {
        lemma_flows_into_push(mouths_g, mouth, x, a);
    }
    // The new river flows into `a` (an earlier river) through the river it joins.
    assert forall|a: int| 0 <= a < nn implies #[trigger] flows_into(mn, nn, a) == (mouth is Junction && flows_into(
        mouths_g,
        mouth->river as int,
        a,
    )) by {
        if mouth is Junction {
            assert(flows_into(mn, mouth->river as int, a) == flows_into(mouths_g, mouth->river as int, a));
        }
    }
    assert forall|a: int, b: int, c: int|
        #![trigger flows_into(mn, c, a), flows_into(mn, b, a)]
        0 <= a < b < c < mn.len() && flows_into(mn, c, a) implies flows_into(mn, b, a) by {
        assert(flows_into(mn, b, a) == flows_into(mouths_g, b, a) || b == nn);
        if c < nn {
            assert(flows_into(mn, c, a) == flows_into(mouths_g, c, a));
        } else {
            assert(p0[top].1 is Junction && flows_into(mouths_g, p0[top].1->river as int, a));
            assert(flows_into(mouths_g, b, a));
        }
    }
    assert forall|a: int, b: int, k: int|
        #![trigger pn[k], flows_into(mn, b, a)]
        0 <= a < b < mn.len() && 0 <= k < pn.len() && pn[k].1 is Junction && flows_into(mn, pn[k].1->river as int, a)
            implies flows_into(mn, b, a) by {
        if k < top {
            assert(pn[k] == p0[k]);
            assert(mouth_of(r, area, cells_g, nn, p0[k].0 as int, p0[k].1));
            let q = p0[k].1->river as int;
            assert(flows_into(mn, q, a) == flows_into(mouths_g, q, a));
            if b < nn {
                assert(flows_into(mn, b, a) == flows_into(mouths_g, b, a));
                assert(flows_into(mouths_g, b, a));
            } else {
                assert(p0[top].1 is Junction && flows_into(mouths_g, p0[top].1->river as int, q));
                lemma_flows_into_trans(mouths_g, p0[top].1->river as int, q, a);
            }
        } else {
            assert(pn[k] == tu[k - top]);
            assert(pn[k].1->river == index);
            if b < nn {
                assert(flows_into(mn, b, a) == flows_into(mouths_g, b, a));
                assert(mouth is Junction && flows_into(mouths_g, mouth->river as int, a));
                assert(flows_into(mouths_g, b, a));
            }
        }
    }
    assert forall|k1: int, k2: int| 0 <= k1 < k2 < pn.len() implies (#[trigger] pn[k1]).1 is Junction && (
    #[trigger] pn[k2]).1 is Junction && flows_into(mn, pn[k2].1->river as int, pn[k1].1->river as int) by {
        if k2 < top {
            assert(pn[k1] == p0[k1] && pn[k2] == p0[k2]);
            assert(mouth_of(r, area, cells_g, nn, p0[k2].0 as int, p0[k2].1));
            assert(flows_into(mn, p0[k2].1->river as int, p0[k1].1->river as int) == flows_into(
                mouths_g,
                p0[k2].1->river as int,
                p0[k1].1->river as int,
            ));
        } else if k1 < top {
            assert(pn[k1] == p0[k1]);
            assert(pn[k2] == tu[k2 - top]);
            assert(mouth_of(r, area, cells_g, nn, p0[k1].0 as int, p0[k1].1));
            assert(p0[top].1 is Junction && flows_into(mouths_g, p0[top].1->river as int, p0[k1].1->river as int));
            assert(flows_into(mn, nn, p0[k1].1->river as int));
        } else {
            assert(pn[k1] == tu[k1 - top] && pn[k2] == tu[k2 - top]);
        }
    }
}

/// Whether `chain` climbs from its first cell along the largest river donors, through river
/// cells on the stack that have no river yet, their catchments shrinking.
spec fn trunk_ok(
    r: Seq<u32>,
    st: Seq<u32>,
    area: Seq<u32>,
    min_area: u32,
    ls: Seq<Seq<u32>>,
    river_of: Seq<u32>,
    chain: Seq<u32>,
) -> bool {
    &&& chain.len() > 0
    &&& forall|k: int| 0 <= k < chain.len() ==> #[trigger] chain[k] < r.len() && is_river(r, area, min_area, chain[k] as int)
        && river_of[chain[k] as int] == NO_RIVER && st.contains(chain[k])
    &&& forall|k: int| 0 <= k < chain.len() - 1 ==> (#[trigger] ls[chain[k] as int]).len() > 0 && ls[chain[k] as int][0] == chain[k
        + 1]
    &&& forall|a: int, b: int| 0 <= a < b < chain.len() ==> area[#[trigger] chain[b] as int] < area[#[trigger] chain[a] as int]
}

/// A popped start begins a trunk.
proof fn lemma_trunk_start(
    r: Seq<u32>,
    st: Seq<u32>,
    area: Seq<u32>,
    min_area: u32,
    ls: Seq<Seq<u32>>,
    cells: Seq<Seq<u32>>,
    mouths: Seq<Mouth>,
    river_of: Seq<u32>,
    p1: Seq<(u32, Mouth)>,
    start: u32,
    mouth: Mouth,
)
    requires
        trace_state(r, st, area, min_area, ls, cells, mouths, river_of, p1.push((start, mouth))),
    ensures
        trunk_ok(r, st, area, min_area, ls, river_of, seq![start]),
{
    let p0 = p1.push((start, mouth));
    assert(p0[p1.len() as int].0 == start);
}

/// The trunk grows by the largest river donor of its last cell, whose catchment is smaller.
proof fn lemma_trunk_grows(
    r: Seq<u32>,
    st: Seq<u32>,
    area: Seq<u32>,
    min_area: u32,
    ls: Seq<Seq<u32>>,
    cells: Seq<Seq<u32>>,
    mouths: Seq<Mouth>,
    river_of: Seq<u32>,
    pending: Seq<(u32, Mouth)>,
    chain: Seq<u32>,
    main: u32,
)
    requires
        r.len() < u32::MAX,
        forall|i: int| 0 <= i < r.len() ==> #[trigger] r[i] < r.len(),
        downstream_first(r, st),
        areas_add_up(r, st, area),
        river_donor_lists(r, area, min_area, ls),
        trace_state(r, st, area, min_area, ls, cells, mouths, river_of, pending),
        trunk_ok(r, st, area, min_area, ls, river_of, chain),
        ls[chain.last() as int].len() > 0,
        main == ls[chain.last() as int][0],
    ensures
        trunk_ok(r, st, area, min_area, ls, river_of, chain.push(main)),
        area[main as int] < area[chain.last() as int],
{
    let c = chain.last();
    let m = chain.len() - 1;
    assert(chain[m] == c);
    lemma_list_facts(r, area, min_area, ls, c as int);
    assert(ls[c as int][0] == main);
    assert(st.contains(r[main as int]));
    assert(st.contains(main));
    lemma_receiver_larger(r, st, area, main as int);
    if river_of[main as int] != NO_RIVER {
        assert(river_of[r[main as int] as int] != NO_RIVER);
    }
    let ch = chain.push(main);
    assert forall|k: int| 0 <= k < ch.len() implies #[trigger] ch[k] < r.len() && is_river(r, area, min_area, ch[k] as int)
        && river_of[ch[k] as int] == NO_RIVER && st.contains(ch[k]) by {
        if k < chain.len() {
            assert(ch[k] == chain[k]);
        }
    }
    assert forall|k: int| 0 <= k < ch.len() - 1 implies (#[trigger] ls[ch[k] as int]).len() > 0 && ls[ch[k] as int][0] == ch[k
        + 1] by {
        assert(ch[k] == chain[k]);
        if k < m {
            assert(ls[chain[k] as int].len() > 0);
        }
    }
    assert forall|a: int, b: int| 0 <= a < b < ch.len() implies area[#[trigger] ch[b] as int] < area[#[trigger] ch[a] as int] by {
        assert(ch[a] == chain[a]);
        if b < chain.len() {
            assert(ch[b] == chain[b]);
        } else if a < m {
            assert(area[chain[m] as int] < area[chain[a] as int]);
        }
    }
}

/// The course of a finished trunk, head first.
proof fn lemma_course_shape(
    r: Seq<u32>,
    st: Seq<u32>,
    area: Seq<u32>,
    min_area: u32,
    ls: Seq<Seq<u32>>,
    river_of: Seq<u32>,
    chain: Seq<u32>,
    cells: Seq<u32>,
)
    requires
        trunk_ok(r, st, area, min_area, ls, river_of, chain),
        ls[chain.last() as int].len() == 0,
        cells.len() == chain.len(),
        forall|k: int| 0 <= k < cells.len() ==> #[trigger] cells[k] == chain[chain.len() - 1 - k],
    ensures
        cells.len() > 0,
        cells[cells.len() - 1] == chain[0],
        ls[cells[0] as int].len() == 0,
        forall|k: int| 0 <= k < cells.len() ==> #[trigger] cells[k] < r.len() && is_river(r, area, min_area, cells[k] as int)
            && river_of[cells[k] as int] == NO_RIVER && st.contains(cells[k]),
        forall|k: int| 1 <= k < cells.len() ==> (#[trigger] ls[cells[k] as int]).len() > 0 && ls[cells[k] as int][0] == cells[k - 1],
        forall|a: int, b: int| 0 <= a < b < cells.len() ==> area[#[trigger] cells[a] as int] < area[#[trigger] cells[b] as int],
        forall|a: int, b: int| 0 <= a < b < cells.len() ==> #[trigger] cells[a] != #[trigger] cells[b],
{
    let m = chain.len();
    assert(cells[0] == chain[m - 1]);
    assert(cells[m - 1] == chain[0]);
    assert forall|k: int| 0 <= k < cells.len() implies #[trigger] cells[k] < r.len() && is_river(r, area, min_area, cells[k] as int)
        && river_of[cells[k] as int] == NO_RIVER && st.contains(cells[k]) by {
        assert(cells[k] == chain[m - 1 - k]);
    }
    assert forall|k: int| 1 <= k < cells.len() implies (#[trigger] ls[cells[k] as int]).len() > 0 && ls[cells[k] as int][0]
        == cells[k - 1] by {
        assert(cells[k] == chain[m - 1 - k]);
        assert(cells[k - 1] == chain[m - 1 - k + 1]);
        assert(ls[chain[m - 1 - k] as int].len() > 0);
    }
    assert forall|a: int, b: int| 0 <= a < b < cells.len() implies area[#[trigger] cells[a] as int] < area[#[trigger] cells[b] as int] by {
        assert(cells[a] == chain[m - 1 - a]);
        assert(cells[b] == chain[m - 1 - b]);
    }
    assert forall|a: int, b: int| 0 <= a < b < cells.len() implies #[trigger] cells[a] != #[trigger] cells[b] by {
        assert(cells[a] == chain[m - 1 - a]);
        assert(cells[b] == chain[m - 1 - b]);
        assert(area[chain[m - 1 - a] as int] < area[chain[m - 1 - b] as int]);
    }
}

/// A mouth among fewer rivers is one among more.
proof fn lemma_mouth_of_extend(r: Seq<u32>, area: Seq<u32>, cells: Seq<Seq<u32>>, extra: Seq<u32>, count1: int, count2: int, s: int, mouth: Mouth)
    requires
        count1 <= count2,
        count1 <= cells.len(),
        mouth_of(r, area, cells, count1, s, mouth),
    ensures
        mouth_of(r, area, cells.push(extra), count2, s, mouth),
{
    match mouth {
        Mouth::Outlet(o) => {},
        Mouth::Junction { river, point } => {
            assert(cells.push(extra)[river as int] == cells[river as int]);
        },
    }
}

/// What adding the traced course `cells` (its start `start`, its mouth `mouth`) to the tracing
/// state starts from: the state before, the course's shape, and the river table after it.
spec fn course_added_pre(
    r: Seq<u32>,
    st: Seq<u32>,
    area: Seq<u32>,
    min_area: u32,
    ls: Seq<Seq<u32>>,
    cells_g: Seq<Seq<u32>>,
    mouths_g: Seq<Mouth>,
    river_of0: Seq<u32>,
    river_of1: Seq<u32>,
    p1: Seq<(u32, Mouth)>,
    start: u32,
    mouth: Mouth,
    cells: Seq<u32>,
) -> bool {
    &&& r.len() < u32::MAX
    &&& forall|i: int| 0 <= i < r.len() ==> #[trigger] r[i] < r.len()
    &&& downstream_first(r, st)
    &&& areas_add_up(r, st, area)
    &&& river_donor_lists(r, area, min_area, ls)
    &&& trace_state(r, st, area, min_area, ls, cells_g, mouths_g, river_of0, p1.push((start, mouth)))
    &&& cells_g.len() + 1 < NO_RIVER
    &&& 0 < cells.len() <= r.len()
    &&& cells[cells.len() - 1] == start
    &&& ls[cells[0] as int].len() == 0
    &&& forall|k: int| 0 <= k < cells.len() ==> #[trigger] cells[k] < r.len() && is_river(r, area, min_area, cells[k] as int)
        && river_of0[cells[k] as int] == NO_RIVER && st.contains(cells[k])
    &&& forall|k: int| 1 <= k < cells.len() ==> (#[trigger] ls[cells[k] as int]).len() > 0 && ls[cells[k] as int][0] == cells[k - 1]
    &&& forall|a: int, b: int| 0 <= a < b < cells.len() ==> area[#[trigger] cells[a] as int] < area[#[trigger] cells[b] as int]
    &&& forall|a: int, b: int| 0 <= a < b < cells.len() ==> #[trigger] cells[a] != #[trigger] cells[b]
    &&& river_of1.len() == r.len()
    &&& forall|a: int| 0 <= a < cells.len() ==> river_of1[#[trigger] cells[a] as int] == cells_g.len()
    &&& forall|y: int| 0 <= y < r.len() ==> #[trigger] river_of1[y] == river_of0[y] || (river_of1[y] == cells_g.len()
        && cells.contains(y as u32))
}

/// The facts the clauses of the state after a course rest on.
#[verifier::rlimit(30)]
proof fn lemma_added_common(
    r: Seq<u32>,
    st: Seq<u32>,
    area: Seq<u32>,
    min_area: u32,
    ls: Seq<Seq<u32>>,
    cells_g: Seq<Seq<u32>>,
    mouths_g: Seq<Mouth>,
    river_of0: Seq<u32>,
    river_of1: Seq<u32>,
    p1: Seq<(u32, Mouth)>,
    start: u32,
    mouth: Mouth,
    cells: Seq<u32>,
)
    requires
        course_added_pre(r, st, area, min_area, ls, cells_g, mouths_g, river_of0, river_of1, p1, start, mouth, cells),
    ensures
        ({
            let p0 = p1.push((start, mouth));
            &&& start < r.len()
            &&& is_start(r, ls, start as int)
            &&& mouth_of(r, area, cells_g, cells_g.len() as int, start as int, mouth)
            &&& forall|k: int| 0 <= k < p1.len() ==> #[trigger] p0[k] == p1[k]
        }),
        forall|a: int| 0 <= a < cells.len() - 1 ==> r[#[trigger] cells[a] as int] == cells[a + 1],
        forall|y: int| 0 <= y < r.len() && river_of0[y] != NO_RIVER ==> #[trigger] river_of1[y] == river_of0[y],
        forall|y: int| 0 <= y < r.len() && !cells.contains(y as u32) ==> #[trigger] river_of1[y] == river_of0[y],
        forall|k: int| 0 <= k < p1.len() ==> !cells.contains(#[trigger] p1[k].0),
        forall|k: int| 0 <= k < p1.len() ==> is_outlet(r, r[#[trigger] p1[k].0 as int] as int) || river_of0[r[p1[k].0 as int]
            as int] != NO_RIVER,
        ({
            let tu = tributaries_upto(ls, cells, cells_g.len() as u32, cells.len() as int);
            forall|t: int| 0 <= t < tu.len() ==> {
                let d = (#[trigger] tu[t]).0;
                let p = tu[t].1->point as int;
                &&& tu[t].1 is Junction
                &&& tu[t].1->river == cells_g.len()
                &&& 0 <= p < cells.len()
                &&& d < r.len()
                &&& r[d as int] == cells[p]
                &&& ls[cells[p] as int].contains(d)
                &&& ls[cells[p] as int][0] != d
                &&& is_river(r, area, min_area, d as int)
                &&& river_of0[d as int] == NO_RIVER
                &&& !cells.contains(d)
            }
        }),
        ({
            let tu = tributaries_upto(ls, cells, cells_g.len() as u32, cells.len() as int);
            &&& forall|p: int, a: int| 0 <= p < cells.len() && 1 <= a < ls[cells[p] as int].len() ==> tu.contains(
                (#[trigger] ls[cells[p] as int][a], Mouth::Junction { river: cells_g.len() as u32, point: p as u32 }),
            )
            &&& forall|t1: int, t2: int| 0 <= t1 < t2 < tu.len() ==> (#[trigger] tu[t1]).0 != (#[trigger] tu[t2]).0
        }),
{
    let n = r.len();
    let m = cells.len() as int;
    let index = cells_g.len() as u32;
    let p0 = p1.push((start, mouth));
    let tu = tributaries_upto(ls, cells, index, m);
    lemma_tributaries(r, area, min_area, ls, cells, index, m);
    let last = p1.len() as int;
    assert(p0[last] == (start, mouth));
    assert(p0[last].0 == start);
    assert forall|k: int| 0 <= k < p1.len() implies #[trigger] p0[k] == p1[k] by {}
    assert forall|a: int| 0 <= a < m - 1 implies r[#[trigger] cells[a] as int] == cells[a + 1] by {
        lemma_list_facts(r, area, min_area, ls, cells[a + 1] as int);
        assert(ls[cells[a + 1] as int][0] == cells[a]);
    }
    assert forall|y: int| 0 <= y < n && river_of0[y] != NO_RIVER implies #[trigger] river_of1[y] == river_of0[y] by {
        if river_of1[y] != river_of0[y] {
            let a = choose|a: int| 0 <= a < m && cells[a] == y as u32;
            assert(river_of0[cells[a] as int] == NO_RIVER);
        }
    }
    assert forall|k: int| 0 <= k < p1.len() implies is_outlet(r, r[#[trigger] p1[k].0 as int] as int) || river_of0[r[p1[k].0
        as int] as int] != NO_RIVER by {
        assert(p0[k] == p1[k]);
        match p1[k].1 {
            Mouth::Outlet(o) => {},
            Mouth::Junction { river, point } => {
                assert(cells_g[river as int][point as int] == r[p1[k].0 as int]);
                assert(river_of0[cells_g[river as int][point as int] as int] == river);
            },
        }
    }
    assert forall|k: int| 0 <= k < p1.len() implies !cells.contains(#[trigger] p1[k].0) by {
        assert(p0[k] == p1[k]);
        if cells.contains(p1[k].0) {
            let a = choose|a: int| 0 <= a < m && cells[a] == p1[k].0;
            if a == m - 1 {
                assert(p0[k].0 != p0[last].0);
            } else {
                assert(r[cells[a] as int] == cells[a + 1]);
                assert(river_of0[cells[a + 1] as int] == NO_RIVER);
                assert(is_river(r, area, min_area, cells[a + 1] as int));
            }
        }
    }
    assert forall|t: int| 0 <= t < tu.len() implies {
        let d = (#[trigger] tu[t]).0;
        let p = tu[t].1->point as int;
        &&& tu[t].1 is Junction
        &&& tu[t].1->river == cells_g.len()
        &&& 0 <= p < cells.len()
        &&& d < r.len()
        &&& r[d as int] == cells[p]
        &&& ls[cells[p] as int].contains(d)
        &&& ls[cells[p] as int][0] != d
        &&& is_river(r, area, min_area, d as int)
        &&& river_of0[d as int] == NO_RIVER
        &&& !cells.contains(d)
    } by {
        let d = tu[t].0;
        let p = tu[t].1->point as int;
        lemma_list_facts(r, area, min_area, ls, cells[p] as int);
        let w = choose|w: int| 0 <= w < ls[cells[p] as int].len() && ls[cells[p] as int][w] == d;
        assert(ls[cells[p] as int][w] == d);
        if river_of0[d as int] != NO_RIVER {
            assert(river_of0[r[d as int] as int] != NO_RIVER);
        }
        if cells.contains(d) {
            let a = choose|a: int| 0 <= a < m && cells[a] == d;
            if a < m - 1 {
                assert(r[cells[a] as int] == cells[a + 1]);
                if a + 1 != p {
                    assert(cells[a + 1] != cells[p]);
                }
                assert(ls[cells[p] as int][0] == cells[p - 1]);
            } else {
                lemma_receiver_larger(r, st, area, d as int);
                if p < m - 1 {
                    assert(area[cells[p] as int] < area[cells[m - 1] as int]);
                }
            }
        }
    }
}

/// After a course: every course is one, ends at its mouth, and its cells have its river.
proof fn lemma_added_courses(
    r: Seq<u32>,
    st: Seq<u32>,
    area: Seq<u32>,
    min_area: u32,
    ls: Seq<Seq<u32>>,
    cells_g: Seq<Seq<u32>>,
    mouths_g: Seq<Mouth>,
    river_of0: Seq<u32>,
    river_of1: Seq<u32>,
    p1: Seq<(u32, Mouth)>,
    start: u32,
    mouth: Mouth,
    cells: Seq<u32>,
)
    requires
        course_added_pre(r, st, area, min_area, ls, cells_g, mouths_g, river_of0, river_of1, p1, start, mouth, cells),
    ensures
        ({
            let cn = cells_g.push(cells);
            let mn = mouths_g.push(mouth);
            &&& forall|j: int| 0 <= j < cn.len() ==> course_ok(r, area, min_area, ls, #[trigger] cn[j])
            &&& forall|j: int| 0 <= j < cn.len() ==> mouth_of(r, area, cn, j, cn[j][cn[j].len() - 1] as int, #[trigger] mn[j])
            &&& forall|j: int, k: int| 0 <= j < cn.len() && 0 <= k < cn[j].len() ==> river_of1[#[trigger] cn[j][k] as int] == j
        }),
{
    lemma_added_common(r, st, area, min_area, ls, cells_g, mouths_g, river_of0, river_of1, p1, start, mouth, cells);
    let n = r.len();
    let old_len = cells_g.len() as int;
    let cn = cells_g.push(cells);
    let mn = mouths_g.push(mouth);
    assert forall|j: int| 0 <= j < cn.len() implies course_ok(r, area, min_area, ls, #[trigger] cn[j]) by {
        if j < old_len {
            assert(cn[j] == cells_g[j]);
        } else {
            assert(cn[j] == cells);
        }
    }
    assert forall|j: int| 0 <= j < cn.len() implies mouth_of(r, area, cn, j, cn[j][cn[j].len() - 1] as int, #[trigger] mn[j]) by {
        if j < old_len {
            assert(cn[j] == cells_g[j] && mn[j] == mouths_g[j]);
            lemma_mouth_of_extend(r, area, cells_g, cells, j, j, cells_g[j][cells_g[j].len() - 1] as int, mouths_g[j]);
        } else {
            assert(cn[j] == cells && mn[j] == mouth);
            lemma_mouth_of_extend(r, area, cells_g, cells, old_len, old_len, start as int, mouth);
        }
    }
    assert forall|j: int, k: int| 0 <= j < cn.len() && 0 <= k < cn[j].len() implies river_of1[#[trigger] cn[j][k] as int] == j by {
        if j < old_len {
            assert(cn[j] == cells_g[j]);
            assert(course_ok(r, area, min_area, ls, cells_g[j]));
            assert(cells_g[j][k] < n);
            assert(river_of0[cells_g[j][k] as int] == j);
        } else {
            assert(cn[j] == cells);
        }
    }
}

/// After a course: the river table points into the courses, at cells on the stack, and a cell
/// with a river drains into an outlet or a cell with a river.
proof fn lemma_added_table(
    r: Seq<u32>,
    st: Seq<u32>,
    area: Seq<u32>,
    min_area: u32,
    ls: Seq<Seq<u32>>,
    cells_g: Seq<Seq<u32>>,
    mouths_g: Seq<Mouth>,
    river_of0: Seq<u32>,
    river_of1: Seq<u32>,
    p1: Seq<(u32, Mouth)>,
    start: u32,
    mouth: Mouth,
    cells: Seq<u32>,
)
    requires
        course_added_pre(r, st, area, min_area, ls, cells_g, mouths_g, river_of0, river_of1, p1, start, mouth, cells),
    ensures
        ({
            let cn = cells_g.push(cells);
            &&& forall|x: int| 0 <= x < r.len() && river_of1[x] != NO_RIVER ==> #[trigger] river_of1[x] < cn.len()
                && cn[river_of1[x] as int].contains(x as u32)
            &&& forall|x: int| 0 <= x < r.len() && river_of1[x] != NO_RIVER ==> #[trigger] st.contains(x as u32)
            &&& forall|x: int| 0 <= x < r.len() && #[trigger] river_of1[x] != NO_RIVER ==> is_outlet(r, r[x] as int)
                || river_of1[r[x] as int] != NO_RIVER
        }),
{
    lemma_added_common(r, st, area, min_area, ls, cells_g, mouths_g, river_of0, river_of1, p1, start, mouth, cells);
    let n = r.len();
    let m = cells.len() as int;
    let index = cells_g.len() as u32;
    let cn = cells_g.push(cells);
    assert forall|x: int| 0 <= x < n && river_of1[x] != NO_RIVER implies #[trigger] river_of1[x] < cn.len() && cn[river_of1[x] as int].contains(
        x as u32,
    ) && st.contains(x as u32) by {
        if cells.contains(x as u32) {
            let a = choose|a: int| 0 <= a < m && cells[a] == x as u32;
            assert(river_of1[cells[a] as int] == index);
            assert(cn[index as int] == cells);
        } else {
            assert(river_of1[x] == river_of0[x]);
            assert(cn[river_of0[x] as int] == cells_g[river_of0[x] as int]);
        }
    }
    assert forall|x: int| 0 <= x < n && #[trigger] river_of1[x] != NO_RIVER implies is_outlet(r, r[x] as int) || river_of1[r[x]
        as int] != NO_RIVER by {
        if cells.contains(x as u32) {
            let a = choose|a: int| 0 <= a < m && cells[a] == x as u32;
            if a < m - 1 {
                assert(r[cells[a] as int] == cells[a + 1]);
                assert(river_of1[cells[a + 1] as int] == index);
            } else {
                match mouth {
                    Mouth::Outlet(o) => {},
                    Mouth::Junction { river, point } => {
                        assert(cells_g[river as int][point as int] == r[x]);
                        assert(course_ok(r, area, min_area, ls, cells_g[river as int]));
                        assert(river_of0[cells_g[river as int][point as int] as int] == river);
                        assert(river_of1[r[x] as int] == river_of0[r[x] as int]);
                    },
                }
            }
        } else {
            assert(river_of1[x] == river_of0[x]);
            if !is_outlet(r, r[x] as int) {
                assert(river_of0[r[x] as int] != NO_RIVER);
                assert(river_of1[r[x] as int] == river_of0[r[x] as int]);
            }
        }
    }
}

/// After a course: the pending starts are fresh river starts with their mouths, no one twice,
/// and every river donor of a cell with a river has one or is pending.
#[verifier::rlimit(30)]
proof fn lemma_added_pending(
    r: Seq<u32>,
    st: Seq<u32>,
    area: Seq<u32>,
    min_area: u32,
    ls: Seq<Seq<u32>>,
    cells_g: Seq<Seq<u32>>,
    mouths_g: Seq<Mouth>,
    river_of0: Seq<u32>,
    river_of1: Seq<u32>,
    p1: Seq<(u32, Mouth)>,
    start: u32,
    mouth: Mouth,
    cells: Seq<u32>,
)
    requires
        course_added_pre(r, st, area, min_area, ls, cells_g, mouths_g, river_of0, river_of1, p1, start, mouth, cells),
    ensures
        ({
            let n = r.len();
            let cn = cells_g.push(cells);
            let pn = p1 + tributaries_upto(ls, cells, cells_g.len() as u32, cells.len() as int);
            &&& forall|k: int| 0 <= k < pn.len() ==> #[trigger] pn[k].0 < n && is_river(r, area, min_area, pn[k].0 as int)
                && river_of1[pn[k].0 as int] == NO_RIVER && is_start(r, ls, pn[k].0 as int) && mouth_of(
                r,
                area,
        cn,
                cn.len() as int,
                pn[k].0 as int,
                pn[k].1,
            ) && st.contains(pn[k].0)
            &&& forall|a: int, b: int| 0 <= a < b < pn.len() ==> #[trigger] pn[a].0 != #[trigger] pn[b].0
            &&& forall|x: int, a: int| 0 <= x < n && river_of1[x] != NO_RIVER && 0 <= a < ls[x].len() ==> river_of1[
                #[trigger] ls[x][a] as int] != NO_RIVER || exists|k: int| 0 <= k < pn.len() && #[trigger] pn[k].0 == ls[x][a]
        }),
{
    lemma_added_common(r, st, area, min_area, ls, cells_g, mouths_g, river_of0, river_of1, p1, start, mouth, cells);
    let n = r.len();
    let m = cells.len() as int;
    let old_len = cells_g.len() as int;
    let index = cells_g.len() as u32;
    let p0 = p1.push((start, mouth));
    let tu = tributaries_upto(ls, cells, index, m);
    let pn = p1 + tu;
    let cn = cells_g.push(cells);
    assert forall|k: int| 0 <= k < pn.len() implies #[trigger] pn[k].0 < n && is_river(r, area, min_area, pn[k].0 as int)
        && river_of1[pn[k].0 as int] == NO_RIVER && is_start(r, ls, pn[k].0 as int) && mouth_of(
        r,
        area,
        cn,
        cn.len() as int,
        pn[k].0 as int,
        pn[k].1,
    ) && st.contains(pn[k].0) by {
        if k < p1.len() {
            assert(pn[k] == p1[k] && p0[k] == p1[k]);
            assert(p0[k].0 == p1[k].0);
            lemma_mouth_of_extend(r, area, cells_g, cells, old_len, old_len + 1, p1[k].0 as int, p1[k].1);
            assert(river_of1[p1[k].0 as int] == river_of0[p1[k].0 as int]);
        } else {
            let t = k - p1.len();
            assert(pn[k] == tu[t]);
            let d = tu[t].0;
            let p = tu[t].1->point as int;
            assert(r[d as int] == cells[p]);
            assert(cn[index as int] == cells);
            assert(st.contains(r[d as int]));
            assert(river_of1[d as int] == river_of0[d as int]);
        }
    }
    assert forall|a: int, b: int| 0 <= a < b < pn.len() implies #[trigger] pn[a].0 != #[trigger] pn[b].0 by {
        if b < p1.len() {
            assert(pn[a] == p0[a] && pn[b] == p0[b]);
        } else if a >= p1.len() {
            assert(pn[a] == tu[a - p1.len()] && pn[b] == tu[b - p1.len()]);
        } else {
            assert(pn[a] == p1[a]);
            let t = b - p1.len();
            assert(pn[b] == tu[t]);
            let d = tu[t].0;
            let p = tu[t].1->point as int;
            if p1[a].0 == d {
                assert(r[d as int] == cells[p]);
                assert(is_river(r, area, min_area, cells[p] as int));
                assert(river_of0[cells[p] as int] == NO_RIVER);
            }
        }
    }
    assert forall|x: int, a: int| 0 <= x < n && river_of1[x] != NO_RIVER && 0 <= a < ls[x].len() implies river_of1[
        #[trigger] ls[x][a] as int] != NO_RIVER || exists|k: int| 0 <= k < pn.len() && #[trigger] pn[k].0 == ls[x][a] by {
        let d = ls[x][a];
        if cells.contains(x as u32) {
            let p = choose|p: int| 0 <= p < m && cells[p] == x as u32;
            if a == 0 {
                assert(p >= 1);
                assert(ls[cells[p] as int][0] == cells[p - 1]);
                assert(river_of1[cells[p - 1] as int] == index);
            } else {
                let e = (ls[cells[p] as int][a], Mouth::Junction { river: index, point: p as u32 });
                assert(tu.contains(e));
                let t = choose|t: int| 0 <= t < tu.len() && tu[t] == e;
                assert(pn[p1.len() + t] == e);
            }
        } else {
            assert(river_of1[x] == river_of0[x]);
            lemma_list_facts(r, area, min_area, ls, x);
            if river_of0[d as int] != NO_RIVER {
                assert(river_of1[d as int] == river_of0[d as int]);
            } else {
                let k = choose|k: int| 0 <= k < p0.len() && #[trigger] p0[k].0 == d;
                if k == p1.len() {
                    assert(river_of1[cells[m - 1] as int] == index);
                } else {
                    assert(pn[k] == p1[k]);
                }
            }
        }
    }
}

/// Adding a traced course keeps the tracing state: its cells get their river, its tributaries
/// go to the pending starts.
proof fn lemma_course_added(
    r: Seq<u32>,
    st: Seq<u32>,
    area: Seq<u32>,
    min_area: u32,
    ls: Seq<Seq<u32>>,
    cells_g: Seq<Seq<u32>>,
    mouths_g: Seq<Mouth>,
    river_of0: Seq<u32>,
    river_of1: Seq<u32>,
    p1: Seq<(u32, Mouth)>,
    start: u32,
    mouth: Mouth,
    cells: Seq<u32>,
)
    requires
        course_added_pre(r, st, area, min_area, ls, cells_g, mouths_g, river_of0, river_of1, p1, start, mouth, cells),
    ensures
        trace_state(
            r,
            st,
            area,
            min_area,
            ls,
            cells_g.push(cells),
            mouths_g.push(mouth),
            river_of1,
            p1 + tributaries_upto(ls, cells, cells_g.len() as u32, cells.len() as int),
        ),
{
    lemma_added_courses(r, st, area, min_area, ls, cells_g, mouths_g, river_of0, river_of1, p1, start, mouth, cells);
    lemma_added_table(r, st, area, min_area, ls, cells_g, mouths_g, river_of0, river_of1, p1, start, mouth, cells);
    lemma_added_pending(r, st, area, min_area, ls, cells_g, mouths_g, river_of0, river_of1, p1, start, mouth, cells);
}

/// What the tracing knows of the mouths up to cell `i`: those with an index up to `i` have a
/// river or are pending, and no other has either.
spec fn mouths_upto(
    r: Seq<u32>,
    area: Seq<u32>,
    min_area: u32,
    river_of: Seq<u32>,
    pending: Seq<(u32, Mouth)>,
    i: int,
) -> bool {
    &&& forall|x: int| 0 <= x <= i && is_river(r, area, min_area, x) && is_outlet(r, r[x] as int) ==> #[trigger] river_of[x]
        != NO_RIVER || exists|k: int| 0 <= k < pending.len() && #[trigger] pending[k].0 == x
    &&& forall|x: int| 0 <= x < r.len() && river_of[x] != NO_RIVER && #[trigger] is_outlet(r, r[x] as int) ==> x <= i
    &&& forall|k: int| 0 <= k < pending.len() && #[trigger] is_outlet(r, r[pending[k].0 as int] as int) ==> pending[k].0 == i
        && forall|x: int| 0 <= x < r.len() && river_of[x] != NO_RIVER && #[trigger] is_outlet(r, r[x] as int) ==> x < i
}

/// Whether the rivers that reach an outlet come in the order of their last cells.
spec fn trunks_in_order(cells: Seq<Seq<u32>>, mouths: Seq<Mouth>) -> bool {
    forall|j1: int, j2: int|
        0 <= j1 < j2 < cells.len() && (#[trigger] mouths[j1]) is Outlet && (#[trigger] mouths[j2]) is Outlet ==> cells[j1][cells[j1].len()
            - 1] < cells[j2][cells[j2].len() - 1]
}

/// Adding a course keeps the trunks in order: a trunk is traced from the mouth of the
/// current index, after every trunk before it.
proof fn lemma_added_order(
    r: Seq<u32>,
    st: Seq<u32>,
    area: Seq<u32>,
    min_area: u32,
    ls: Seq<Seq<u32>>,
    cells_g: Seq<Seq<u32>>,
    mouths_g: Seq<Mouth>,
    river_of0: Seq<u32>,
    river_of1: Seq<u32>,
    p1: Seq<(u32, Mouth)>,
    start: u32,
    mouth: Mouth,
    cells: Seq<u32>,
    i: int,
)
    requires
        course_added_pre(r, st, area, min_area, ls, cells_g, mouths_g, river_of0, river_of1, p1, start, mouth, cells),
        mouths_upto(r, area, min_area, river_of0, p1.push((start, mouth)), i),
        trunks_in_order(cells_g, mouths_g),
    ensures
        trunks_in_order(cells_g.push(cells), mouths_g.push(mouth)),
{
    lemma_added_common(r, st, area, min_area, ls, cells_g, mouths_g, river_of0, river_of1, p1, start, mouth, cells);
    let p0 = p1.push((start, mouth));
    let old_len = cells_g.len() as int;
    let cn = cells_g.push(cells);
    let mn = mouths_g.push(mouth);
    assert(p0[p1.len() as int].0 == start);
    assert forall|j1: int, j2: int|
        0 <= j1 < j2 < cn.len() && (#[trigger] mn[j1]) is Outlet && (#[trigger] mn[j2]) is Outlet implies cn[j1][cn[j1].len()
            - 1] < cn[j2][cn[j2].len() - 1] by {
        assert(cn[j1] == cells_g[j1] && mn[j1] == mouths_g[j1]);
        if j2 == old_len {
            assert(cn[j2] == cells && mn[j2] == mouth);
            assert(is_outlet(r, r[p0[p1.len() as int].0 as int] as int));
            let y = cells_g[j1][cells_g[j1].len() - 1];
            assert(mouth_of(r, area, cells_g, j1, y as int, mouths_g[j1]));
            assert(course_ok(r, area, min_area, ls, cells_g[j1]));
            assert(river_of0[y as int] == j1);
            assert(is_outlet(r, r[y as int] as int));
        } else {
            assert(cn[j2] == cells_g[j2] && mn[j2] == mouths_g[j2]);
        }
    }
}

/// Adding a course keeps what the tracing knows of the mouths.
#[verifier::rlimit(80)]
proof fn lemma_added_mouths(
    r: Seq<u32>,
    st: Seq<u32>,
    area: Seq<u32>,
    min_area: u32,
    ls: Seq<Seq<u32>>,
    cells_g: Seq<Seq<u32>>,
    mouths_g: Seq<Mouth>,
    river_of0: Seq<u32>,
    river_of1: Seq<u32>,
    p1: Seq<(u32, Mouth)>,
    start: u32,
    mouth: Mouth,
    cells: Seq<u32>,
    i: int,
)
    requires
        course_added_pre(r, st, area, min_area, ls, cells_g, mouths_g, river_of0, river_of1, p1, start, mouth, cells),
        mouths_upto(r, area, min_area, river_of0, p1.push((start, mouth)), i),
        0 <= i < r.len(),
    ensures
        mouths_upto(r, area, min_area, river_of1, p1 + tributaries_upto(ls, cells, cells_g.len() as u32, cells.len() as int), i),
{
    lemma_added_common(r, st, area, min_area, ls, cells_g, mouths_g, river_of0, river_of1, p1, start, mouth, cells);
    let m = cells.len() as int;
    let p0 = p1.push((start, mouth));
    let tu = tributaries_upto(ls, cells, cells_g.len() as u32, m);
    let pn = p1 + tu;
    assert(p0[p1.len() as int].0 == start);
    assert forall|x: int| 0 <= x <= i && is_river(r, area, min_area, x) && is_outlet(r, r[x] as int) implies #[trigger] river_of1[x]
        != NO_RIVER || exists|k: int| 0 <= k < pn.len() && #[trigger] pn[k].0 == x by {
        if river_of0[x] != NO_RIVER {
            assert(river_of1[x] == river_of0[x]);
        } else {
            let k = choose|k: int| 0 <= k < p0.len() && #[trigger] p0[k].0 == x;
            if k == p1.len() {
                assert(river_of1[cells[m - 1] as int] == cells_g.len());
            } else {
                assert(pn[k] == p1[k]);
            }
        }
    }
    assert forall|x: int| 0 <= x < r.len() && river_of1[x] != NO_RIVER && #[trigger] is_outlet(r, r[x] as int) implies x <= i by {
        if cells.contains(x as u32) {
            let a = choose|a: int| 0 <= a < m && cells[a] == x as u32;
            if a < m - 1 {
                assert(r[cells[a] as int] == cells[a + 1]);
                assert(is_river(r, area, min_area, cells[a + 1] as int));
            } else {
                assert(is_outlet(r, r[p0[p1.len() as int].0 as int] as int));
            }
        } else {
            assert(river_of1[x] == river_of0[x]);
        }
    }
    assert forall|k: int| 0 <= k < pn.len() && #[trigger] is_outlet(r, r[pn[k].0 as int] as int) implies pn[k].0 == i && forall|
        x: int,
    | 0 <= x < r.len() && river_of1[x] != NO_RIVER && #[trigger] is_outlet(r, r[x] as int) ==> x < i by {
        if k < p1.len() {
            assert(pn[k] == p1[k] && p0[k] == p1[k]);
            assert forall|x: int| 0 <= x < r.len() && river_of1[x] != NO_RIVER && #[trigger] is_outlet(r, r[x] as int) implies x
                < i by {
                if cells.contains(x as u32) {
                    let a = choose|a: int| 0 <= a < m && cells[a] == x as u32;
                    if a < m - 1 {
                        assert(r[cells[a] as int] == cells[a + 1]);
                        assert(is_river(r, area, min_area, cells[a + 1] as int));
                    } else {
                        assert(is_outlet(r, r[p0[p1.len() as int].0 as int] as int));
                        assert(p0[k].0 != p0[p1.len() as int].0);
                    }
                } else {
                    assert(river_of1[x] == river_of0[x]);
                }
            }
        } else {
            let t = k - p1.len();
            assert(pn[k] == tu[t]);
            let p = tu[t].1->point as int;
            assert(is_river(r, area, min_area, cells[p] as int));
        }
    }
}

/// When nothing is pending and every mouth has its river, every river cell on the stack has
/// one: the cell it drains into has one, and it is among that cell's river donors.
proof fn lemma_covered(
    r: Seq<u32>,
    st: Seq<u32>,
    area: Seq<u32>,
    min_area: u32,
    ls: Seq<Seq<u32>>,
    cells: Seq<Seq<u32>>,
    mouths: Seq<Mouth>,
    river_of: Seq<u32>,
    q: int,
)
    requires
        r.len() < u32::MAX,
        forall|i: int| 0 <= i < r.len() ==> #[trigger] r[i] < r.len(),
        downstream_first(r, st),
        areas_add_up(r, st, area),
        river_donor_lists(r, area, min_area, ls),
        trace_state(r, st, area, min_area, ls, cells, mouths, river_of, Seq::empty()),
        mouths_upto(r, area, min_area, river_of, Seq::empty(), r.len() - 1),
        0 <= q < st.len(),
    ensures
        is_river(r, area, min_area, st[q] as int) ==> river_of[st[q] as int] != NO_RIVER,
    decreases q,
{
    lemma_stack_facts(r, st, q);
    let x = st[q] as int;
    if is_river(r, area, min_area, x) {
        if is_outlet(r, r[x] as int) {
            assert(river_of[x] != NO_RIVER);
        } else {
            let q2 = choose|q2: int| 0 <= q2 < q && #[trigger] st[q2] == r[x];
            assert(st.contains(x as u32));
            lemma_receiver_larger(r, st, area, x);
            lemma_covered(r, st, area, min_area, ls, cells, mouths, river_of, q2);
            assert(river_of[r[x] as int] != NO_RIVER);
            let c = r[x] as int;
            assert(ls[c].contains(x as u32));
            let a = choose|a: int| 0 <= a < ls[c].len() && ls[c][a] == x as u32;
            assert(river_of[ls[c][a] as int] != NO_RIVER);
        }
    }
}

/// Pushing mouth `i` onto the empty worklist keeps the tracing state.
proof fn lemma_mouth_pushed(
    r: Seq<u32>,
    st: Seq<u32>,
    area: Seq<u32>,
    min_area: u32,
    ls: Seq<Seq<u32>>,
    cells: Seq<Seq<u32>>,
    mouths: Seq<Mouth>,
    river_of: Seq<u32>,
    pending: Seq<(u32, Mouth)>,
    i: int,
)
    requires
        r.len() < u32::MAX,
        forall|y: int| 0 <= y < r.len() ==> #[trigger] r[y] < r.len(),
        downstream_first(r, st),
        pending.len() == 0,
        trace_state(r, st, area, min_area, ls, cells, mouths, river_of, pending),
        mouths_upto(r, area, min_area, river_of, pending, i - 1),
        0 <= i < r.len(),
        is_river(r, area, min_area, i),
        is_outlet(r, r[i] as int),
    ensures
        trace_state(r, st, area, min_area, ls, cells, mouths, river_of, pending.push((i as u32, Mouth::Outlet(r[i])))),
        mouths_upto(r, area, min_area, river_of, pending.push((i as u32, Mouth::Outlet(r[i]))), i),
{
    let n = r.len();
    let p = pending.push((i as u32, Mouth::Outlet(r[i])));
    assert(p[0].0 == i as u32);
    if river_of[i] != NO_RIVER {
        assert(i <= i - 1);
    }
    let o = r[i] as int;
    assert(is_outlet(r, o));
    assert(st.contains(o as u32));
    assert(st.contains(i as u32));
    assert forall|x: int, a: int| 0 <= x < n && river_of[x] != NO_RIVER && 0 <= a < ls[x].len() implies river_of[
        #[trigger] ls[x][a] as int] != NO_RIVER || exists|k: int| 0 <= k < p.len() && #[trigger] p[k].0 == ls[x][a] by {
        if river_of[ls[x][a] as int] == NO_RIVER {
            let k = choose|k: int| 0 <= k < pending.len() && #[trigger] pending[k].0 == ls[x][a];
        }
    }
    assert forall|x: int| 0 <= x <= i && is_river(r, area, min_area, x) && is_outlet(r, r[x] as int) implies #[trigger] river_of[x]
        != NO_RIVER || exists|k: int| 0 <= k < p.len() && #[trigger] p[k].0 == x by {
        if x == i {
            assert(p[0].0 == x);
        } else if river_of[x] == NO_RIVER {
            let k = choose|k: int| 0 <= k < pending.len() && #[trigger] pending[k].0 == x;
        }
    }
}

/// Cell `i`, not a mouth, leaves what the tracing knows of the mouths as it was.
proof fn lemma_mouths_next(
    r: Seq<u32>,
    area: Seq<u32>,
    min_area: u32,
    river_of: Seq<u32>,
    pending: Seq<(u32, Mouth)>,
    i: int,
)
    requires
        mouths_upto(r, area, min_area, river_of, pending, i - 1),
        pending.len() == 0,
        !(is_river(r, area, min_area, i) && is_outlet(r, r[i] as int)),
    ensures
        mouths_upto(r, area, min_area, river_of, pending, i),
{
}

/// Giving cells a river leaves the table's length.
proof fn lemma_assigned_len(river_of: Seq<u32>, cells: Seq<u32>, index: u32, k: int)
    requires
        0 <= k <= cells.len(),
        forall|a: int| 0 <= a < cells.len() ==> #[trigger] cells[a] < river_of.len(),
    ensures
        assigned_upto(river_of, cells, index, k).len() == river_of.len(),
    decreases k,
{
    if k > 0 {
        lemma_assigned_len(river_of, cells, index, k - 1);
    }
}

/// At the end of the tracing, the cells with a river are the river cells on the stack.
proof fn lemma_traced(
    r: Seq<u32>,
    st: Seq<u32>,
    area: Seq<u32>,
    min_area: u32,
    ls: Seq<Seq<u32>>,
    cells: Seq<Seq<u32>>,
    mouths: Seq<Mouth>,
    river_of: Seq<u32>,
    pending: Seq<(u32, Mouth)>,
)
    requires
        r.len() < u32::MAX,
        forall|i: int| 0 <= i < r.len() ==> #[trigger] r[i] < r.len(),
        downstream_first(r, st),
        areas_add_up(r, st, area),
        river_donor_lists(r, area, min_area, ls),
        pending.len() == 0,
        trace_state(r, st, area, min_area, ls, cells, mouths, river_of, pending),
        mouths_upto(r, area, min_area, river_of, pending, r.len() - 1),
    ensures
        forall|x: int| 0 <= x < r.len() ==> (#[trigger] river_of[x] != NO_RIVER <==> (st.contains(x as u32) && is_river(
            r,
            area,
            min_area,
            x,
        ))),
{
    assert(pending =~= Seq::empty());
    assert forall|x: int| 0 <= x < r.len() implies (#[trigger] river_of[x] != NO_RIVER <==> (st.contains(x as u32) && is_river(
        r,
        area,
        min_area,
        x,
    ))) by {
        if river_of[x] != NO_RIVER {
            let j = river_of[x] as int;
            assert(course_ok(r, area, min_area, ls, cells[j]));
            let k = choose|k: int| 0 <= k < cells[j].len() && cells[j][k] == x as u32;
        }
        if st.contains(x as u32) && is_river(r, area, min_area, x) {
            let q = choose|q: int| 0 <= q < st.len() && st[q] == x as u32;
            lemma_covered(r, st, area, min_area, ls, cells, mouths, river_of, q);
        }
    }
}

/// The mouths of `rivers`, in order.
pub open spec fn river_mouths(rivers: Seq<RiverCourse>) -> Seq<Mouth> {
    rivers.map_values(|v: RiverCourse| v.mouth)
}

/// Whether `rivers` and `river_of` are the traced network: every river a course ending at its
/// mouth among the rivers before it, with the catchments of its cells and the order of its
/// last cell; the trunks in the order of their mouths, every river's tributaries (theirs and so
/// on) right after it, and the rivers that join one river in [`joins_before`] order; every cell of a river has that river in `river_of`; and the cells with a river
/// are exactly the river cells on the stack.
pub open spec fn traced(
    r: Seq<u32>,
    st: Seq<u32>,
    area: Seq<u32>,
    min_area: u32,
    ls: Seq<Seq<u32>>,
    order: Seq<u8>,
    rivers: Seq<RiverCourse>,
    river_of: Seq<u32>,
) -> bool {
    &&& river_of.len() == r.len()
    &&& forall|j: int| 0 <= j < rivers.len() ==> course_ok(r, area, min_area, ls, (#[trigger] rivers[j]).cells@)
    &&& forall|j: int| 0 <= j < rivers.len() ==> mouth_of(
        r,
        area,
        rivers.map_values(|c: RiverCourse| c.cells@),
        j,
        rivers[j].cells@[rivers[j].cells@.len() - 1] as int,
        (#[trigger] rivers[j]).mouth,
    )
    &&& forall|j1: int, j2: int|
        0 <= j1 < j2 < rivers.len() && (#[trigger] rivers[j1]).mouth is Outlet && (#[trigger] rivers[j2]).mouth is Outlet
            ==> rivers[j1].cells@[rivers[j1].cells@.len() - 1] < rivers[j2].cells@[rivers[j2].cells@.len() - 1]
    &&& forall|a: int, b: int, c: int|
        #![trigger flows_into(river_mouths(rivers), c, a), flows_into(river_mouths(rivers), b, a)]
        0 <= a < b < c < rivers.len() && flows_into(river_mouths(rivers), c, a) ==> flows_into(
            river_mouths(rivers),
            b,
            a,
        )
    &&& forall|j1: int, j2: int|
        0 <= j1 < j2 < rivers.len() && same_river((#[trigger] rivers[j1]).mouth, (#[trigger] rivers[j2]).mouth)
            ==> joins_before(
            area,
            rivers[j1].mouth,
            rivers[j1].cells@[rivers[j1].cells@.len() - 1],
            rivers[j2].mouth,
            rivers[j2].cells@[rivers[j2].cells@.len() - 1],
        )
    &&& forall|j: int| 0 <= j < rivers.len() ==> (#[trigger] rivers[j]).order == order[rivers[j].cells@[rivers[j].cells@.len()
        - 1] as int]
    &&& forall|j: int| 0 <= j < rivers.len() ==> (#[trigger] rivers[j]).area@.len() == rivers[j].cells@.len()
    &&& forall|j: int, k: int| 0 <= j < rivers.len() && 0 <= k < rivers[j].cells@.len() ==> #[trigger] rivers[j].area@[k]
        == area[rivers[j].cells@[k] as int]
    &&& forall|j: int, k: int| 0 <= j < rivers.len() && 0 <= k < rivers[j].cells@.len() ==> river_of[
        #[trigger] rivers[j].cells@[k] as int] == j
    &&& forall|x: int| 0 <= x < r.len() && river_of[x] != NO_RIVER ==> #[trigger] river_of[x] < rivers.len()
        && rivers[river_of[x] as int].cells@.contains(x as u32)
    &&& forall|x: int| 0 <= x < r.len() ==> (#[trigger] river_of[x] != NO_RIVER <==> (st.contains(x as u32)
        && is_river(r, area, min_area, x)))
}

/// The rivers of the network from the river cells' donor lists `lists` (see
/// [`crate::rivers::river_donors`]) and their Strahler orders `order`: from every mouth (a
/// river cell draining into an outlet), in index order, the trunk upstream along the largest
/// donors to its head; every other river donor met on the way starts a tributary of its own,
/// traced the same way (a worklist, so the order is fixed). Returns the rivers and, per cell,
/// its river (`NO_RIVER` off the network).
pub fn trace_courses(
    receiver: &Vec<u32>,
    stack: &Vec<u32>,
    area: &Vec<u32>,
    min_area: u32,
    lists: &Vec<Vec<u32>>,
    order: &Vec<u8>,
) -> (result: (Vec<RiverCourse>, Vec<u32>))
    requires
        receiver@.len() < u32::MAX,
        forall|i: int| 0 <= i < receiver@.len() ==> #[trigger] receiver@[i] < receiver@.len(),
        downstream_first(receiver@, stack@),
        areas_add_up(receiver@, stack@, area@),
        river_donor_lists(receiver@, area@, min_area, lists@.map_values(|l: Vec<u32>| l@)),
        order@.len() == receiver@.len(),
    ensures
        traced(receiver@, stack@, area@, min_area, lists@.map_values(|l: Vec<u32>| l@), order@, result.0@, result.1@),
{
    let n = receiver.len();
    let ghost r = receiver@;
    let ghost st = stack@;
    let ghost ls = lists@.map_values(|l: Vec<u32>| l@);
    let mut river_of: Vec<u32> = Vec::new();
    let mut x: usize = 0;
    while x < n
        invariant
            x <= n,
            river_of@.len() == x,
            forall|y: int| 0 <= y < x ==> #[trigger] river_of@[y] == NO_RIVER,
        decreases n - x,
    {
        river_of.push(NO_RIVER);
        x = x + 1;
    }
    proof {
        lemma_all_unassigned(river_of@, n as int);
    }
    let ghost empty: Seq<(u32, Mouth)> = Seq::empty();
    assert(mouths_upto(r, area@, min_area, river_of@, empty, -1));
    assert(trace_state(r, st, area@, min_area, ls, Seq::empty(), Seq::empty(), river_of@, empty));
    assert(trunks_in_order(Seq::empty(), Seq::empty()));
    let mut courses: Vec<RiverCourse> = Vec::new();
    let ghost mut cells_g: Seq<Seq<u32>> = Seq::empty();
    let ghost mut mouths_g: Seq<Mouth> = Seq::empty();
    let mut pending: Vec<(u32, Mouth)> = Vec::new();
    let mut i: usize = 0;
    while i < n
        invariant
            i <= n,
            n == r.len(),
            r == receiver@,
            st == stack@,
            ls == lists@.map_values(|l: Vec<u32>| l@),
            n < u32::MAX,
            order@.len() == n,
            forall|y: int| 0 <= y < n ==> #[trigger] r[y] < n,
            downstream_first(r, st),
            areas_add_up(r, st, area@),
            river_donor_lists(r, area@, min_area, ls),
            pending@.len() == 0,
            trace_state(r, st, area@, min_area, ls, cells_g, mouths_g, river_of@, pending@),
            mouths_upto(r, area@, min_area, river_of@, pending@, i - 1),
            trunks_in_order(cells_g, mouths_g),
            junctions_ordered(area@, cells_g, mouths_g, pending@),
            courses_nested(mouths_g, pending@),
            courses@.len() == cells_g.len(),
            cells_g.len() + unassigned(river_of@, n as int) <= n,
            forall|j: int| 0 <= j < courses@.len() ==> (#[trigger] courses@[j]).cells@ == cells_g[j] && courses@[j].mouth
                == mouths_g[j] && courses@[j].order == order@[cells_g[j][cells_g[j].len() - 1] as int]
                && courses@[j].area@.len() == cells_g[j].len(),
            forall|j: int, k: int| 0 <= j < courses@.len() && 0 <= k < cells_g[j].len() ==> #[trigger] courses@[j].area@[k]
                == area@[cells_g[j][k] as int],
        decreases n - i,
    {
        let to = receiver[i] as usize;
        if to != i && area[i] >= min_area && receiver[to] as usize == to {
            proof {
                lemma_mouth_pushed(r, st, area@, min_area, ls, cells_g, mouths_g, river_of@, pending@, i as int);
            }
            pending.push((i as u32, Mouth::Outlet(to as u32)));
            proof {
                assert(pending@ =~= seq![(i as u32, Mouth::Outlet(to as u32))]);
            }
        } else {
            proof {
                lemma_mouths_next(r, area@, min_area, river_of@, pending@, i as int);
            }
        }
        while pending.len() > 0
            invariant
                i < n,
                n == r.len(),
                r == receiver@,
                st == stack@,
                ls == lists@.map_values(|l: Vec<u32>| l@),
                n < u32::MAX,
                order@.len() == n,
                forall|y: int| 0 <= y < n ==> #[trigger] r[y] < n,
                downstream_first(r, st),
                areas_add_up(r, st, area@),
                river_donor_lists(r, area@, min_area, ls),
                trace_state(r, st, area@, min_area, ls, cells_g, mouths_g, river_of@, pending@),
                mouths_upto(r, area@, min_area, river_of@, pending@, i as int),
                trunks_in_order(cells_g, mouths_g),
                junctions_ordered(area@, cells_g, mouths_g, pending@),
                courses_nested(mouths_g, pending@),
                courses@.len() == cells_g.len(),
                cells_g.len() + unassigned(river_of@, n as int) <= n,
                forall|j: int| 0 <= j < courses@.len() ==> (#[trigger] courses@[j]).cells@ == cells_g[j] && courses@[j].mouth
                    == mouths_g[j] && courses@[j].order == order@[cells_g[j][cells_g[j].len() - 1] as int]
                    && courses@[j].area@.len() == cells_g[j].len(),
                forall|j: int, k: int| 0 <= j < courses@.len() && 0 <= k < cells_g[j].len() ==> #[trigger] courses@[j].area@[k]
                    == area@[cells_g[j][k] as int],
            decreases unassigned(river_of@, n as int),
        {
            let ghost p0 = pending@;
            let (start, mouth) = pending.pop().unwrap();
            let ghost p1 = pending@;
            proof {
                assert(p0 =~= p1.push((start, mouth)));
                assert(junctions_ordered(area@, cells_g, mouths_g, p1.push((start, mouth))));
                assert(courses_nested(mouths_g, p1.push((start, mouth))));
            }
            // The trunk upstream along the largest donors.
            let mut chain: Vec<u32> = Vec::new();
            chain.push(start);
            let mut c = start;
            proof {
                lemma_trunk_start(r, st, area@, min_area, ls, cells_g, mouths_g, river_of@, p1, start, mouth);
                assert(chain@ =~= seq![start]);
            }
            while lists[c as usize].len() > 0
                invariant
                    n == r.len(),
                    ls == lists@.map_values(|l: Vec<u32>| l@),
                    n < u32::MAX,
                    forall|y: int| 0 <= y < n ==> #[trigger] r[y] < n,
                    downstream_first(r, st),
                    areas_add_up(r, st, area@),
                    river_donor_lists(r, area@, min_area, ls),
                    trace_state(r, st, area@, min_area, ls, cells_g, mouths_g, river_of@, p1.push((start, mouth))),
                    trunk_ok(r, st, area@, min_area, ls, river_of@, chain@),
                    chain@[0] == start,
                    c == chain@.last(),
                decreases area@[c as int],
            {
                let main = lists[c as usize][0];
                proof {
                    lemma_trunk_grows(r, st, area@, min_area, ls, cells_g, mouths_g, river_of@, p1.push((start, mouth)), chain@, main);
                }
                chain.push(main);
                c = main;
            }
            // Head first.
            let m = chain.len();
            let mut cells: Vec<u32> = Vec::new();
            let mut t: usize = 0;
            while t < m
                invariant
                    t <= m,
                    m == chain@.len(),
                    cells@.len() == t,
                    forall|k: int| 0 <= k < t ==> #[trigger] cells@[k] == chain@[m - 1 - k],
                decreases m - t,
            {
                cells.push(chain[m - 1 - t]);
                t = t + 1;
            }
            proof {
                lemma_course_shape(r, st, area@, min_area, ls, river_of@, chain@, cells@);
            }
            let index = courses.len() as u32;
            let ghost river_of0 = river_of@;
            let mut k: usize = 0;
            while k < m
                invariant
                    k <= m,
                    m == cells@.len(),
                    n == r.len(),
                    ls == lists@.map_values(|l: Vec<u32>| l@),
                    index == cells_g.len(),
                    index < NO_RIVER,
                    ls.len() == n,
                    river_of0.len() == n,
                    forall|a: int| 0 <= a < m ==> #[trigger] cells@[a] < n,
                    river_of@ == assigned_upto(river_of0, cells@, index, k as int),
                    pending@ == p1 + tributaries_upto(ls, cells@, index, k as int),
                decreases m - k,
            {
                let cell = cells[k];
                proof {
                    lemma_assigned_len(river_of0, cells@, index, k as int);
                }
                river_of.set(cell as usize, index);
                let len = lists[cell as usize].len();
                let mut a: usize = len;
                let ghost base = pending@;
                let ghost tr = tributaries(ls, cell, index, k as int);
                while a > 1
                    invariant
                        a <= len,
                        len == ls[cell as int].len(),
                        len == 0 ==> a == 0,
                        len > 0 ==> a >= 1,
                        cell < n,
                        n == r.len(),
                        ls.len() == n,
                        ls == lists@.map_values(|l: Vec<u32>| l@),
                        tr == tributaries(ls, cell, index, k as int),
                        pending@ == base + tr.take(len - a),
                    decreases a,
                {
                    a = a - 1;
                    let d = lists[cell as usize][a];
                    proof {
                        assert(tr.take(len - a) =~= tr.take(len - a - 1).push((d, Mouth::Junction { river: index, point: k as u32 })));
                    }
                    pending.push((d, Mouth::Junction { river: index, point: k as u32 }));
                    proof {
                        assert(pending@ =~= base + tr.take(len - a));
                    }
                }
                proof {
                    assert(tr.take(len - a) =~= tr);
                    assert(cells@[k as int] == cell);
                    assert(tributaries_upto(ls, cells@, index, k + 1) == tributaries_upto(ls, cells@, index, k as int) + tr);
                    assert(pending@ =~= p1 + tributaries_upto(ls, cells@, index, k + 1));
                }
                k = k + 1;
            }
            let mut ar: Vec<u32> = Vec::new();
            let mut q: usize = 0;
            while q < m
                invariant
                    q <= m,
                    m == cells@.len(),
                    area@.len() == n,
                    forall|a: int| 0 <= a < m ==> #[trigger] cells@[a] < n,
                    ar@.len() == q,
                    forall|a: int| 0 <= a < q ==> #[trigger] ar@[a] == area@[cells@[a] as int],
                decreases m - q,
            {
                ar.push(area[cells[q] as usize]);
                q = q + 1;
            }
            let ghost cs = cells@;
            proof {
                lemma_assigned_upto(river_of0, cs, index, m as int);
                lemma_unassigned_bound(river_of0, n as int);
                lemma_course_added(r, st, area@, min_area, ls, cells_g, mouths_g, river_of0, river_of@, p1, start, mouth, cs);
                lemma_added_mouths(r, st, area@, min_area, ls, cells_g, mouths_g, river_of0, river_of@, p1, start, mouth, cs, i as int);
                lemma_added_order(r, st, area@, min_area, ls, cells_g, mouths_g, river_of0, river_of@, p1, start, mouth, cs, i as int);
                lemma_added_junctions(r, st, area@, min_area, ls, cells_g, mouths_g, river_of0, river_of@, p1, start, mouth, cs);
                lemma_added_nesting(r, st, area@, min_area, ls, cells_g, mouths_g, river_of0, river_of@, p1, start, mouth, cs);
                cells_g = cells_g.push(cs);
                mouths_g = mouths_g.push(mouth);
            }
            let course = RiverCourse { cells, area: ar, order: order[start as usize], mouth };
            courses.push(course);
            proof {
                assert forall|j: int| 0 <= j < courses@.len() implies (#[trigger] courses@[j]).cells@ == cells_g[j]
                    && courses@[j].mouth == mouths_g[j] && courses@[j].order == order@[cells_g[j][cells_g[j].len() - 1] as int]
                    && courses@[j].area@.len() == cells_g[j].len() by {}
                assert forall|j: int, k: int| 0 <= j < courses@.len() && 0 <= k < cells_g[j].len() implies #[trigger] courses@[
                    j].area@[k] == area@[cells_g[j][k] as int] by {}
            }
        }
        i = i + 1;
    }
    proof {
        lemma_traced(r, st, area@, min_area, ls, cells_g, mouths_g, river_of@, pending@);
        assert(courses@.map_values(|c: RiverCourse| c.cells@) =~= cells_g);
        assert(river_mouths(courses@) =~= mouths_g);
        assert forall|j1: int, j2: int|
            0 <= j1 < j2 < courses@.len() && same_river((#[trigger] courses@[j1]).mouth, (#[trigger] courses@[j2]).mouth)
                implies joins_before(
            area@,
            courses@[j1].mouth,
            courses@[j1].cells@[courses@[j1].cells@.len() - 1],
            courses@[j2].mouth,
            courses@[j2].cells@[courses@[j2].cells@.len() - 1],
        ) by {
            assert(mouths_g[j1] == courses@[j1].mouth && mouths_g[j2] == courses@[j2].mouth);
        }
    }
    (courses, river_of)
}

/// The network.
#[derive(Clone, Debug)]
pub struct Rivers {
    /// Every river, the trunks (mouth at an outlet) before their tributaries.
    pub rivers: Vec<RiverCourse>,
    /// Per cell, the river through it (`NO_RIVER` for none).
    pub river_of: Vec<u32>,
    /// Per cell, the Strahler order (0 off the network).
    pub order: Vec<u8>,
}

impl Rivers {
    /// The highest Strahler order in the network (0 without a river).
    pub fn max_order(&self) -> (top: u8)
        ensures
            forall|j: int| 0 <= j < self.rivers@.len() ==> (#[trigger] self.rivers@[j]).order <= top,
            self.rivers@.len() == 0 ==> top == 0,
            self.rivers@.len() > 0 ==> exists|j: int| 0 <= j < self.rivers@.len() && (#[trigger] self.rivers@[j]).order == top,
    {
        let mut top: u8 = 0;
        let mut j: usize = 0;
        while j < self.rivers.len()
            invariant
                j <= self.rivers@.len(),
                forall|a: int| 0 <= a < j ==> (#[trigger] self.rivers@[a]).order <= top,
                j == 0 ==> top == 0,
                j > 0 ==> exists|a: int| 0 <= a < j && (#[trigger] self.rivers@[a]).order == top,
            decreases self.rivers@.len() - j,
        {
            if j == 0 || self.rivers[j].order > top {
                top = self.rivers[j].order;
            }
            j = j + 1;
        }
        top
    }
}

/// The rivers of a drained terrain (`receiver`, `stack`, `area`, see
/// [`crate::flow::drainage`]): the cells with at least `min_area` cells of catchment, their
/// Strahler orders and their courses (see [`trace_courses`]).
pub fn trace_rivers(receiver: &Vec<u32>, stack: &Vec<u32>, area: &Vec<u32>, min_area: u32) -> (rivers: Rivers)
    requires
        receiver@.len() < u32::MAX,
        forall|i: int| 0 <= i < receiver@.len() ==> #[trigger] receiver@[i] < receiver@.len(),
        downstream_first(receiver@, stack@),
        areas_add_up(receiver@, stack@, area@),
    ensures
        exists|ls: Seq<Seq<u32>>|
            {
                &&& river_donor_lists(receiver@, area@, min_area, ls)
                &&& strahler_orders_of(receiver@, stack@, area@, min_area, ls, rivers.order@)
                &&& traced(receiver@, stack@, area@, min_area, ls, rivers.order@, rivers.rivers@, rivers.river_of@)
            },
        forall|i: int| 0 <= i < receiver@.len() && stack@.contains(i as u32) && is_river(receiver@, area@, min_area, i)
            ==> order_fits(#[trigger] rivers.order@[i], area@[i]),
{
    let lists = river_donors(receiver, area, min_area);
    let order = strahler_orders(receiver, stack, area, min_area, &lists);
    let (courses, river_of) = trace_courses(receiver, stack, area, min_area, &lists, &order);
    let rivers = Rivers { rivers: courses, river_of, order };
    assert(river_donor_lists(receiver@, area@, min_area, lists@.map_values(|l: Vec<u32>| l@)));
    rivers
}

} // verus!
