//! The river network of a drained terrain: river cells are the cells whose catchment reaches
//! a threshold; each lists its river donors, the largest first (ties to the lowest index), and
//! takes its Strahler order (Strahler 1957) from theirs: a head is 1, else the highest of its
//! donors' orders, one more where two or more of them hold it.

use vstd::prelude::*;

use crate::flow::{areas_add_up, donor_sum, donors, downstream_first, is_outlet, lemma_donors_upto, lemma_stack_facts};

verus! {

/// Whether cell `i` is a river cell: not an outlet, with at least `min_area` of catchment.
pub open spec fn is_river(r: Seq<u32>, area: Seq<u32>, min_area: u32, i: int) -> bool {
    !is_outlet(r, i) && area[i] >= min_area
}

/// Whether donor `a` comes before donor `b`: a larger catchment, or an equal one and a lower
/// index.
pub open spec fn larger_donor(area: Seq<u32>, a: u32, b: u32) -> bool {
    area[a as int] > area[b as int] || (area[a as int] == area[b as int] && a < b)
}

/// Whether `lists` gives every river cell its river donors, the largest first (and no cell
/// else any).
pub open spec fn river_donor_lists(r: Seq<u32>, area: Seq<u32>, min_area: u32, lists: Seq<Seq<u32>>) -> bool {
    let n = r.len();
    &&& lists.len() == n
    &&& forall|i: int, a: int, b: int| 0 <= i < n && 0 <= a < b < lists[i].len() ==> larger_donor(
        area,
        #[trigger] lists[i][a],
        #[trigger] lists[i][b],
    )
    &&& forall|i: int, d: u32| 0 <= i < n ==> (#[trigger] lists[i].contains(d) <==> (is_river(r, area, min_area, i) && d < n
        && r[d as int] == i && is_river(r, area, min_area, d as int)))
}

/// Inserts `d` into `list`, kept in [`larger_donor`] order.
fn insert_donor(list: &mut Vec<u32>, area: &Vec<u32>, d: u32)
    requires
        d < area@.len(),
        forall|k: int| 0 <= k < old(list)@.len() ==> #[trigger] old(list)@[k] < area@.len(),
        forall|a: int, b: int| 0 <= a < b < old(list)@.len() ==> larger_donor(area@, #[trigger] old(list)@[a], #[trigger] old(list)@[b]),
        !old(list)@.contains(d),
    ensures
        forall|k: int| 0 <= k < final(list)@.len() ==> #[trigger] final(list)@[k] < area@.len(),
        forall|a: int, b: int| 0 <= a < b < final(list)@.len() ==> larger_donor(area@, #[trigger] final(list)@[a], #[trigger] final(list)@[b]),
        forall|y: u32| #[trigger] final(list)@.contains(y) <==> (old(list)@.contains(y) || y == d),
{
    let mut i: usize = 0;
    while i < list.len() && (area[list[i] as usize] > area[d as usize] || (area[list[i] as usize] == area[d as usize]
        && list[i] < d))
        invariant
            i <= list@.len(),
            d < area@.len(),
            list@ == old(list)@,
            forall|k: int| 0 <= k < list@.len() ==> #[trigger] list@[k] < area@.len(),
            forall|k: int| 0 <= k < i ==> larger_donor(area@, #[trigger] list@[k], d),
        decreases list@.len() - i,
    {
        i = i + 1;
    }
    let ghost before = list@;
    list.insert(i, d);
    proof {
        if i < before.len() {
            assert(!larger_donor(area@, before[i as int], d));
            assert(before[i as int] != d) by {
                assert(before.contains(before[i as int]));
            }
        }
        assert forall|a: int, b: int| 0 <= a < b < list@.len() implies larger_donor(area@, #[trigger] list@[a], #[trigger] list@[b]) by {
            if b < i {
            } else if a < i && b == i {
            } else if a < i {
                assert(list@[b] == before[b - 1]);
                if b - 1 >= 0 && a < b - 1 {
                    assert(larger_donor(area@, before[a], before[b - 1]));
                } else {
                    assert(larger_donor(area@, before[a], before[b - 1]));
                }
            } else if a == i {
                assert(list@[b] == before[b - 1]);
                if b - 1 > i {
                    assert(larger_donor(area@, before[i as int], before[b - 1]));
                }
            } else {
                assert(list@[a] == before[a - 1] && list@[b] == before[b - 1]);
            }
        }
        assert forall|k: int| 0 <= k < list@.len() implies #[trigger] list@[k] < area@.len() by {
            if k > i {
                assert(list@[k] == before[k - 1]);
            }
        }
        assert forall|y: u32| #[trigger] list@.contains(y) <==> (before.contains(y) || y == d) by {
            if list@.contains(y) {
                let k = choose|k: int| 0 <= k < list@.len() && list@[k] == y;
                if k < i {
                    assert(before[k] == y);
                } else if k > i {
                    assert(before[k - 1] == y);
                }
            }
            if before.contains(y) {
                let k = choose|k: int| 0 <= k < before.len() && before[k] == y;
                if k < i {
                    assert(list@[k] == y);
                } else {
                    assert(list@[k + 1] == y);
                }
            }
            if y == d {
                assert(list@[i as int] == d);
            }
        }
    }
}

/// Every river cell's river donors, the largest first (see [`river_donor_lists`]).
pub fn river_donors(receiver: &Vec<u32>, area: &Vec<u32>, min_area: u32) -> (lists: Vec<Vec<u32>>)
    requires
        receiver@.len() < u32::MAX,
        area@.len() == receiver@.len(),
        forall|i: int| 0 <= i < receiver@.len() ==> #[trigger] receiver@[i] < receiver@.len(),
    ensures
        river_donor_lists(receiver@, area@, min_area, lists@.map_values(|l: Vec<u32>| l@)),
{
    let n = receiver.len();
    let ghost r = receiver@;
    let mut lists: Vec<Vec<u32>> = Vec::new();
    let mut c: usize = 0;
    while c < n
        invariant
            c <= n,
            lists@.len() == c,
            forall|k: int| 0 <= k < c ==> (#[trigger] lists@[k])@.len() == 0,
        decreases n - c,
    {
        lists.push(Vec::new());
        c = c + 1;
    }
    let mut i: usize = 0;
    while i < n
        invariant
            i <= n,
            n == r.len(),
            r == receiver@,
            n < u32::MAX,
            area@.len() == n,
            forall|k: int| 0 <= k < n ==> #[trigger] r[k] < n,
            lists@.len() == n,
            forall|x: int, k: int| 0 <= x < n && 0 <= k < lists@[x]@.len() ==> #[trigger] lists@[x]@[k] < n,
            forall|x: int, a: int, b: int| 0 <= x < n && 0 <= a < b < lists@[x]@.len() ==> larger_donor(
                area@,
                #[trigger] lists@[x]@[a],
                #[trigger] lists@[x]@[b],
            ),
            forall|x: int, d: u32| 0 <= x < n ==> (#[trigger] lists@[x]@.contains(d) <==> (is_river(r, area@, min_area, x)
                && d < i && r[d as int] == x && is_river(r, area@, min_area, d as int))),
        decreases n - i,
    {
        let to = receiver[i] as usize;
        let ghost before = lists@;
        if to != i && area[i] >= min_area && receiver[to] as usize != to && area[to] >= min_area {
            let mut list: Vec<u32> = Vec::new();
            lists.set_and_swap(to, &mut list);
            proof {
                assert(!list@.contains(i as u32));
            }
            insert_donor(&mut list, area, i as u32);
            lists.set_and_swap(to, &mut list);
        }
        i = i + 1;
        proof {
            assert forall|x: int, d: u32| 0 <= x < n implies (#[trigger] lists@[x]@.contains(d) <==> (is_river(r, area@, min_area, x)
                && d < i && r[d as int] == x && is_river(r, area@, min_area, d as int))) by {
                if x != to as int {
                    assert(lists@[x] == before[x]);
                } else if !(to != (i - 1) as usize && area@[i - 1] >= min_area && r[to as int] != to && area@[to as int] >= min_area) {
                    assert(lists@[x] == before[x]);
                    if d == (i - 1) as u32 && r[d as int] == x {
                        assert(d as int == i - 1);
                    }
                }
            }
            assert forall|x: int, k: int| 0 <= x < n && 0 <= k < lists@[x]@.len() implies #[trigger] lists@[x]@[k] < n by {
                if x != to as int {
                    assert(lists@[x] == before[x]);
                } else if !(to != (i - 1) as usize && area@[i - 1] >= min_area && r[to as int] != to && area@[to as int] >= min_area) {
                    assert(lists@[x] == before[x]);
                }
            }
            assert forall|x: int, a: int, b: int| 0 <= x < n && 0 <= a < b < lists@[x]@.len() implies larger_donor(
                area@,
                #[trigger] lists@[x]@[a],
                #[trigger] lists@[x]@[b],
            ) by {
                if x != to as int {
                    assert(lists@[x] == before[x]);
                } else if !(to != (i - 1) as usize && area@[i - 1] >= min_area && r[to as int] != to && area@[to as int] >= min_area) {
                    assert(lists@[x] == before[x]);
                }
            }
        }
    }
    proof {
        let views = lists@.map_values(|l: Vec<u32>| l@);
        assert forall|x: int| 0 <= x < n implies #[trigger] views[x] == lists@[x]@ by {}
    }
    lists
}

/// The highest order among the first `n` of the donors `ds` (0 for none).
pub open spec fn top_order(order: Seq<u8>, ds: Seq<u32>, n: int) -> int
    decreases n,
{
    if n <= 0 {
        0
    } else {
        let rest = top_order(order, ds, n - 1);
        let here = order[ds[n - 1] as int] as int;
        if here > rest {
            here
        } else {
            rest
        }
    }
}

/// How many of the first `n` of the donors `ds` have order `m`.
pub open spec fn count_order(order: Seq<u8>, ds: Seq<u32>, n: int, m: int) -> int
    decreases n,
{
    if n <= 0 {
        0
    } else {
        count_order(order, ds, n - 1, m) + if order[ds[n - 1] as int] == m {
            1int
        } else {
            0
        }
    }
}

/// The Strahler order (Strahler 1957) a river cell takes from its river donors `ds`: a head is
/// 1; else the highest order among them, one more where at least two of them hold it.
pub open spec fn strahler_step(order: Seq<u8>, ds: Seq<u32>) -> int {
    if ds.len() == 0 {
        1
    } else {
        let m = top_order(order, ds, ds.len() as int);
        if count_order(order, ds, ds.len() as int, m) >= 2 {
            m + 1
        } else {
            m
        }
    }
}

/// The highest order is one of the donors', and no donor's is higher.
proof fn lemma_top_order(order: Seq<u8>, ds: Seq<u32>, n: int)
    requires
        0 <= n <= ds.len(),
    ensures
        forall|a: int| 0 <= a < n ==> order[#[trigger] ds[a] as int] <= top_order(order, ds, n),
        n > 0 ==> exists|a: int| 0 <= a < n && order[#[trigger] ds[a] as int] == top_order(order, ds, n),
        top_order(order, ds, n) >= 0,
    decreases n,
{
    if n > 0 {
        lemma_top_order(order, ds, n - 1);
        if n - 1 > 0 && top_order(order, ds, n) == top_order(order, ds, n - 1) {
            let a = choose|a: int| 0 <= a < n - 1 && order[#[trigger] ds[a] as int] == top_order(order, ds, n - 1);
            assert(order[ds[a] as int] == top_order(order, ds, n));
        } else {
            assert(order[ds[n - 1] as int] == top_order(order, ds, n));
        }
    }
}

/// Two donors hold an order counted twice; one holds an order counted once.
proof fn lemma_count_order(order: Seq<u8>, ds: Seq<u32>, n: int, m: int)
    requires
        0 <= n <= ds.len(),
    ensures
        count_order(order, ds, n, m) >= 0,
        count_order(order, ds, n, m) >= 1 ==> exists|a: int| 0 <= a < n && order[#[trigger] ds[a] as int] == m,
        count_order(order, ds, n, m) >= 2 ==> exists|a: int, b: int|
            0 <= a < b < n && order[#[trigger] ds[a] as int] == m && order[#[trigger] ds[b] as int] == m,
    decreases n,
{
    if n > 0 {
        lemma_count_order(order, ds, n - 1, m);
        if order[ds[n - 1] as int] == m {
            if count_order(order, ds, n, m) >= 2 {
                let a = choose|a: int| 0 <= a < n - 1 && order[#[trigger] ds[a] as int] == m;
                assert(order[ds[n - 1] as int] == m);
            }
        }
    }
}

/// The highest order and the counts over donors that all keep their orders stay as they were.
proof fn lemma_top_count_unchanged(before: Seq<u8>, after: Seq<u8>, ds: Seq<u32>, n: int, m: int)
    requires
        0 <= n <= ds.len(),
        forall|a: int| 0 <= a < n ==> after[#[trigger] ds[a] as int] == before[ds[a] as int],
    ensures
        top_order(after, ds, n) == top_order(before, ds, n),
        count_order(after, ds, n, m) == count_order(before, ds, n, m),
    decreases n,
{
    if n > 0 {
        assert(after[ds[n - 1] as int] == before[ds[n - 1] as int]);
        lemma_top_count_unchanged(before, after, ds, n - 1, m);
    }
}

/// Whether `order` gives every river cell on the stack its Strahler order from its donors'
/// (see [`strahler_step`]), and every other cell zero.
pub open spec fn strahler_orders_of(
    r: Seq<u32>,
    stack: Seq<u32>,
    area: Seq<u32>,
    min_area: u32,
    lists: Seq<Seq<u32>>,
    order: Seq<u8>,
) -> bool {
    &&& order.len() == r.len()
    &&& forall|i: int| 0 <= i < r.len() && stack.contains(i as u32) && is_river(r, area, min_area, i) ==> #[trigger] order[i]
        == strahler_step(order, lists[i])
    &&& forall|i: int| 0 <= i < r.len() && !(stack.contains(i as u32) && is_river(r, area, min_area, i)) ==> #[trigger] order[i]
        == 0
}

pub(crate) proof fn lemma_donor_sum_bounds(ds: Seq<u32>, area: Seq<u32>, x: u32, y: u32)
    requires
        ds.no_duplicates(),
    ensures
        donor_sum(ds, area) >= 0,
        ds.contains(x) ==> donor_sum(ds, area) >= area[x as int],
        ds.contains(x) && ds.contains(y) && x != y ==> donor_sum(ds, area) >= area[x as int] + area[y as int],
    decreases ds.len(),
{
    if ds.len() > 0 {
        let init = ds.drop_last();
        assert(init.no_duplicates());
        lemma_donor_sum_bounds(init, area, x, y);
        lemma_donor_sum_bounds(init, area, y, x);
        let last = ds.last();
        assert(forall|z: u32| ds.contains(z) && z != last ==> init.contains(z)) by {
            assert forall|z: u32| ds.contains(z) && z != last implies init.contains(z) by {
                let k = choose|k: int| 0 <= k < ds.len() && ds[k] == z;
                assert(k < ds.len() - 1);
                assert(init[k] == z);
            }
        }
        assert(!init.contains(last)) by {
            if init.contains(last) {
                let k = choose|k: int| 0 <= k < init.len() && init[k] == last;
                assert(ds[k] == ds[ds.len() - 1]);
            }
        }
    }
}

/// A river cell's order is at least one, and its catchment holds at least `2^(order - 1)`
/// cells.
pub open spec fn order_fits(order: u8, area: u32) -> bool {
    order >= 1 && vstd::arithmetic::power2::pow2((order - 1) as nat) <= area
}

/// The Strahler order of every river cell (see [`strahler_orders_of`]), upstream first along
/// `stack`, from the donor lists of [`river_donors`].
pub fn strahler_orders(
    receiver: &Vec<u32>,
    stack: &Vec<u32>,
    area: &Vec<u32>,
    min_area: u32,
    lists: &Vec<Vec<u32>>,
) -> (order: Vec<u8>)
    requires
        receiver@.len() < u32::MAX,
        forall|i: int| 0 <= i < receiver@.len() ==> #[trigger] receiver@[i] < receiver@.len(),
        downstream_first(receiver@, stack@),
        areas_add_up(receiver@, stack@, area@),
        river_donor_lists(receiver@, area@, min_area, lists@.map_values(|l: Vec<u32>| l@)),
    ensures
        strahler_orders_of(receiver@, stack@, area@, min_area, lists@.map_values(|l: Vec<u32>| l@), order@),
        forall|i: int| 0 <= i < receiver@.len() && stack@.contains(i as u32) && is_river(receiver@, area@, min_area, i)
            ==> order_fits(#[trigger] order@[i], area@[i]),
{
    let n = receiver.len();
    let ghost r = receiver@;
    let ghost st = stack@;
    let ghost ls = lists@.map_values(|l: Vec<u32>| l@);
    let mut order: Vec<u8> = Vec::new();
    let mut x: usize = 0;
    while x < n
        invariant
            x <= n,
            order@.len() == x,
            forall|y: int| 0 <= y < x ==> #[trigger] order@[y] == 0,
        decreases n - x,
    {
        order.push(0);
        x = x + 1;
    }
    let mut k = stack.len();
    let ghost mut done: Set<u32> = Set::empty();
    proof {
        assert forall|y: u32| #[trigger] done.contains(y) <==> st.skip(k as int).contains(y) by {
            assert(st.skip(k as int).len() == 0);
        }
    }
    while k > 0
        invariant
            n == r.len(),
            r == receiver@,
            st == stack@,
            ls == lists@.map_values(|l: Vec<u32>| l@),
            n < u32::MAX,
            forall|i: int| 0 <= i < n ==> #[trigger] r[i] < n,
            downstream_first(r, st),
            areas_add_up(r, st, area@),
            river_donor_lists(r, area@, min_area, ls),
            k <= st.len(),
            order@.len() == n,
            forall|y: u32| #[trigger] done.contains(y) <==> st.skip(k as int).contains(y),
            forall|y: int| 0 <= y < n && !(done.contains(y as u32) && is_river(r, area@, min_area, y)) ==> #[trigger] order@[y]
                == 0,
            forall|y: int| 0 <= y < n && done.contains(y as u32) && is_river(r, area@, min_area, y) ==> #[trigger] order@[y]
                == strahler_step(order@, ls[y]) && order_fits(order@[y], area@[y]),
        decreases k,
    {
        k = k - 1;
        let c = stack[k];
        let ghost before = order@;
        let ghost done0 = done;
        proof {
            lemma_stack_facts(r, st, k as int);
            lemma_donors_upto(r, c as int, n as int);
            lemma_step_facts(r, st, area@, min_area, ls, k as int, done0, before);
        }
        if receiver[c as usize] != c && area[c as usize] >= min_area {
            let ds = &lists[c as usize];
            assert(ds@ == ls[c as int]);
            let value: u8 = if ds.len() == 0 {
                1
            } else {
                let mut top: u8 = 0;
                let mut i: usize = 0;
                while i < ds.len()
                    invariant
                        i <= ds@.len(),
                        ds@ == ls[c as int],
                        order@ == before,
                        forall|a: int| 0 <= a < ds@.len() ==> #[trigger] ds@[a] < before.len(),
                        top as int == top_order(before, ds@, i as int),
                    decreases ds@.len() - i,
                {
                    let o = order[ds[i] as usize];
                    if o > top {
                        top = o;
                    }
                    i = i + 1;
                }
                let mut count: usize = 0;
                let mut i: usize = 0;
                while i < ds.len()
                    invariant
                        i <= ds@.len(),
                        ds@ == ls[c as int],
                        order@ == before,
                        forall|a: int| 0 <= a < ds@.len() ==> #[trigger] ds@[a] < before.len(),
                        count as int == count_order(before, ds@, i as int, top as int),
                        count <= i,
                    decreases ds@.len() - i,
                {
                    if order[ds[i] as usize] == top {
                        count = count + 1;
                    }
                    i = i + 1;
                }
                if count >= 2 {
                    top + 1
                } else {
                    top
                }
            };
            assert(value as int == strahler_step(before, ls[c as int]));
            order.set(c as usize, value);
        }
        proof {
            done = done0.insert(c);
            lemma_order_step(r, st, area@, min_area, ls, k as int, done0, done, before, order@);
        }
    }
    proof {
        assert forall|y: u32| #[trigger] done.contains(y) <==> st.contains(y) by {
            assert(st.skip(0) =~= st);
        }
    }
    order
}

/// What holds of position `k`'s cell before its order is set: its donors are done and fit,
/// and the order of two equal donors stays below 255.
proof fn lemma_step_facts(
    r: Seq<u32>,
    st: Seq<u32>,
    area: Seq<u32>,
    min_area: u32,
    ls: Seq<Seq<u32>>,
    k: int,
    done0: Set<u32>,
    order: Seq<u8>,
)
    requires
        r.len() < u32::MAX,
        forall|i: int| 0 <= i < r.len() ==> #[trigger] r[i] < r.len(),
        downstream_first(r, st),
        areas_add_up(r, st, area),
        river_donor_lists(r, area, min_area, ls),
        0 <= k < st.len(),
        order.len() == r.len(),
        forall|y: u32| #[trigger] done0.contains(y) <==> st.skip(k + 1).contains(y),
        forall|y: int| 0 <= y < r.len() && done0.contains(y as u32) && is_river(r, area, min_area, y) ==> #[trigger] order[y]
            == strahler_step(order, ls[y]) && order_fits(order[y], area[y]),
    ensures
        is_river(r, area, min_area, st[k] as int) ==> {
            let ds = ls[st[k] as int];
            &&& forall|a: int| 0 <= a < ds.len() ==> #[trigger] ds[a] < r.len() && done0.contains(ds[a])
                && order_fits(order[ds[a] as int], area[ds[a] as int])
            &&& count_order(order, ds, ds.len() as int, top_order(order, ds, ds.len() as int)) >= 2 ==> top_order(
                order,
                ds,
                ds.len() as int,
            ) < 255
            &&& 1 <= strahler_step(order, ds) && vstd::arithmetic::power2::pow2((strahler_step(order, ds) - 1) as nat)
                <= area[st[k] as int]
        },
{
    let c = st[k];
    let n = r.len();
    lemma_stack_facts(r, st, k);
    lemma_donors_upto(r, c as int, n as int);
    if is_river(r, area, min_area, c as int) {
        let ds = ls[c as int];
        let all = donors(r, c as int);
        assert(all.no_duplicates()) by {
            assert forall|a: int, b: int| 0 <= a < b < all.len() implies all[a] != all[b] by {
                assert(all[a] < all[b]);
            }
        }
        assert forall|a: int| 0 <= a < ds.len() implies #[trigger] ds[a] < n && done0.contains(ds[a])
            && order_fits(order[ds[a] as int], area[ds[a] as int]) by {
            let d = ds[a];
            assert(ds.contains(d));
            assert(all.contains(d));
            let w = choose|w: int| 0 <= w < all.len() && all[w] == d;
            assert(st.skip(k + 1).contains(all[w]));
        }
        assert(st.contains(c)) by {
            assert(st[k] == c);
        }
        assert(area[c as int] == 1 + donor_sum(all, area));
        vstd::arithmetic::power2::lemma2_to64();
        if ds.len() == 0 {
            lemma_donor_sum_bounds(all, area, c, c);
        } else {
            let len = ds.len() as int;
            lemma_top_order(order, ds, len);
            let m = top_order(order, ds, len);
            lemma_count_order(order, ds, len, m);
            let a0 = choose|a: int| 0 <= a < len && order[#[trigger] ds[a] as int] == m;
            let d = ds[a0];
            assert(ds.contains(d));
            assert(r[d as int] == c && d != c);
            assert(all.contains(d));
            lemma_donor_sum_bounds(all, area, d, d);
            assert(order_fits(order[d as int], area[d as int]));
            if count_order(order, ds, len, m) >= 2 {
                let (a, b) = choose|a: int, b: int|
                    0 <= a < b < len && order[#[trigger] ds[a] as int] == m && order[#[trigger] ds[b] as int] == m;
                let (d0, d1) = (ds[a], ds[b]);
                assert(ds.contains(d0) && ds.contains(d1));
                assert(r[d0 as int] == c && d0 != c);
                assert(r[d1 as int] == c && d1 != c);
                assert(all.contains(d0) && all.contains(d1));
                assert(larger_donor(area, ds[a], ds[b]));
                assert(d0 != d1);
                lemma_donor_sum_bounds(all, area, d0, d1);
                assert(order_fits(order[d0 as int], area[d0 as int]) && order_fits(order[d1 as int], area[d1 as int]));
                vstd::arithmetic::power2::lemma_pow2_unfold(m as nat);
                if m >= 33 {
                    vstd::arithmetic::power2::lemma_pow2_strictly_increases(32, (m - 1) as nat);
                }
                assert(m < 255);
            }
        }
    }
}

/// Setting position `k`'s order keeps every done cell's order what its donors give.
proof fn lemma_order_step(
    r: Seq<u32>,
    st: Seq<u32>,
    area: Seq<u32>,
    min_area: u32,
    ls: Seq<Seq<u32>>,
    k: int,
    done0: Set<u32>,
    done: Set<u32>,
    before: Seq<u8>,
    after: Seq<u8>,
)
    requires
        r.len() < u32::MAX,
        forall|i: int| 0 <= i < r.len() ==> #[trigger] r[i] < r.len(),
        downstream_first(r, st),
        areas_add_up(r, st, area),
        river_donor_lists(r, area, min_area, ls),
        0 <= k < st.len(),
        before.len() == r.len(),
        forall|y: u32| #[trigger] done0.contains(y) <==> st.skip(k + 1).contains(y),
        done == done0.insert(st[k]),
        forall|y: int| 0 <= y < r.len() && !(done0.contains(y as u32) && is_river(r, area, min_area, y)) ==> #[trigger] before[y]
            == 0,
        forall|y: int| 0 <= y < r.len() && done0.contains(y as u32) && is_river(r, area, min_area, y) ==> #[trigger] before[y]
            == strahler_step(before, ls[y]) && order_fits(before[y], area[y]),
        is_river(r, area, min_area, st[k] as int) ==> {
            let ds = ls[st[k] as int];
            &&& forall|a: int| 0 <= a < ds.len() ==> #[trigger] ds[a] < r.len() && done0.contains(ds[a])
            &&& 1 <= strahler_step(before, ds) && vstd::arithmetic::power2::pow2((strahler_step(before, ds) - 1) as nat)
                <= area[st[k] as int]
            &&& after == before.update(st[k] as int, strahler_step(before, ds) as u8)
        },
        !is_river(r, area, min_area, st[k] as int) ==> after == before,
    ensures
        forall|y: u32| #[trigger] done.contains(y) <==> st.skip(k).contains(y),
        forall|y: int| 0 <= y < r.len() && !(done.contains(y as u32) && is_river(r, area, min_area, y)) ==> #[trigger] after[y]
            == 0,
        forall|y: int| 0 <= y < r.len() && done.contains(y as u32) && is_river(r, area, min_area, y) ==> #[trigger] after[y]
            == strahler_step(after, ls[y]) && order_fits(after[y], area[y]),
{
    let c = st[k];
    let n = r.len();
    lemma_stack_facts(r, st, k);
    assert forall|y: u32| #[trigger] done.contains(y) <==> st.skip(k).contains(y) by {
        if st.skip(k).contains(y) {
            let w = choose|w: int| 0 <= w < st.skip(k).len() && #[trigger] st.skip(k)[w] == y;
            if w > 0 {
                assert(st.skip(k + 1)[w - 1] == y);
            }
        }
        if st.skip(k + 1).contains(y) {
            let w = choose|w: int| 0 <= w < st.skip(k + 1).len() && #[trigger] st.skip(k + 1)[w] == y;
            assert(st.skip(k)[w + 1] == y);
        }
        if y == c {
            assert(st.skip(k)[0] == c);
        }
    }
    assert(!done0.contains(c)) by {
        if st.skip(k + 1).contains(c) {
            let w = choose|w: int| 0 <= w < st.skip(k + 1).len() && #[trigger] st.skip(k + 1)[w] == c;
            assert(st[k + 1 + w] == st[k]);
        }
    }
    // No done cell lists c among its donors: its receiver comes before it.
    assert forall|y: int| 0 <= y < n && done0.contains(y as u32) implies !(#[trigger] ls[y]).contains(c) by {
        if ls[y].contains(c) {
            assert(r[c as int] == y);
            let q = choose|q: int| 0 <= q < k && #[trigger] st[q] == r[c as int];
            let w = choose|w: int| 0 <= w < st.skip(k + 1).len() && #[trigger] st.skip(k + 1)[w] == y as u32;
            assert(st[k + 1 + w] == st[q]);
        }
    }
    assert forall|y: int, a: int| 0 <= y < n && 0 <= a < ls[y].len() implies #[trigger] ls[y][a] < n by {
        assert(ls[y].contains(ls[y][a]));
    }
    if is_river(r, area, min_area, c as int) {
        let v = strahler_step(before, ls[c as int]);
        lemma_small_order(v, area[c as int]);
    }
    assert forall|y: int| 0 <= y < n && done.contains(y as u32) && is_river(r, area, min_area, y) implies #[trigger] after[y]
        == strahler_step(after, ls[y]) && order_fits(after[y], area[y]) by {
        let ds = ls[y];
        assert forall|a: int| 0 <= a < ds.len() implies #[trigger] ds[a] < before.len() by {
            assert(ls[y][a] < n);
        }
        if y == c as int {
            assert(!ds.contains(c)) by {
                if ds.contains(c) {
                    assert(r[c as int] == y);
                }
            }
            lemma_step_unchanged(before, after, ds, c);
        } else {
            assert(done0.contains(y as u32));
            assert(!ds.contains(c));
            if is_river(r, area, min_area, c as int) {
                lemma_step_unchanged(before, after, ds, c);
            }
        }
    }
}

/// An order whose `2^(order - 1)` fits in a catchment count is at most 32.
proof fn lemma_small_order(s: int, area: u32)
    requires
        s >= 1,
        vstd::arithmetic::power2::pow2((s - 1) as nat) <= area,
    ensures
        s <= 32,
{
    vstd::arithmetic::power2::lemma2_to64();
    if s > 33 {
        vstd::arithmetic::power2::lemma_pow2_strictly_increases(32, (s - 1) as nat);
    }
}

/// Changing the order of a cell that is not among `ds` leaves the step from `ds` as it was.
proof fn lemma_step_unchanged(before: Seq<u8>, after: Seq<u8>, ds: Seq<u32>, c: u32)
    requires
        !ds.contains(c),
        forall|y: int| 0 <= y < before.len() && y != c ==> #[trigger] after[y] == before[y],
        after.len() == before.len(),
        forall|a: int| 0 <= a < ds.len() ==> #[trigger] ds[a] < before.len(),
    ensures
        strahler_step(after, ds) == strahler_step(before, ds),
{
    assert forall|a: int| 0 <= a < ds.len() implies after[#[trigger] ds[a] as int] == before[ds[a] as int] by {
        assert(ds.contains(ds[a]));
    }
    let len = ds.len() as int;
    lemma_top_count_unchanged(before, after, ds, len, top_order(before, ds, len));
}

} // verus!
