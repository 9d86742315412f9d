//! Where the water of a heightfield goes, once every cell has its receiver (the cell it
//! drains into, itself for an outlet): the stack that orders the cells downstream first
//! (Braun & Willett 2013), so an implicit erosion step visits a cell after its receiver, and
//! the drainage area, an integer count of the cells upstream. Every choice is pinned: the
//! outlets in index order, each followed depth first by its donors in index order.

use vstd::prelude::*;

verus! {

/// The index of sample (x, y) of a `size × size` field, rows along y.
pub fn cell_index(size: u32, x: u32, y: u32) -> (i: usize)
    requires
        x < size,
        y < size,
        size as nat * size as nat <= usize::MAX,
    ensures
        i == y * size + x,
        i < size * size,
{
    assert(y * size + x < size * size) by (nonlinear_arith)
        requires
            x < size,
            y < size,
    ;
    (y as usize) * (size as usize) + x as usize
}

/// The coordinates (x, y) of index `i` of a `size`-wide field.
pub fn cell_coords(size: u32, i: usize) -> (xy: (u32, u32))
    requires
        size > 0,
        i < size * size,
    ensures
        xy.0 == (i as int) % (size as int),
        xy.1 == (i as int) / (size as int),
        xy.0 < size && xy.1 < size,
        xy.1 * size + xy.0 == i,
{
    let s = size as usize;
    assert(i / s < s) by (nonlinear_arith)
        requires
            i < s * s,
            s > 0,
    ;
    assert((i / s) * s + i % s == i) by (nonlinear_arith)
        requires
            s > 0,
    ;
    ((i % s) as u32, (i / s) as u32)
}

/// Whether sample (x, y) lies on the border of a `size × size` field.
pub fn on_border(size: u32, x: u32, y: u32) -> (border: bool)
    requires
        x < size,
        y < size,
    ensures
        border == (x == 0 || y == 0 || x + 1 == size || y + 1 == size),
{
    x == 0 || y == 0 || x + 1 == size || y + 1 == size
}

/// An index's coordinates give the index back, and a sample's index gives its coordinates.
pub proof fn coords_invert_index(size: nat, x: nat, y: nat)
    requires
        x < size,
        y < size,
    ensures
        (y * size + x) % size == x,
        (y * size + x) / size == y,
{
    vstd::arithmetic::div_mod::lemma_fundamental_div_mod_converse((y * size + x) as int, size as int, y as int, x as int);
}

/// The donors of cell `c` among the cells `0..upto`: the cells other than `c` that drain into
/// it, ascending.
pub open spec fn donors_upto(receiver: Seq<u32>, c: int, upto: int) -> Seq<u32>
    decreases upto,
{
    if upto <= 0 {
        Seq::empty()
    } else {
        let i = upto - 1;
        if receiver[i] == c && i != c {
            donors_upto(receiver, c, i).push(i as u32)
        } else {
            donors_upto(receiver, c, i)
        }
    }
}

/// The donors of cell `c`: every other cell that drains into it, ascending.
pub open spec fn donors(receiver: Seq<u32>, c: int) -> Seq<u32> {
    donors_upto(receiver, c, receiver.len() as int)
}

pub(crate) proof fn lemma_donors_upto(receiver: Seq<u32>, c: int, upto: int)
    requires
        0 <= upto <= receiver.len(),
        receiver.len() < u32::MAX,
    ensures
        forall|d: u32| #[trigger] donors_upto(receiver, c, upto).contains(d) <==> (d < upto && receiver[d as int] == c
            && d != c),
        forall|a: int, b: int| 0 <= a < b < donors_upto(receiver, c, upto).len() ==> #[trigger] donors_upto(receiver, c, upto)[a]
            < #[trigger] donors_upto(receiver, c, upto)[b],
        forall|a: int| 0 <= a < donors_upto(receiver, c, upto).len() ==> #[trigger] donors_upto(receiver, c, upto)[a] < upto,
    decreases upto,
{
    if upto > 0 {
        lemma_donors_upto(receiver, c, upto - 1);
        let prev = donors_upto(receiver, c, upto - 1);
        let i = upto - 1;
        if receiver[i] == c && i != c {
            let cur = prev.push(i as u32);
            assert(cur == donors_upto(receiver, c, upto));
            assert forall|a: int| 0 <= a < cur.len() implies #[trigger] cur[a] < upto by {
                if a < prev.len() {
                    assert(cur[a] == prev[a]);
                }
            }
            assert forall|a: int, b: int| 0 <= a < b < cur.len() implies #[trigger] cur[a] < #[trigger] cur[b] by {
                assert(cur[a] == prev[a]);
                assert(prev[a] < upto - 1);
                if b < prev.len() {
                    assert(cur[b] == prev[b]);
                    assert(prev[a] < prev[b]);
                } else {
                    assert(cur[b] == i as u32);
                }
            }
            assert forall|d: u32| #[trigger] cur.contains(d) <==> (d < upto && receiver[d as int] == c && d != c) by {
                if cur.contains(d) {
                    let k = choose|k: int| 0 <= k < cur.len() && cur[k] == d;
                    if k < prev.len() {
                        assert(prev[k] == d);
                        assert(prev.contains(d));
                        assert(d < upto - 1 && receiver[d as int] == c && d != c);
                    } else {
                        assert(cur[k] == i as u32);
                        assert(d as int == i);
                    }
                }
                if d < upto && receiver[d as int] == c && d != c {
                    if d == i {
                        assert(cur[prev.len() as int] == d);
                    } else {
                        assert(prev.contains(d));
                        let k = choose|k: int| 0 <= k < prev.len() && prev[k] == d;
                        assert(cur[k] == d);
                    }
                }
            }
        } else {
            assert(prev == donors_upto(receiver, c, upto));
            assert forall|d: u32| #[trigger] prev.contains(d) <==> (d < upto && receiver[d as int] == c && d != c) by {
                if d < upto && receiver[d as int] == c && d != c {
                    assert(d != i);
                }
            }
        }
    }
}

/// Whether cell `i` is an outlet: it drains into itself.
pub open spec fn is_outlet(receiver: Seq<u32>, i: int) -> bool {
    receiver[i] == i
}

/// Whether `stack` orders the cells of `receiver` downstream first: no cell twice, every
/// cell an outlet or after its receiver, every outlet there, and every donor of a cell there
/// too (so it holds exactly the cells that drain to an outlet).
pub open spec fn downstream_first(receiver: Seq<u32>, stack: Seq<u32>) -> bool {
    let n = receiver.len();
    &&& stack.no_duplicates()
    &&& forall|k: int| 0 <= k < stack.len() ==> #[trigger] stack[k] < n
    &&& forall|k: int|
        0 <= k < stack.len() ==> is_outlet(receiver, #[trigger] stack[k] as int) || stack.take(k).contains(
            receiver[stack[k] as int],
        )
    &&& forall|i: int| 0 <= i < n && is_outlet(receiver, i) ==> #[trigger] stack.contains(i as u32)
    &&& forall|i: int| 0 <= i < n && stack.contains(#[trigger] receiver[i]) ==> stack.contains(i as u32)
}

/// The place of `x` in `s`.
pub open spec fn position(s: Seq<u32>, x: u32) -> int {
    choose|j: int| 0 <= j < s.len() && s[j] == x
}

/// Whether the cell at `k` of `stack` drains, through the cells before it, into the cell at
/// `a`: it is that cell, or its receiver's does.
pub open spec fn stack_flows(receiver: Seq<u32>, stack: Seq<u32>, k: int, a: int) -> bool
    decreases k,
{
    if k == a {
        true
    } else if 0 <= k < stack.len() && !is_outlet(receiver, stack[k] as int) && 0 <= position(
        stack,
        receiver[stack[k] as int],
    ) < k {
        stack_flows(receiver, stack, position(stack, receiver[stack[k] as int]), a)
    } else {
        false
    }
}

/// Whether `stack` comes depth first in index order: the outlets ascending, the donors of one
/// cell ascending, and every cell followed at once by all the cells that drain through it.
pub open spec fn stack_in_order(receiver: Seq<u32>, stack: Seq<u32>) -> bool {
    &&& forall|k1: int, k2: int|
        0 <= k1 < k2 < stack.len() && is_outlet(receiver, #[trigger] stack[k1] as int) && is_outlet(
            receiver,
            #[trigger] stack[k2] as int,
        ) ==> stack[k1] < stack[k2]
    &&& forall|k1: int, k2: int|
        0 <= k1 < k2 < stack.len() && !is_outlet(receiver, #[trigger] stack[k1] as int) && !is_outlet(
            receiver,
            #[trigger] stack[k2] as int,
        ) && receiver[stack[k1] as int] == receiver[stack[k2] as int] ==> stack[k1] < stack[k2]
    &&& forall|a: int, b: int, c: int|
        #![trigger stack_flows(receiver, stack, c, a), stack_flows(receiver, stack, b, a)]
        0 <= a < b < c < stack.len() && stack_flows(receiver, stack, c, a) ==> stack_flows(receiver, stack, b, a)
}

/// The order of the stack and of the pending cells while it is built: the pending cells come
/// off in the order the stack takes them.
spec fn order_state(r: Seq<u32>, s: Seq<u32>, p: Seq<u32>) -> bool {
    &&& stack_in_order(r, s)
    &&& forall|k: int, m: int|
        0 <= k < s.len() && 0 <= m < p.len() && !is_outlet(r, #[trigger] s[k] as int) && !is_outlet(r, #[trigger] p[m] as int)
            && r[s[k] as int] == r[p[m] as int] ==> s[k] < p[m]
    &&& forall|m1: int, m2: int|
        0 <= m1 < m2 < p.len() && !is_outlet(r, #[trigger] p[m1] as int) && !is_outlet(r, #[trigger] p[m2] as int)
            && r[p[m1] as int] == r[p[m2] as int] ==> p[m2] < p[m1]
    &&& forall|a: int, b: int, m: int|
        #![trigger p[m], stack_flows(r, s, b, a)]
        0 <= a < b < s.len() && 0 <= m < p.len() && !is_outlet(r, p[m] as int) && stack_flows(
            r,
            s,
            position(s, r[p[m] as int]),
            a,
        ) ==> stack_flows(r, s, b, a)
    &&& forall|m1: int, m2: int|
        0 <= m1 < m2 < p.len() ==> !is_outlet(r, #[trigger] p[m1] as int) && !is_outlet(r, #[trigger] p[m2] as int)
            && stack_flows(r, s, position(s, r[p[m2] as int]), position(s, r[p[m1] as int]))
}

/// In a sequence without duplicates, the place of a value is where it is.
proof fn lemma_position(s: Seq<u32>, x: u32, j: int)
    requires
        s.no_duplicates(),
        0 <= j < s.len(),
        s[j] == x,
    ensures
        position(s, x) == j,
{
    assert(0 <= j < s.len() && s[j] == x);
}

/// Pushing a cell onto the stack changes none of the ways down of the cells before it.
proof fn lemma_stack_flows_push(r: Seq<u32>, s: Seq<u32>, c: u32, k: int, a: int)
    requires
        s.push(c).no_duplicates(),
        forall|q: int| 0 <= q < s.len() ==> is_outlet(r, #[trigger] s[q] as int) || s.take(q).contains(r[s[q] as int]),
        0 <= k < s.len(),
    ensures
        stack_flows(r, s.push(c), k, a) == stack_flows(r, s, k, a),
    decreases k,
{
    let sn = s.push(c);
    assert(sn[k] == s[k]);
    if k != a && !is_outlet(r, s[k] as int) {
        let x = r[s[k] as int];
        assert(s.take(k).contains(x));
        let j = choose|j: int| 0 <= j < s.take(k).len() && s.take(k)[j] == x;
        assert(s[j] == x && sn[j] == x);
        assert(s.no_duplicates()) by {
            assert forall|u: int, v: int| 0 <= u < v < s.len() implies s[u] != s[v] by {
                assert(sn[u] == s[u] && sn[v] == s[v]);
            }
        }
        lemma_position(s, x, j);
        lemma_position(sn, x, j);
        lemma_stack_flows_push(r, s, c, j, a);
    }
}

/// Draining into a cell is transitive.
proof fn lemma_stack_flows_trans(r: Seq<u32>, s: Seq<u32>, x: int, y: int, a: int)
    requires
        stack_flows(r, s, x, y),
        stack_flows(r, s, y, a),
    ensures
        stack_flows(r, s, x, a),
    decreases x,
{
    if x != y && x != a {
        lemma_stack_flows_trans(r, s, position(s, r[s[x] as int]), y, a);
    }
}

/// The stack of `receiver`: the outlets in index order, each followed depth first by its
/// donors in index order (see [`downstream_first`] and [`stack_in_order`]).
pub fn flow_stack(receiver: &Vec<u32>) -> (stack: Vec<u32>)
    requires
        receiver@.len() < u32::MAX,
        forall|i: int| 0 <= i < receiver@.len() ==> #[trigger] receiver@[i] < receiver@.len(),
    ensures
        downstream_first(receiver@, stack@),
        stack_in_order(receiver@, stack@),
{
    let n = receiver.len();
    let ghost r = receiver@;
    // Each cell's donors, ascending.
    let mut donors_of: Vec<Vec<u32>> = Vec::new();
    let mut c: usize = 0;
    while c < n
        invariant
            c <= n,
            n == r.len(),
            donors_of@.len() == c,
            forall|k: int| 0 <= k < c ==> (#[trigger] donors_of@[k])@ == Seq::<u32>::empty(),
        decreases n - c,
    {
        donors_of.push(Vec::new());
        c = c + 1;
    }
    let mut i: usize = 0;
    while i < n
        invariant
            i <= n,
            n == r.len(),
            r == receiver@,
            n < u32::MAX,
            forall|k: int| 0 <= k < n ==> #[trigger] r[k] < n,
            donors_of@.len() == n,
            forall|k: int| 0 <= k < n ==> (#[trigger] donors_of@[k])@ == donors_upto(r, k, i as int),
        decreases n - i,
    {
        let to = receiver[i] as usize;
        let ghost before = donors_of@;
        if to != i {
            let mut list: Vec<u32> = Vec::new();
            donors_of.set_and_swap(to, &mut list);
            list.push(i as u32);
            donors_of.set_and_swap(to, &mut list);
        }
        i = i + 1;
        proof {
            assert forall|k: int| 0 <= k < n implies (#[trigger] donors_of@[k])@ == donors_upto(r, k, i as int) by {
                if k != to as int || to == (i - 1) as usize {
                    assert(donors_of@[k] == before[k]);
                }
            }
        }
    }
    proof {
        assert forall|k: int| 0 <= k < n implies (#[trigger] donors_of@[k])@ == donors(r, k) by {}
    }
    let mut stack: Vec<u32> = Vec::new();
    let mut pending: Vec<u32> = Vec::new();
    let mut i: usize = 0;
    while i < n
        invariant
            i <= n,
            n == r.len(),
            r == receiver@,
            n < u32::MAX,
            forall|k: int| 0 <= k < n ==> #[trigger] r[k] < n,
            donors_of@.len() == n,
            forall|k: int| 0 <= k < n ==> (#[trigger] donors_of@[k])@ == donors(r, k),
            pending@.len() == 0,
            stack@.no_duplicates(),
            forall|k: int| 0 <= k < stack@.len() ==> #[trigger] stack@[k] < n,
            forall|k: int| 0 <= k < stack@.len() ==> is_outlet(r, #[trigger] stack@[k] as int)
                || stack@.take(k).contains(r[stack@[k] as int]),
            forall|k: int| 0 <= k < stack@.len() && is_outlet(r, #[trigger] stack@[k] as int) ==> stack@[k] < i,
            forall|j: int| 0 <= j < i && is_outlet(r, j) ==> #[trigger] stack@.contains(j as u32),
            forall|c: int, a: int| 0 <= c < n && stack@.contains(c as u32) && 0 <= a < donors(r, c).len()
                ==> stack@.contains(#[trigger] donors(r, c)[a]),
            stack_in_order(r, stack@),
        decreases n - i,
    {
        if receiver[i] as usize == i {
            proof {
                assert(!stack@.contains(i as u32)) by {
                    if stack@.contains(i as u32) {
                        let k = choose|k: int| 0 <= k < stack@.len() && stack@[k] == i as u32;
                        assert(is_outlet(r, stack@[k] as int));
                    }
                }
            }
            pending.push(i as u32);
            proof {
                assert(pending@[0] == i as u32);
                assert(order_state(r, stack@, pending@));
                assert forall|x: int, a: int| 0 <= x < n && stack@.contains(x as u32) && 0 <= a < donors(r, x).len()
                    implies stack@.contains(#[trigger] donors(r, x)[a]) || pending@.contains(donors(r, x)[a]) by {}
            }
            while pending.len() > 0
                invariant
                    i < n,
                    n == r.len(),
                    r == receiver@,
                    n < u32::MAX,
                    is_outlet(r, i as int),
                    forall|k: int| 0 <= k < n ==> #[trigger] r[k] < n,
                    donors_of@.len() == n,
                    forall|k: int| 0 <= k < n ==> (#[trigger] donors_of@[k])@ == donors(r, k),
                    stack_state(r, stack@, pending@, i as int),
                    order_state(r, stack@, pending@),
                decreases 2 * n - 2 * (stack@.len() + pending@.len()) + pending@.len(),
            {
                let ghost s0 = stack@;
                let ghost p0 = pending@;
                proof {
                    lemma_state_bounded(r, s0, p0, i as int);
                }
                let c = pending.pop().unwrap();
                let ghost p1 = pending@;
                proof {
                    assert(p0 == p1.push(c));
                    assert(p0[p0.len() - 1] == c);
                    assert(c < n);
                    lemma_donors_upto(r, c as int, n as int);
                }
                stack.push(c);
                let list = &donors_of[c as usize];
                let ghost ds = donors(r, c as int);
                assert(list@ == ds);
                let mut k = list.len();
                while k > 0
                    invariant
                        k <= ds.len(),
                        list@ == ds,
                        stack@ == s0.push(c),
                        pending@ == p1 + ds.skip(k as int).reverse(),
                    decreases k,
                {
                    k = k - 1;
                    pending.push(list[k]);
                    assert(ds.skip(k as int).reverse() =~= ds.skip(k + 1).reverse().push(ds[k as int]));
                }
                proof {
                    assert(ds.skip(0) == ds);
                    lemma_push_donors(r, s0, p1, c, ds, pending@, i as int);
                    lemma_push_order(r, s0, p1, c, ds, pending@, i as int);
                    lemma_state_bounded(r, stack@, pending@, i as int);
                }
            }
        }
        i = i + 1;
        proof {
            assert forall|k: int| 0 <= k < stack@.len() && is_outlet(r, #[trigger] stack@[k] as int) implies stack@[k] < i by {}
            assert forall|c: int, a: int| 0 <= c < n && stack@.contains(c as u32) && 0 <= a < donors(r, c).len()
                implies stack@.contains(#[trigger] donors(r, c)[a]) by {
                assert(stack@.contains(donors(r, c)[a]) || pending@.contains(donors(r, c)[a]));
            }
        }
    }
    proof {
        assert forall|x: int| 0 <= x < n && stack@.contains(#[trigger] r[x]) implies stack@.contains(x as u32) by {
            if is_outlet(r, x) {
            } else {
                let c = r[x] as int;
                lemma_donors_upto(r, c, n as int);
                assert(donors(r, c).contains(x as u32));
                let a = choose|a: int| 0 <= a < donors(r, c).len() && donors(r, c)[a] == x as u32;
                assert(stack@.contains(donors(r, c)[a]));
            }
        }
    }
    stack
}

/// A sequence of distinct values below `n` has at most `n` of them.
proof fn lemma_bounded_distinct(s: Seq<u32>, n: nat)
    requires
        s.no_duplicates(),
        forall|k: int| 0 <= k < s.len() ==> #[trigger] s[k] < n,
    ensures
        s.len() <= n,
{
    let values = s.to_set();
    s.unique_seq_to_set();
    let range = Set::new(|x: u32| x < n);
    assert(values.subset_of(range));
    lemma_range_set_len(n);
    vstd::set_lib::lemma_len_subset(values, range);
}

/// The values below `n` are `n` values.
proof fn lemma_range_set_len(n: nat)
    ensures
        Set::new(|x: u32| x < n).finite(),
        Set::new(|x: u32| x < n).len() <= n,
    decreases n,
{
    let s = Set::new(|x: u32| x < n);
    if n == 0 {
        assert(s =~= Set::empty());
    } else {
        lemma_range_set_len((n - 1) as nat);
        let prev = Set::new(|x: u32| x < (n - 1) as nat);
        if n - 1 <= u32::MAX {
            assert(s =~= prev.insert((n - 1) as u32));
        } else {
            assert(s =~= prev);
        }
    }
}

/// No cell twice on the stack or among the pending cells, none in both.
spec fn st_distinct(s: Seq<u32>, p: Seq<u32>) -> bool {
    &&& s.no_duplicates()
    &&& p.no_duplicates()
    &&& forall|k: int| 0 <= k < p.len() ==> !s.contains(#[trigger] p[k])
}

/// Every stacked and pending cell is a cell.
spec fn st_bounds(r: Seq<u32>, s: Seq<u32>, p: Seq<u32>) -> bool {
    &&& forall|k: int| 0 <= k < s.len() ==> #[trigger] s[k] < r.len()
    &&& forall|k: int| 0 <= k < p.len() ==> #[trigger] p[k] < r.len()
}

/// Every stacked cell is an outlet or after its receiver; every pending one an outlet or with
/// its receiver stacked.
spec fn st_order(r: Seq<u32>, s: Seq<u32>, p: Seq<u32>) -> bool {
    &&& forall|k: int| 0 <= k < s.len() ==> is_outlet(r, #[trigger] s[k] as int) || s.take(k).contains(r[s[k] as int])
    &&& forall|k: int| 0 <= k < p.len() ==> is_outlet(r, #[trigger] p[k] as int) || s.contains(r[p[k] as int])
}

/// No outlet after `i` seen, the outlets before `i` stacked, `i` seen.
spec fn st_outlets(r: Seq<u32>, s: Seq<u32>, p: Seq<u32>, i: int) -> bool {
    &&& forall|k: int| 0 <= k < s.len() && is_outlet(r, #[trigger] s[k] as int) ==> s[k] <= i
    &&& forall|k: int| 0 <= k < p.len() && is_outlet(r, #[trigger] p[k] as int) ==> p[k] <= i
    &&& forall|j: int| 0 <= j < i && is_outlet(r, j) ==> #[trigger] s.contains(j as u32)
    &&& (s.contains(i as u32) || p.contains(i as u32))
}

/// The donors of every stacked cell are seen.
spec fn st_closure(r: Seq<u32>, s: Seq<u32>, p: Seq<u32>) -> bool {
    forall|x: int, a: int| 0 <= x < r.len() && s.contains(x as u32) && 0 <= a < donors(r, x).len()
        ==> s.contains(#[trigger] donors(r, x)[a]) || p.contains(donors(r, x)[a])
}

/// The stack and the pending cells while the stack is built from outlet `i`.
spec fn stack_state(r: Seq<u32>, s: Seq<u32>, p: Seq<u32>, i: int) -> bool {
    &&& st_distinct(s, p)
    &&& st_bounds(r, s, p)
    &&& st_order(r, s, p)
    &&& st_outlets(r, s, p, i)
    &&& st_closure(r, s, p)
}

/// The stack and the pending cells hold no more cells than there are.
proof fn lemma_state_bounded(r: Seq<u32>, s: Seq<u32>, p: Seq<u32>, i: int)
    requires
        st_distinct(s, p),
        st_bounds(r, s, p),
    ensures
        s.len() + p.len() <= r.len(),
{
    let all = s + p;
    assert(all.no_duplicates()) by {
        assert forall|x: int, y: int| 0 <= x < y < all.len() implies all[x] != all[y] by {
            if y >= s.len() && x < s.len() {
                assert(all[y] == p[y - s.len()]);
                assert(all[x] == s[x]);
                assert(!s.contains(p[y - s.len()]));
            } else if x >= s.len() {
                assert(all[x] == p[x - s.len()] && all[y] == p[y - s.len()]);
            }
        }
    }
    assert forall|k: int| 0 <= k < all.len() implies #[trigger] all[k] < r.len() by {
        if k >= s.len() {
            assert(all[k] == p[k - s.len()]);
        }
    }
    lemma_bounded_distinct(all, r.len());
}

/// Donor `d` of `c` is unseen while `c` is pending: a seen donor would have `c` stacked.
proof fn lemma_donor_unseen(r: Seq<u32>, s0: Seq<u32>, p1: Seq<u32>, c: u32, d: u32)
    requires
        st_distinct(s0, p1.push(c)),
        st_order(r, s0, p1.push(c)),
        d < r.len(),
        r[d as int] == c,
        d != c,
    ensures
        !s0.contains(d),
        !p1.contains(d),
{
    let p0 = p1.push(c);
    assert(p0[p1.len() as int] == c);
    assert(!s0.contains(c));
    if s0.contains(d) {
        let k = choose|k: int| 0 <= k < s0.len() && s0[k] == d;
        assert(!is_outlet(r, s0[k] as int));
        assert(s0.take(k).contains(c));
        let q = choose|q: int| 0 <= q < k && s0.take(k)[q] == c;
        assert(s0[q] == c);
    }
    if p1.contains(d) {
        let k = choose|k: int| 0 <= k < p1.len() && p1[k] == d;
        assert(p0[k] == d);
        assert(!is_outlet(r, p0[k] as int));
        assert(s0.contains(c));
    }
}

/// What the pending cells are after `c` leaves them and its donors `ds` come, the first on
/// top: the others, then the donors last first.
proof fn lemma_new_pending(p1: Seq<u32>, ds: Seq<u32>, p2: Seq<u32>)
    requires
        p2 == p1 + ds.skip(0).reverse(),
    ensures
        p2.len() == p1.len() + ds.len(),
        forall|k: int| 0 <= k < p1.len() ==> #[trigger] p2[k] == p1[k],
        forall|a: int| 0 <= a < ds.len() ==> #[trigger] p2[p1.len() + ds.len() - 1 - a] == ds[a],
        forall|y: u32| #[trigger] p2.contains(y) <==> (p1.contains(y) || ds.contains(y)),
{
    assert(ds.skip(0) == ds);
    let rev = ds.reverse();
    assert forall|a: int| 0 <= a < ds.len() implies #[trigger] p2[p1.len() + ds.len() - 1 - a] == ds[a] by {
        assert(rev[ds.len() - 1 - a] == ds[a]);
    }
    assert forall|y: u32| #[trigger] p2.contains(y) <==> (p1.contains(y) || ds.contains(y)) by {
        if p2.contains(y) {
            let k = choose|k: int| 0 <= k < p2.len() && p2[k] == y;
            if k >= p1.len() {
                let a = ds.len() - 1 - (k - p1.len());
                assert(p2[p1.len() + ds.len() - 1 - a] == ds[a]);
                assert(ds[a] == y);
            } else {
                assert(p1[k] == y);
            }
        }
        if p1.contains(y) {
            let k = choose|k: int| 0 <= k < p1.len() && p1[k] == y;
            assert(p2[k] == y);
        }
        if ds.contains(y) {
            let a = choose|a: int| 0 <= a < ds.len() && ds[a] == y;
            assert(p2[p1.len() + ds.len() - 1 - a] == y);
        }
    }
}

/// After cell `c` moves from the top of the pending cells to the stack and its donors `ds`
/// are pushed (the first donor on top), the state still holds.
proof fn lemma_push_donors(r: Seq<u32>, s0: Seq<u32>, p1: Seq<u32>, c: u32, ds: Seq<u32>, p2: Seq<u32>, i: int)
    requires
        r.len() < u32::MAX,
        c < r.len(),
        ds == donors(r, c as int),
        forall|d: u32| #[trigger] ds.contains(d) <==> (d < r.len() && r[d as int] == c && d != c),
        forall|a: int, b: int| 0 <= a < b < ds.len() ==> #[trigger] ds[a] < #[trigger] ds[b],
        p2 == p1 + ds.skip(0).reverse(),
        stack_state(r, s0, p1.push(c), i),
    ensures
        stack_state(r, s0.push(c), p2, i),
{
    lemma_new_pending(p1, ds, p2);
    assert forall|a: int| 0 <= a < ds.len() implies !s0.contains(#[trigger] ds[a]) && !p1.contains(ds[a]) by {
        assert(ds.contains(ds[a]));
        lemma_donor_unseen(r, s0, p1, c, ds[a]);
    }
    assert forall|a: int| 0 <= a < ds.len() implies #[trigger] ds[a] != c by {
        assert(ds.contains(ds[a]));
    }
    lemma_next_distinct(s0, p1, c, ds, p2);
    lemma_next_bounds(r, s0, p1, c, ds, p2);
    lemma_next_order(r, s0, p1, c, ds, p2);
    lemma_next_outlets(r, s0, p1, c, ds, p2, i);
    lemma_next_closure(r, s0, p1, c, ds, p2);
}

/// Taking cell `c` off the pending cells onto the stack and its donors onto the pending cells,
/// the smallest on top, keeps the order.
#[verifier::rlimit(80)]
proof fn lemma_push_order(r: Seq<u32>, s0: Seq<u32>, p1: Seq<u32>, c: u32, ds: Seq<u32>, p2: Seq<u32>, i: int)
    requires
        r.len() < u32::MAX,
        c < r.len(),
        forall|d: u32| #[trigger] ds.contains(d) <==> (d < r.len() && r[d as int] == c && d != c),
        forall|a: int, b: int| 0 <= a < b < ds.len() ==> #[trigger] ds[a] < #[trigger] ds[b],
        p2 == p1 + ds.skip(0).reverse(),
        stack_state(r, s0, p1.push(c), i),
        order_state(r, s0, p1.push(c)),
    ensures
        order_state(r, s0.push(c), p2),
{
    lemma_new_pending(p1, ds, p2);
    let p0 = p1.push(c);
    let top = p1.len() as int;
    let nn = s0.len() as int;
    let sn = s0.push(c);
    assert(p0[top] == c);
    assert(!s0.contains(c));
    assert(sn.no_duplicates()) by {
        assert forall|u: int, v: int| 0 <= u < v < sn.len() implies sn[u] != sn[v] by {
            if v == nn {
                assert(sn[u] == s0[u]);
            } else {
                assert(sn[u] == s0[u] && sn[v] == s0[v]);
            }
        }
    }
    assert(sn[nn] == c);
    lemma_position(sn, c, nn);
    assert forall|k: int| 0 <= k < nn implies #[trigger] sn[k] == s0[k] && s0.contains(s0[k]) by {}
    // The ways down of the cells already stacked stay.
    assert forall|k: int, a: int| 0 <= k < nn implies #[trigger] stack_flows(r, sn, k, a) == stack_flows(r, s0, k, a) by {
        lemma_stack_flows_push(r, s0, c, k, a);
    }
    // A stacked cell keeps its place.
    assert forall|x: u32| s0.contains(x) implies #[trigger] position(sn, x) == position(s0, x) && 0 <= position(s0, x) < nn
        && s0[position(s0, x)] == x by {
        let j = choose|j: int| 0 <= j < s0.len() && s0[j] == x;
        lemma_position(s0, x, j);
        assert(sn[j] == x);
        lemma_position(sn, x, j);
    }
    // The new cell drains through its receiver's place.
    if !is_outlet(r, c as int) {
        assert(s0.contains(r[c as int]));
    }
    assert forall|a: int| 0 <= a < nn implies #[trigger] stack_flows(r, sn, nn, a) == (!is_outlet(r, c as int) && stack_flows(
        r,
        s0,
        position(s0, r[c as int]),
        a,
    )) by {
        if !is_outlet(r, c as int) {
            let q = position(s0, r[c as int]);
            assert(position(sn, r[sn[nn] as int]) == q);
            assert(stack_flows(r, sn, q, a) == stack_flows(r, s0, q, a));
        }
    }
    // The pending cells below drain into stacked cells; the donors of `c` into `c`.
    assert forall|m: int| 0 <= m < top && !is_outlet(r, #[trigger] p1[m] as int) implies s0.contains(r[p1[m] as int]) by {
        assert(p0[m] == p1[m]);
    }
    assert forall|a: int| 0 <= a < ds.len() implies !is_outlet(r, #[trigger] ds[a] as int) && r[ds[a] as int] == c by {
        assert(ds.contains(ds[a]));
    }
    // The stack's own order.
    assert forall|k1: int, k2: int|
        0 <= k1 < k2 < sn.len() && is_outlet(r, #[trigger] sn[k1] as int) && is_outlet(r, #[trigger] sn[k2] as int) implies sn[k1]
        < sn[k2] by {
        if k2 == nn {
            assert(sn[k1] == s0[k1]);
            assert(p0[top] <= i);
            if (c as int) < i {
                let j = c as int;
                assert(is_outlet(r, j));
                assert(s0.contains(j as u32));
            }
            assert(s0[k1] <= i);
        } else {
            assert(sn[k1] == s0[k1] && sn[k2] == s0[k2]);
        }
    }
    assert forall|k1: int, k2: int|
        0 <= k1 < k2 < sn.len() && !is_outlet(r, #[trigger] sn[k1] as int) && !is_outlet(r, #[trigger] sn[k2] as int)
            && r[sn[k1] as int] == r[sn[k2] as int] implies sn[k1] < sn[k2] by {
        if k2 == nn {
            assert(sn[k1] == s0[k1]);
            assert(p0[top] == c);
        } else {
            assert(sn[k1] == s0[k1] && sn[k2] == s0[k2]);
        }
    }
    assert forall|a: int, b: int, cc: int|
        #![trigger stack_flows(r, sn, cc, a), stack_flows(r, sn, b, a)]
        0 <= a < b < cc < sn.len() && stack_flows(r, sn, cc, a) implies stack_flows(r, sn, b, a) by {
        assert(stack_flows(r, sn, b, a) == stack_flows(r, s0, b, a));
        if cc < nn {
            assert(stack_flows(r, sn, cc, a) == stack_flows(r, s0, cc, a));
        } else {
            assert(!is_outlet(r, p0[top] as int) && stack_flows(r, s0, position(s0, r[p0[top] as int]), a));
        }
    }
    assert(stack_in_order(r, sn));
    // The pending cells against the stack.
    assert forall|k: int, m: int|
        0 <= k < sn.len() && 0 <= m < p2.len() && !is_outlet(r, #[trigger] sn[k] as int) && !is_outlet(r, #[trigger] p2[m] as int)
            && r[sn[k] as int] == r[p2[m] as int] implies sn[k] < p2[m] by {
        if m < top {
            assert(p2[m] == p1[m] && p0[m] == p1[m]);
            if k < nn {
                assert(sn[k] == s0[k]);
            } else {
                assert(p0[top] == c);
            }
        } else {
            let a = ds.len() - 1 - (m - top);
            assert(p2[top + ds.len() - 1 - a] == ds[a]);
            if k < nn {
                assert(sn[k] == s0[k]);
                assert(s0.take(k).contains(r[s0[k] as int]));
                let j = choose|j: int| 0 <= j < s0.take(k).len() && s0.take(k)[j] == r[s0[k] as int];
                assert(s0[j] == r[s0[k] as int]);
            }
        }
    }
    assert forall|m1: int, m2: int|
        0 <= m1 < m2 < p2.len() && !is_outlet(r, #[trigger] p2[m1] as int) && !is_outlet(r, #[trigger] p2[m2] as int)
            && r[p2[m1] as int] == r[p2[m2] as int] implies p2[m2] < p2[m1] by {
        if m2 < top {
            assert(p2[m1] == p0[m1] && p2[m2] == p0[m2]);
        } else if m1 < top {
            assert(p2[m1] == p1[m1]);
            let a = ds.len() - 1 - (m2 - top);
            assert(p2[top + ds.len() - 1 - a] == ds[a]);
        } else {
            let a1 = ds.len() - 1 - (m1 - top);
            let a2 = ds.len() - 1 - (m2 - top);
            assert(p2[top + ds.len() - 1 - a1] == ds[a1]);
            assert(p2[top + ds.len() - 1 - a2] == ds[a2]);
        }
    }
    assert forall|a: int, b: int, m: int|
        #![trigger p2[m], stack_flows(r, sn, b, a)]
        0 <= a < b < sn.len() && 0 <= m < p2.len() && !is_outlet(r, p2[m] as int) && stack_flows(
            r,
            sn,
            position(sn, r[p2[m] as int]),
            a,
        ) implies stack_flows(r, sn, b, a) by {
        if m < top {
            assert(p2[m] == p1[m] && p0[m] == p1[m]);
            let q = position(s0, r[p1[m] as int]);
            assert(position(sn, r[p2[m] as int]) == q);
            assert(stack_flows(r, sn, q, a) == stack_flows(r, s0, q, a));
            if b < nn {
                assert(stack_flows(r, sn, b, a) == stack_flows(r, s0, b, a));
                assert(stack_flows(r, s0, b, a));
            } else {
                assert(!is_outlet(r, p0[top] as int) && stack_flows(
                    r,
                    s0,
                    position(s0, r[p0[top] as int]),
                    position(s0, r[p0[m] as int]),
                ));
                lemma_stack_flows_trans(r, s0, position(s0, r[c as int]), q, a);
            }
        } else {
            let d = ds.len() - 1 - (m - top);
            assert(p2[top + ds.len() - 1 - d] == ds[d]);
            assert(r[p2[m] as int] == c);
            if b < nn {
                assert(stack_flows(r, sn, b, a) == stack_flows(r, s0, b, a));
                assert(a < nn);
                assert(!is_outlet(r, p0[top] as int) && stack_flows(r, s0, position(s0, r[p0[top] as int]), a));
                assert(stack_flows(r, s0, b, a));
            }
        }
    }
    assert forall|m: int| 0 <= m < p2.len() implies !is_outlet(r, #[trigger] p2[m] as int) by {
        if m < top {
            assert(p2[m] == p0[m]);
            assert(!is_outlet(r, p0[m] as int) && !is_outlet(r, p0[top] as int));
        } else {
            let d = ds.len() - 1 - (m - top);
            assert(p2[top + ds.len() - 1 - d] == ds[d]);
        }
    }
    assert forall|m1: int, m2: int| 0 <= m1 < m2 < p2.len() implies !is_outlet(r, #[trigger] p2[m1] as int) && !is_outlet(
        r,
        #[trigger] p2[m2] as int,
    ) && stack_flows(r, sn, position(sn, r[p2[m2] as int]), position(sn, r[p2[m1] as int])) by {
        if m2 < top {
            assert(p2[m1] == p0[m1] && p2[m2] == p0[m2]);
            assert(!is_outlet(r, p0[m1] as int) && !is_outlet(r, p0[m2] as int));
            assert(s0.contains(r[p1[m1] as int]) && s0.contains(r[p1[m2] as int]));
            let q1 = position(s0, r[p0[m1] as int]);
            let q2 = position(s0, r[p0[m2] as int]);
            assert(position(sn, r[p2[m1] as int]) == q1);
            assert(position(sn, r[p2[m2] as int]) == q2);
            assert(stack_flows(r, sn, q2, q1) == stack_flows(r, s0, q2, q1));
        } else if m1 < top {
            assert(p2[m1] == p0[m1]);
            let q1 = position(s0, r[p0[m1] as int]);
            assert(position(sn, r[p2[m1] as int]) == q1);
            let d = ds.len() - 1 - (m2 - top);
            assert(p2[top + ds.len() - 1 - d] == ds[d]);
            assert(r[p2[m2] as int] == c);
            assert(position(sn, r[p2[m2] as int]) == nn);
            assert(!is_outlet(r, p0[m1] as int));
            assert(s0.contains(r[p1[m1] as int]));
            assert(0 <= q1 < nn);
            assert(!is_outlet(r, p0[top] as int) && stack_flows(r, s0, position(s0, r[p0[top] as int]), q1));
            assert(stack_flows(r, sn, nn, q1));
        } else {
            let d1 = ds.len() - 1 - (m1 - top);
            let d2 = ds.len() - 1 - (m2 - top);
            assert(p2[top + ds.len() - 1 - d1] == ds[d1]);
            assert(p2[top + ds.len() - 1 - d2] == ds[d2]);
            assert(r[p2[m1] as int] == c && r[p2[m2] as int] == c);
        }
    }
}

proof fn lemma_next_distinct(s0: Seq<u32>, p1: Seq<u32>, c: u32, ds: Seq<u32>, p2: Seq<u32>)
    requires
        st_distinct(s0, p1.push(c)),
        forall|a: int, b: int| 0 <= a < b < ds.len() ==> #[trigger] ds[a] < #[trigger] ds[b],
        forall|a: int| 0 <= a < ds.len() ==> !s0.contains(#[trigger] ds[a]) && !p1.contains(ds[a]),
        forall|a: int| 0 <= a < ds.len() ==> #[trigger] ds[a] != c,
        p2.len() == p1.len() + ds.len(),
        forall|k: int| 0 <= k < p1.len() ==> #[trigger] p2[k] == p1[k],
        forall|a: int| 0 <= a < ds.len() ==> #[trigger] p2[p1.len() + ds.len() - 1 - a] == ds[a],
    ensures
        st_distinct(s0.push(c), p2),
{
    let p0 = p1.push(c);
    let s1 = s0.push(c);
    assert(p0[p1.len() as int] == c);
    assert(!s0.contains(c));
    assert forall|k: int| 0 <= k < p1.len() implies #[trigger] p0[k] == p1[k] by {}
    assert(s1.no_duplicates()) by {
        assert forall|x: int, y: int| 0 <= x < y < s1.len() implies s1[x] != s1[y] by {
            if y == s0.len() {
                assert(s0.contains(s0[x]));
            } else {
                assert(s1[x] == s0[x] && s1[y] == s0[y]);
            }
        }
    }
    assert(p2.no_duplicates()) by {
        assert forall|x: int, y: int| 0 <= x < y < p2.len() implies p2[x] != p2[y] by {
            if y >= p1.len() && x < p1.len() {
                let b = p1.len() + ds.len() - 1 - y;
                assert(p2[p1.len() + ds.len() - 1 - b] == ds[b]);
                assert(p1.contains(p1[x]));
            } else if x >= p1.len() {
                let a = p1.len() + ds.len() - 1 - x;
                let b = p1.len() + ds.len() - 1 - y;
                assert(p2[p1.len() + ds.len() - 1 - a] == ds[a]);
                assert(p2[p1.len() + ds.len() - 1 - b] == ds[b]);
                assert(ds[b] < ds[a]);
            } else {
                assert(p0[x] == p1[x] && p0[y] == p1[y]);
            }
        }
    }
    assert forall|k: int| 0 <= k < p2.len() implies !s1.contains(#[trigger] p2[k]) by {
        if k < p1.len() {
            assert(p0[k] == p2[k]);
            assert(!s0.contains(p2[k]));
            assert(p2[k] != c) by {
                assert(p0[p1.len() as int] == c);
            }
        } else {
            let a = p1.len() + ds.len() - 1 - k;
            assert(p2[p1.len() + ds.len() - 1 - a] == ds[a]);
        }
        if s1.contains(p2[k]) {
            let w = choose|w: int| 0 <= w < s1.len() && s1[w] == p2[k];
            if w < s0.len() {
                assert(s0[w] == p2[k]);
            }
        }
    }
}

proof fn lemma_next_bounds(r: Seq<u32>, s0: Seq<u32>, p1: Seq<u32>, c: u32, ds: Seq<u32>, p2: Seq<u32>)
    requires
        st_bounds(r, s0, p1.push(c)),
        c < r.len(),
        forall|d: u32| #[trigger] ds.contains(d) ==> d < r.len(),
        p2.len() == p1.len() + ds.len(),
        forall|k: int| 0 <= k < p1.len() ==> #[trigger] p2[k] == p1[k],
        forall|a: int| 0 <= a < ds.len() ==> #[trigger] p2[p1.len() + ds.len() - 1 - a] == ds[a],
    ensures
        st_bounds(r, s0.push(c), p2),
{
    let p0 = p1.push(c);
    assert forall|k: int| 0 <= k < p2.len() implies #[trigger] p2[k] < r.len() by {
        if k < p1.len() {
            assert(p0[k] == p2[k]);
        } else {
            let a = p1.len() + ds.len() - 1 - k;
            assert(p2[p1.len() + ds.len() - 1 - a] == ds[a]);
            assert(ds.contains(ds[a]));
        }
    }
    assert forall|k: int| 0 <= k < s0.push(c).len() implies #[trigger] s0.push(c)[k] < r.len() by {
        if k < s0.len() {
            assert(s0.push(c)[k] == s0[k]);
        }
    }
}

proof fn lemma_next_order(r: Seq<u32>, s0: Seq<u32>, p1: Seq<u32>, c: u32, ds: Seq<u32>, p2: Seq<u32>)
    requires
        st_order(r, s0, p1.push(c)),
        forall|d: u32| #[trigger] ds.contains(d) ==> r[d as int] == c,
        p2.len() == p1.len() + ds.len(),
        forall|k: int| 0 <= k < p1.len() ==> #[trigger] p2[k] == p1[k],
        forall|a: int| 0 <= a < ds.len() ==> #[trigger] p2[p1.len() + ds.len() - 1 - a] == ds[a],
    ensures
        st_order(r, s0.push(c), p2),
{
    let p0 = p1.push(c);
    let s1 = s0.push(c);
    assert(p0[p1.len() as int] == c);
    assert(s1[s0.len() as int] == c);
    assert forall|k: int| 0 <= k < s1.len() implies is_outlet(r, #[trigger] s1[k] as int) || s1.take(k).contains(r[s1[k] as int]) by {
        if k < s0.len() {
            assert(s1[k] == s0[k]);
            assert(s1.take(k) =~= s0.take(k));
        } else {
            assert(s1.take(k) =~= s0);
            assert(is_outlet(r, p0[p1.len() as int] as int) || s0.contains(r[p0[p1.len() as int] as int]));
        }
    }
    assert forall|k: int| 0 <= k < p2.len() implies is_outlet(r, #[trigger] p2[k] as int) || s1.contains(r[p2[k] as int]) by {
        if k < p1.len() {
            assert(p0[k] == p2[k]);
            if s0.contains(r[p2[k] as int]) {
                let w = choose|w: int| 0 <= w < s0.len() && s0[w] == r[p2[k] as int];
                assert(s1[w] == s0[w]);
            }
        } else {
            let a = p1.len() + ds.len() - 1 - k;
            assert(p2[p1.len() + ds.len() - 1 - a] == ds[a]);
            assert(ds.contains(ds[a]));
        }
    }
}

proof fn lemma_next_outlets(r: Seq<u32>, s0: Seq<u32>, p1: Seq<u32>, c: u32, ds: Seq<u32>, p2: Seq<u32>, i: int)
    requires
        st_outlets(r, s0, p1.push(c), i),
        forall|d: u32| #[trigger] ds.contains(d) ==> r[d as int] == c && d != c,
        p2.len() == p1.len() + ds.len(),
        forall|k: int| 0 <= k < p1.len() ==> #[trigger] p2[k] == p1[k],
        forall|a: int| 0 <= a < ds.len() ==> #[trigger] p2[p1.len() + ds.len() - 1 - a] == ds[a],
    ensures
        st_outlets(r, s0.push(c), p2, i),
{
    let p0 = p1.push(c);
    let s1 = s0.push(c);
    assert(p0[p1.len() as int] == c);
    assert(s1[s0.len() as int] == c);
    assert forall|k: int| 0 <= k < s1.len() && is_outlet(r, #[trigger] s1[k] as int) implies s1[k] <= i by {
        if k < s0.len() {
            assert(s1[k] == s0[k]);
        }
    }
    assert forall|k: int| 0 <= k < p2.len() && is_outlet(r, #[trigger] p2[k] as int) implies p2[k] <= i by {
        if k < p1.len() {
            assert(p0[k] == p2[k]);
        } else {
            let a = p1.len() + ds.len() - 1 - k;
            assert(p2[p1.len() + ds.len() - 1 - a] == ds[a]);
            assert(ds.contains(ds[a]));
        }
    }
    assert forall|j: int| 0 <= j < i && is_outlet(r, j) implies #[trigger] s1.contains(j as u32) by {
        assert(s0.contains(j as u32));
        let w = choose|w: int| 0 <= w < s0.len() && s0[w] == j as u32;
        assert(s1[w] == s0[w]);
    }
    assert(s1.contains(i as u32) || p2.contains(i as u32)) by {
        if s0.contains(i as u32) {
            let w = choose|w: int| 0 <= w < s0.len() && s0[w] == i as u32;
            assert(s1[w] == s0[w]);
        } else {
            let w = choose|w: int| 0 <= w < p0.len() && p0[w] == i as u32;
            if w == p1.len() {
                assert(s1[s0.len() as int] == c);
            } else {
                assert(p0[w] == p1[w]);
                assert(p2[w] == p1[w]);
            }
        }
    }
}

proof fn lemma_next_closure(r: Seq<u32>, s0: Seq<u32>, p1: Seq<u32>, c: u32, ds: Seq<u32>, p2: Seq<u32>)
    requires
        r.len() < u32::MAX,
        st_closure(r, s0, p1.push(c)),
        ds == donors(r, c as int),
        forall|y: u32| #[trigger] p2.contains(y) <==> (p1.contains(y) || ds.contains(y)),
    ensures
        st_closure(r, s0.push(c), p2),
{
    let p0 = p1.push(c);
    let s1 = s0.push(c);
    assert(p0[p1.len() as int] == c);
    assert(s1[s0.len() as int] == c);
    assert forall|x: int, a: int| 0 <= x < r.len() && s1.contains(x as u32) && 0 <= a < donors(r, x).len()
        implies s1.contains(#[trigger] donors(r, x)[a]) || p2.contains(donors(r, x)[a]) by {
        let d = donors(r, x)[a];
        if x == c as int {
            assert(ds.contains(d));
        } else {
            let w = choose|w: int| 0 <= w < s1.len() && s1[w] == x as u32;
            if w == s0.len() {
                assert(s1[w] == c);
                assert(x == c as int);
            }
            assert(s1[w] == s0[w]);
            assert(s0.contains(x as u32));
            assert(s0.contains(d) || p0.contains(d));
            if s0.contains(d) {
                let v = choose|v: int| 0 <= v < s0.len() && s0[v] == d;
                assert(s1[v] == d);
            } else {
                let v = choose|v: int| 0 <= v < p0.len() && p0[v] == d;
                if v == p1.len() {
                    assert(s1[s0.len() as int] == d);
                } else {
                    assert(p1[v] == d);
                    assert(p1.contains(d));
                }
            }
        }
    }
}

/// The stack and the drainage areas of `receiver` (see [`flow_stack`] and [`drainage_area`]).
pub fn drainage(receiver: &Vec<u32>) -> (result: (Vec<u32>, Vec<u32>))
    requires
        receiver@.len() < u32::MAX,
        forall|i: int| 0 <= i < receiver@.len() ==> #[trigger] receiver@[i] < receiver@.len(),
    ensures
        downstream_first(receiver@, result.0@),
        stack_in_order(receiver@, result.0@),
        areas_add_up(receiver@, result.0@, result.1@),
        (forall|x: int| 0 <= x < receiver@.len() ==> #[trigger] result.0@.contains(x as u32)) ==> outlet_area_sum(
            receiver@,
            result.1@,
            receiver@.len() as int,
        ) == receiver@.len(),
{
    let stack = flow_stack(receiver);
    let area = drainage_area(receiver, &stack);
    (stack, area)
}

/// The sum of the areas of `ds`.
pub open spec fn donor_sum(ds: Seq<u32>, area: Seq<u32>) -> int
    decreases ds.len(),
{
    if ds.len() == 0 {
        0
    } else {
        donor_sum(ds.drop_last(), area) + area[ds.last() as int]
    }
}

/// Whether `area` counts, for every cell that drains to an outlet (on `stack`), itself and the
/// areas of its donors, and one for every other cell.
pub open spec fn areas_add_up(receiver: Seq<u32>, stack: Seq<u32>, area: Seq<u32>) -> bool {
    &&& area.len() == receiver.len()
    &&& forall|c: int| 0 <= c < receiver.len() && stack.contains(c as u32) ==> #[trigger] area[c] == 1 + donor_sum(
        donors(receiver, c),
        area,
    )
    &&& forall|c: int| 0 <= c < receiver.len() && !stack.contains(c as u32) ==> #[trigger] area[c] == 1
}

/// The sum of the areas of those of `ds` that are `done`.
spec fn done_sum(ds: Seq<u32>, area: Seq<u32>, done: Set<u32>) -> int
    decreases ds.len(),
{
    if ds.len() == 0 {
        0
    } else {
        done_sum(ds.drop_last(), area, done) + if done.contains(ds.last()) {
            area[ds.last() as int]
        } else {
            0
        }
    }
}

/// The sum of the areas of the cells `0..upto` that are not `done`.
spec fn open_sum(area: Seq<u32>, done: Set<u32>, upto: int) -> int
    decreases upto,
{
    if upto <= 0 {
        0
    } else {
        open_sum(area, done, upto - 1) + if done.contains((upto - 1) as u32) {
            0
        } else {
            area[upto - 1] as int
        }
    }
}

proof fn lemma_done_sum_update(ds: Seq<u32>, area: Seq<u32>, done: Set<u32>, r: int, v: u32)
    requires
        !done.contains(r as u32) || !ds.contains(r as u32),
        forall|a: int| 0 <= a < ds.len() ==> #[trigger] ds[a] < area.len(),
        0 <= r < area.len(),
        area.len() < u32::MAX,
    ensures
        done_sum(ds, area.update(r, v), done) == done_sum(ds, area, done),
        !ds.contains(r as u32) ==> donor_sum(ds, area.update(r, v)) == donor_sum(ds, area),
    decreases ds.len(),
{
    if ds.len() > 0 {
        let init = ds.drop_last();
        assert(ds.contains(r as u32) || !init.contains(r as u32)) by {
            if init.contains(r as u32) {
                let k = choose|k: int| 0 <= k < init.len() && init[k] == r as u32;
                assert(ds[k] == r as u32);
            }
        }
        assert forall|a: int| 0 <= a < init.len() implies #[trigger] init[a] < area.len() by {
            assert(init[a] == ds[a]);
        }
        lemma_done_sum_update(init, area, done, r, v);
        assert(ds[ds.len() - 1] < area.len());
        if ds.last() as int == r {
            assert(ds.contains(ds.last()));
        }
    }
}

proof fn lemma_done_sum_insert(ds: Seq<u32>, area: Seq<u32>, done: Set<u32>, c: u32)
    requires
        ds.no_duplicates(),
        !done.contains(c),
    ensures
        done_sum(ds, area, done.insert(c)) == done_sum(ds, area, done) + if ds.contains(c) {
            area[c as int] as int
        } else {
            0
        },
    decreases ds.len(),
{
    if ds.len() > 0 {
        let init = ds.drop_last();
        assert(init.no_duplicates());
        lemma_done_sum_insert(init, area, done, c);
        if ds.last() == c {
            assert(!init.contains(c)) by {
                if init.contains(c) {
                    let k = choose|k: int| 0 <= k < init.len() && init[k] == c;
                    assert(ds[k] == ds[ds.len() - 1]);
                }
            }
            assert(ds.contains(c));
        } else {
            assert(ds.contains(c) == init.contains(c)) by {
                if ds.contains(c) {
                    let k = choose|k: int| 0 <= k < ds.len() && ds[k] == c;
                    assert(k < ds.len() - 1);
                    assert(init[k] == c);
                }
                if init.contains(c) {
                    let k = choose|k: int| 0 <= k < init.len() && init[k] == c;
                    assert(ds[k] == c);
                }
            }
        }
    }
}

proof fn lemma_done_sum_all(ds: Seq<u32>, area: Seq<u32>, done: Set<u32>)
    requires
        forall|a: int| 0 <= a < ds.len() ==> done.contains(#[trigger] ds[a]),
    ensures
        done_sum(ds, area, done) == donor_sum(ds, area),
    decreases ds.len(),
{
    if ds.len() > 0 {
        let init = ds.drop_last();
        assert forall|a: int| 0 <= a < init.len() implies done.contains(#[trigger] init[a]) by {
            assert(init[a] == ds[a]);
        }
        lemma_done_sum_all(init, area, done);
        assert(done.contains(ds[ds.len() - 1]));
    }
}

proof fn lemma_done_sum_none(ds: Seq<u32>, area: Seq<u32>, done: Set<u32>)
    requires
        forall|a: int| 0 <= a < ds.len() ==> !done.contains(#[trigger] ds[a]),
    ensures
        done_sum(ds, area, done) == 0,
    decreases ds.len(),
{
    if ds.len() > 0 {
        let init = ds.drop_last();
        assert forall|a: int| 0 <= a < init.len() implies !done.contains(#[trigger] init[a]) by {
            assert(init[a] == ds[a]);
        }
        lemma_done_sum_none(init, area, done);
        assert(!done.contains(ds[ds.len() - 1]));
    }
}

proof fn lemma_open_sum_bound(area: Seq<u32>, done: Set<u32>, upto: int, r: int, c: int)
    requires
        0 <= upto <= area.len(),
        area.len() < u32::MAX,
        0 <= r < area.len(),
        0 <= c < area.len(),
        r != c,
        !done.contains(r as u32),
        !done.contains(c as u32),
    ensures
        open_sum(area, done, upto) >= (if r < upto { area[r] as int } else { 0 }) + (if c < upto {
            area[c] as int
        } else {
            0
        }),
        open_sum(area, done, upto) >= 0,
    decreases upto,
{
    if upto > 0 {
        lemma_open_sum_bound(area, done, upto - 1, r, c);
    }
}

proof fn lemma_open_sum_move(area: Seq<u32>, done: Set<u32>, upto: int, r: int, c: int)
    requires
        0 <= upto <= area.len(),
        area.len() < u32::MAX,
        0 <= r < area.len(),
        0 <= c < area.len(),
        r != c,
        !done.contains(r as u32),
        !done.contains(c as u32),
        area[r] + area[c] <= u32::MAX,
    ensures
        open_sum(area.update(r, (area[r] + area[c]) as u32), done.insert(c as u32), upto) == open_sum(area, done, upto)
            + (if r < upto { area[c] as int } else { 0 }) - (if c < upto { area[c] as int } else { 0 }),
    decreases upto,
{
    if upto > 0 {
        lemma_open_sum_move(area, done, upto - 1, r, c);
        let x = upto - 1;
        assert(((x as u32) == (c as u32)) == (x == c));
    }
}

proof fn lemma_open_sum_ones(area: Seq<u32>, upto: int)
    requires
        0 <= upto <= area.len(),
        forall|x: int| 0 <= x < area.len() ==> #[trigger] area[x] == 1,
    ensures
        open_sum(area, Set::empty(), upto) == upto,
    decreases upto,
{
    if upto > 0 {
        lemma_open_sum_ones(area, upto - 1);
    }
}

/// The sum of the areas of the outlets among the cells `0..upto`.
pub open spec fn outlet_area_sum(receiver: Seq<u32>, area: Seq<u32>, upto: int) -> int
    decreases upto,
{
    if upto <= 0 {
        0
    } else {
        outlet_area_sum(receiver, area, upto - 1) + if is_outlet(receiver, upto - 1) {
            area[upto - 1] as int
        } else {
            0
        }
    }
}

/// The sum of the areas of the outlets among the cells `0..upto` that are `done`.
spec fn done_outlet_sum(receiver: Seq<u32>, area: Seq<u32>, done: Set<u32>, upto: int) -> int
    decreases upto,
{
    if upto <= 0 {
        0
    } else {
        done_outlet_sum(receiver, area, done, upto - 1) + if is_outlet(receiver, upto - 1) && done.contains(
            (upto - 1) as u32,
        ) {
            area[upto - 1] as int
        } else {
            0
        }
    }
}

proof fn lemma_done_outlet_sum_step(r: Seq<u32>, area: Seq<u32>, after: Seq<u32>, done: Set<u32>, upto: int, c: int, to: int)
    requires
        0 <= upto <= area.len(),
        area.len() == r.len(),
        after.len() == area.len(),
        area.len() < u32::MAX,
        0 <= c < area.len(),
        0 <= to < area.len(),
        to == r[c],
        !done.contains(c as u32),
        !done.contains(to as u32),
        forall|x: int| 0 <= x < area.len() && x != to ==> #[trigger] after[x] == area[x],
        to == c ==> after == area,
    ensures
        done_outlet_sum(r, after, done.insert(c as u32), upto) == done_outlet_sum(r, area, done, upto) + (if c < upto
            && is_outlet(r, c) { area[c] as int } else { 0 }),
    decreases upto,
{
    if upto > 0 {
        lemma_done_outlet_sum_step(r, area, after, done, upto - 1, c, to);
        let x = upto - 1;
        assert(((x as u32) == (c as u32)) == (x == c));
        assert(((x as u32) == (to as u32)) == (x == to));
    }
}

proof fn lemma_all_done_sums(r: Seq<u32>, area: Seq<u32>, done: Set<u32>, upto: int)
    requires
        0 <= upto <= area.len(),
        area.len() < u32::MAX,
        forall|x: int| 0 <= x < upto ==> #[trigger] done.contains(x as u32),
    ensures
        open_sum(area, done, upto) == 0,
        done_outlet_sum(r, area, done, upto) == outlet_area_sum(r, area, upto),
    decreases upto,
{
    if upto > 0 {
        lemma_all_done_sums(r, area, done, upto - 1);
        assert(done.contains((upto - 1) as u32));
    }
}

proof fn lemma_none_done_outlets(r: Seq<u32>, area: Seq<u32>, upto: int)
    requires
        0 <= upto,
    ensures
        done_outlet_sum(r, area, Set::empty(), upto) == 0,
    decreases upto,
{
    if upto > 0 {
        lemma_none_done_outlets(r, area, upto - 1);
    }
}

/// The drainage areas over `stack` (see [`flow_stack`]): every cell counts itself, and each
/// cell, upstream first, adds its area to its receiver's.
pub fn drainage_area(receiver: &Vec<u32>, stack: &Vec<u32>) -> (area: Vec<u32>)
    requires
        receiver@.len() < u32::MAX,
        forall|i: int| 0 <= i < receiver@.len() ==> #[trigger] receiver@[i] < receiver@.len(),
        downstream_first(receiver@, stack@),
    ensures
        areas_add_up(receiver@, stack@, area@),
        (forall|x: int| 0 <= x < receiver@.len() ==> #[trigger] stack@.contains(x as u32)) ==> outlet_area_sum(
            receiver@,
            area@,
            receiver@.len() as int,
        ) == receiver@.len(),
{
    let n = receiver.len();
    let ghost r = receiver@;
    let ghost st = stack@;
    let mut area: Vec<u32> = Vec::new();
    let mut x: usize = 0;
    while x < n
        invariant
            x <= n,
            area@.len() == x,
            forall|y: int| 0 <= y < x ==> #[trigger] area@[y] == 1,
        decreases n - x,
    {
        area.push(1);
        x = x + 1;
    }
    proof {
        lemma_open_sum_ones(area@, n as int);
        lemma_none_done_outlets(r, area@, n as int);
    }
    let mut k = stack.len();
    let ghost mut done: Set<u32> = Set::empty();
    proof {
        assert forall|p: int| 0 <= p < st.len() implies #[trigger] area@[st[p] as int] == 1 + done_sum(
            donors(r, st[p] as int),
            area@,
            done,
        ) by {
            lemma_done_sum_none(donors(r, st[p] as int), area@, done);
        }
        assert forall|y: u32| #[trigger] done.contains(y) <==> st.skip(k as int).contains(y) by {
            assert(st.skip(k as int).len() == 0);
        }
    }
    while k > 0
        invariant
            n == r.len(),
            r == receiver@,
            st == stack@,
            n < u32::MAX,
            forall|i: int| 0 <= i < n ==> #[trigger] r[i] < n,
            downstream_first(r, st),
            k <= st.len(),
            area@.len() == n,
            forall|y: u32| #[trigger] done.contains(y) <==> st.skip(k as int).contains(y),
            open_sum(area@, done, n as int) <= n,
            open_sum(area@, done, n as int) + done_outlet_sum(r, area@, done, n as int) == n,
            forall|y: int| 0 <= y < n && !st.contains(y as u32) ==> #[trigger] area@[y] == 1,
            forall|p: int| k <= p < st.len() ==> #[trigger] area@[st[p] as int] == 1 + donor_sum(
                donors(r, st[p] as int),
                area@,
            ),
            forall|p: int| 0 <= p < k ==> #[trigger] area@[st[p] as int] == 1 + done_sum(
                donors(r, st[p] as int),
                area@,
                done,
            ),
        decreases k,
    {
        k = k - 1;
        let c = stack[k];
        let to = receiver[c as usize];
        let ghost before = area@;
        let ghost done0 = done;
        proof {
            lemma_stack_facts(r, st, k as int);
            lemma_donors_upto(r, c as int, n as int);
        }
        if to != c {
            proof {
                lemma_open_sum_bound(before, done0, n as int, to as int, c as int);
            }
            let sum = area[to as usize] + area[c as usize];
            area.set(to as usize, sum);
        }
        proof {
            done = done0.insert(c);
            lemma_area_step(r, st, k as int, before, area@, done0, done, c, to);
            lemma_step_sums(r, st, k as int, before, area@, done0, c, to);
        }
    }
    proof {
        if forall|x: int| 0 <= x < n ==> #[trigger] st.contains(x as u32) {
            assert forall|x: int| 0 <= x < n implies #[trigger] done.contains(x as u32) by {
                assert(st.contains(x as u32));
                let w = choose|w: int| 0 <= w < st.len() && st[w] == x as u32;
                assert(st.skip(0)[w] == x as u32);
            }
            lemma_all_done_sums(r, area@, done, n as int);
        }
        assert forall|c: int| 0 <= c < n && st.contains(c as u32) implies #[trigger] area@[c] == 1 + donor_sum(
            donors(r, c),
            area@,
        ) by {
            let p = choose|p: int| 0 <= p < st.len() && st[p] == c as u32;
        }
    }
    area
}

/// What the stack says of its position `k`: its cell is a cell, its receiver comes before it
/// unless it is an outlet, and its donors all come after it.
pub(crate) proof fn lemma_stack_facts(r: Seq<u32>, st: Seq<u32>, k: int)
    requires
        r.len() < u32::MAX,
        forall|i: int| 0 <= i < r.len() ==> #[trigger] r[i] < r.len(),
        downstream_first(r, st),
        0 <= k < st.len(),
    ensures
        st[k] < r.len(),
        !is_outlet(r, st[k] as int) ==> exists|q: int| 0 <= q < k && #[trigger] st[q] == r[st[k] as int],
        forall|a: int| 0 <= a < donors(r, st[k] as int).len() ==> st.skip(k + 1).contains(#[trigger] donors(r, st[k] as int)[a]),
{
    let c = st[k];
    lemma_donors_upto(r, c as int, r.len() as int);
    if !is_outlet(r, c as int) {
        assert(st.take(k).contains(r[c as int]));
        let q = choose|q: int| 0 <= q < k && st.take(k)[q] == r[c as int];
        assert(st[q] == r[c as int]);
    }
    assert forall|a: int| 0 <= a < donors(r, c as int).len() implies st.skip(k + 1).contains(#[trigger] donors(r, c as int)[a]) by {
        let d = donors(r, c as int)[a];
        assert(donors(r, c as int).contains(d));
        assert(d < r.len() && r[d as int] == c && d != c);
        assert(st.contains(r[d as int]));
        assert(st.contains(d));
        let w = choose|w: int| 0 <= w < st.len() && st[w] == d;
        assert(!is_outlet(r, d as int));
        assert(st.take(w).contains(c));
        let q = choose|q: int| 0 <= q < w && st.take(w)[q] == c;
        assert(st[q] == c);
        assert(q == k);
        assert(st.skip(k + 1)[w - k - 1] == d);
    }
}

/// One step of the areas: position `k`'s cell `c` adds its area to its receiver's and is done.
proof fn lemma_area_step(
    r: Seq<u32>,
    st: Seq<u32>,
    k: int,
    before: Seq<u32>,
    after: Seq<u32>,
    done0: Set<u32>,
    done: Set<u32>,
    c: u32,
    to: u32,
)
    requires
        r.len() < u32::MAX,
        forall|i: int| 0 <= i < r.len() ==> #[trigger] r[i] < r.len(),
        downstream_first(r, st),
        0 <= k < st.len(),
        c == st[k],
        to == r[c as int],
        before.len() == r.len(),
        after == (if to != c { before.update(to as int, (before[to as int] + before[c as int]) as u32) } else { before }),
        to != c ==> before[to as int] + before[c as int] <= u32::MAX,
        forall|y: u32| #[trigger] done0.contains(y) <==> st.skip(k + 1).contains(y),
        done == done0.insert(c),
        open_sum(before, done0, r.len() as int) <= r.len(),
        forall|y: int| 0 <= y < r.len() && !st.contains(y as u32) ==> #[trigger] before[y] == 1,
        forall|p: int| k + 1 <= p < st.len() ==> #[trigger] before[st[p] as int] == 1 + donor_sum(donors(r, st[p] as int), before),
        forall|p: int| 0 <= p < k + 1 ==> #[trigger] before[st[p] as int] == 1 + done_sum(donors(r, st[p] as int), before, done0),
    ensures
        forall|y: u32| #[trigger] done.contains(y) <==> st.skip(k).contains(y),
        open_sum(after, done, r.len() as int) <= r.len(),
        forall|y: int| 0 <= y < r.len() && !st.contains(y as u32) ==> #[trigger] after[y] == 1,
        forall|p: int| k <= p < st.len() ==> #[trigger] after[st[p] as int] == 1 + donor_sum(donors(r, st[p] as int), after),
        forall|p: int| 0 <= p < k ==> #[trigger] after[st[p] as int] == 1 + done_sum(donors(r, st[p] as int), after, done),
{
    let n = r.len() as int;
    lemma_stack_facts(r, st, k);
    assert forall|y: u32| #[trigger] done.contains(y) <==> st.skip(k).contains(y) by {
        if st.skip(k).contains(y) {
            let w = choose|w: int| 0 <= w < st.skip(k).len() && #[trigger] st.skip(k)[w] == y;
            if w > 0 {
                assert(st.skip(k + 1)[w - 1] == y);
            }
        }
        if st.skip(k + 1).contains(y) {
            let w = choose|w: int| 0 <= w < st.skip(k + 1).len() && #[trigger] st.skip(k + 1)[w] == y;
            assert(st.skip(k)[w + 1] == y);
        }
        if y == c {
            assert(st.skip(k)[0] == c);
        }
    }
    // `c` was not done: it is at position k and the stack has no repeats.
    assert(!done0.contains(c)) by {
        if st.skip(k + 1).contains(c) {
            let w = choose|w: int| 0 <= w < st.skip(k + 1).len() && #[trigger] st.skip(k + 1)[w] == c;
            assert(st[k + 1 + w] == st[k]);
        }
    }
    // The receiver of `c`, if any, comes earlier: not done.
    if to != c {
        let q = choose|q: int| 0 <= q < k && #[trigger] st[q] == r[c as int];
        assert(!done0.contains(to)) by {
            if st.skip(k + 1).contains(to) {
                let w = choose|w: int| 0 <= w < st.skip(k + 1).len() && #[trigger] st.skip(k + 1)[w] == to;
                assert(st[k + 1 + w] == st[q]);
            }
        }
        assert(!done.contains(to));
        lemma_open_sum_move(before, done0, n, to as int, c as int);
    } else {
        lemma_open_sum_insert_outlet(before, done0, n, c as int);
    }
    let dc = donors(r, c as int);
    // c's donors are all done: its sum is complete.
    assert forall|a: int| 0 <= a < dc.len() implies done0.contains(#[trigger] dc[a]) by {
        assert(st.skip(k + 1).contains(dc[a]));
    }
    lemma_done_sum_all(dc, before, done0);
    assert forall|y: int| 0 <= y < n && !st.contains(y as u32) implies #[trigger] after[y] == 1 by {
        if to != c && y == to as int {
            let q = choose|q: int| 0 <= q < k && #[trigger] st[q] == r[c as int];
            assert(st.contains(to));
        }
    }
    assert forall|p: int| k <= p < st.len() implies #[trigger] after[st[p] as int] == 1 + donor_sum(donors(r, st[p] as int), after) by {
        let x = st[p];
        lemma_stack_facts(r, st, p);
        lemma_donors_upto(r, x as int, n);
        if to != c {
            let q = choose|q: int| 0 <= q < k && #[trigger] st[q] == r[c as int];
            // The receiver is not downstream of anything done, so no done cell lists it.
            assert(!donors(r, x as int).contains(to)) by {
                if donors(r, x as int).contains(to) {
                    let a = choose|a: int| 0 <= a < donors(r, x as int).len() && donors(r, x as int)[a] == to;
                    assert(st.skip(p + 1).contains(donors(r, x as int)[a]));
                    let w = choose|w: int| 0 <= w < st.skip(p + 1).len() && #[trigger] st.skip(p + 1)[w] == to;
                    assert(st[p + 1 + w] == st[q]);
                }
            }
            assert(x != to) by {
                assert(st[p] != st[q]);
            }
            lemma_done_sum_update(donors(r, x as int), before, done0, to as int, (before[to as int] + before[c as int]) as u32);
        }
        if p == k {
            assert(before[x as int] == 1 + done_sum(dc, before, done0));
        }
    }
    assert forall|p: int| 0 <= p < k implies #[trigger] after[st[p] as int] == 1 + done_sum(donors(r, st[p] as int), after, done) by {
        let x = st[p];
        let dx = donors(r, x as int);
        lemma_donors_upto(r, x as int, n);
        assert(x != c) by {
            assert(st[p] != st[k]);
        }
        lemma_done_sum_insert(dx, before, done0, c);
        if to != c {
            assert(!done.contains(to)) by {
                let q = choose|q: int| 0 <= q < k && #[trigger] st[q] == r[c as int];
                if st.skip(k).contains(to) {
                    let w = choose|w: int| 0 <= w < st.skip(k).len() && #[trigger] st.skip(k)[w] == to;
                    assert(st[k + w] == st[q]);
                }
            }
            lemma_done_sum_update(dx, before, done, to as int, (before[to as int] + before[c as int]) as u32);
            if x == to {
                assert(dx.contains(c));
            } else {
                assert(!dx.contains(c));
            }
        } else {
            assert(!dx.contains(c));
        }
    }
}

/// One step of the areas keeps the open cells' and the done outlets' areas summing to the
/// cells: an area moves from a cell to its open receiver, or an outlet's leaves the open ones
/// for the done outlets.
proof fn lemma_step_sums(
    r: Seq<u32>,
    st: Seq<u32>,
    k: int,
    before: Seq<u32>,
    after: Seq<u32>,
    done0: Set<u32>,
    c: u32,
    to: u32,
)
    requires
        r.len() < u32::MAX,
        forall|i: int| 0 <= i < r.len() ==> #[trigger] r[i] < r.len(),
        downstream_first(r, st),
        0 <= k < st.len(),
        c == st[k],
        to == r[c as int],
        before.len() == r.len(),
        after == (if to != c { before.update(to as int, (before[to as int] + before[c as int]) as u32) } else { before }),
        to != c ==> before[to as int] + before[c as int] <= u32::MAX,
        forall|y: u32| #[trigger] done0.contains(y) <==> st.skip(k + 1).contains(y),
        open_sum(before, done0, r.len() as int) + done_outlet_sum(r, before, done0, r.len() as int) == r.len(),
    ensures
        open_sum(after, done0.insert(c), r.len() as int) + done_outlet_sum(r, after, done0.insert(c), r.len() as int)
            == r.len(),
{
    let n = r.len() as int;
    lemma_stack_facts(r, st, k);
    assert(!done0.contains(c)) by {
        if st.skip(k + 1).contains(c) {
            let w = choose|w: int| 0 <= w < st.skip(k + 1).len() && #[trigger] st.skip(k + 1)[w] == c;
            assert(st[k + 1 + w] == st[k]);
        }
    }
    if to != c {
        let q = choose|q: int| 0 <= q < k && #[trigger] st[q] == r[c as int];
        assert(!done0.contains(to)) by {
            if st.skip(k + 1).contains(to) {
                let w = choose|w: int| 0 <= w < st.skip(k + 1).len() && #[trigger] st.skip(k + 1)[w] == to;
                assert(st[k + 1 + w] == st[q]);
            }
        }
        lemma_open_sum_move(before, done0, n, to as int, c as int);
        lemma_done_outlet_sum_step(r, before, after, done0, n, c as int, to as int);
    } else {
        lemma_open_sum_insert_outlet(before, done0, n, c as int);
        lemma_done_outlet_sum_step(r, before, after, done0, n, c as int, to as int);
    }
}

/// An outlet leaving the open cells takes its area out of their sum, and nothing moves.
proof fn lemma_open_sum_insert_outlet(area: Seq<u32>, done: Set<u32>, upto: int, c: int)
    requires
        0 <= upto <= area.len(),
        area.len() < u32::MAX,
        0 <= c < area.len(),
        !done.contains(c as u32),
    ensures
        open_sum(area, done.insert(c as u32), upto) == open_sum(area, done, upto) - (if c < upto { area[c] as int } else { 0 }),
    decreases upto,
{
    if upto > 0 {
        lemma_open_sum_insert_outlet(area, done, upto - 1, c);
        let x = upto - 1;
        assert(((x as u32) == (c as u32)) == (x == c));
    }
}

} // verus!
