//! The resident set of a streamed scene: per page its slot, per slot its page, and the
//! dependencies between pages. No GPU and no I/O: the streamer feeds it the needs read back
//! and the pages read, and applies what it decides.

use vstd::prelude::*;

use crate::streaming::{
    PAGE_NONE, NEED_NEG_INF, NEED_ZERO, at_least, is_wanted, need_at_least, need_below, need_from_bits, need_of_bits,
    wanted_need,
};

verus! {

/// How many of the first `k` pages are resident (their slot is not `PAGE_NONE`) and list
/// `q` among their parents: the resident children of page `q`.
pub open spec fn children_upto(slot_of: Seq<u32>, parents: Seq<Seq<u32>>, q: u32, k: int) -> int
    decreases k,
{
    if k <= 0 {
        0
    } else {
        children_upto(slot_of, parents, q, k - 1) + if slot_of[k - 1] != PAGE_NONE
            && parents[k - 1].contains(q) {
            1int
        } else {
            0int
        }
    }
}

/// The count over `[0, k)` lies between 0 and `k`.
proof fn lemma_children_bounds(slot_of: Seq<u32>, parents: Seq<Seq<u32>>, q: u32, k: int)
    requires
        k >= 0,
    ensures
        0 <= children_upto(slot_of, parents, q, k) <= k,
    decreases k,
{
    if k > 0 {
        lemma_children_bounds(slot_of, parents, q, k - 1);
    }
}

/// A resident child below `k` makes the count positive; a zero count means no resident
/// child below `k`.
proof fn lemma_children_zero(slot_of: Seq<u32>, parents: Seq<Seq<u32>>, q: u32, k: int, c: int)
    requires
        0 <= c < k,
        slot_of[c] != PAGE_NONE,
        parents[c].contains(q),
    ensures
        children_upto(slot_of, parents, q, k) >= 1,
    decreases k,
{
    lemma_children_bounds(slot_of, parents, q, k - 1);
    if c < k - 1 {
        lemma_children_zero(slot_of, parents, q, k - 1, c);
    }
}

/// A count of at least one over `[0, k)` has a resident page there with `q` among its parents.
proof fn lemma_children_some(slot_of: Seq<u32>, parents: Seq<Seq<u32>>, q: u32, k: int) -> (c: int)
    requires
        children_upto(slot_of, parents, q, k) >= 1,
    ensures
        0 <= c < k,
        slot_of[c] != PAGE_NONE,
        parents[c].contains(q),
    decreases k,
{
    if k <= 0 {
        0
    } else if slot_of[k - 1] != PAGE_NONE && parents[k - 1].contains(q) {
        k - 1
    } else {
        lemma_children_some(slot_of, parents, q, k - 1)
    }
}

/// Changing the slot of one page changes the count by that page's term alone.
proof fn lemma_children_update(
    slot_of: Seq<u32>,
    parents: Seq<Seq<u32>>,
    q: u32,
    k: int,
    page: int,
    slot: u32,
)
    requires
        0 <= page < slot_of.len(),
        0 <= k <= slot_of.len(),
    ensures
        children_upto(slot_of.update(page, slot), parents, q, k) == children_upto(
            slot_of,
            parents,
            q,
            k,
        ) + if page < k {
            (if slot != PAGE_NONE && parents[page].contains(q) {
                1int
            } else {
                0int
            }) - (if slot_of[page] != PAGE_NONE && parents[page].contains(q) {
                1int
            } else {
                0int
            })
        } else {
            0int
        },
    decreases k,
{
    if k > 0 {
        lemma_children_update(slot_of, parents, q, k - 1, page, slot);
    }
}

/// The first `i` entries hold `q` when the first `i - 1` do or entry `i - 1` is `q`.
proof fn lemma_take_push_contains(s: Seq<u32>, i: int, q: u32)
    requires
        1 <= i <= s.len(),
    ensures
        s.take(i).contains(q) == (s.take(i - 1).contains(q) || s[i - 1] == q),
{
    assert(s.take(i) == s.take(i - 1).push(s[i - 1]));
    if s.take(i).contains(q) {
        let k = choose|k: int| 0 <= k < i && #[trigger] s.take(i)[k] == q;
        if k < i - 1 {
            assert(s.take(i - 1)[k] == q);
        }
    }
    if s.take(i - 1).contains(q) {
        let k = choose|k: int| 0 <= k < i - 1 && #[trigger] s.take(i - 1)[k] == q;
        assert(s.take(i)[k] == q);
    }
    if s[i - 1] == q {
        assert(s.take(i)[i - 1] == q);
    }
}

/// With every slot `PAGE_NONE`, no page has resident children.
proof fn lemma_children_empty(slot_of: Seq<u32>, parents: Seq<Seq<u32>>, q: u32, k: int)
    requires
        0 <= k <= slot_of.len(),
        forall|p: int| 0 <= p < slot_of.len() ==> #[trigger] slot_of[p] == PAGE_NONE,
    ensures
        children_upto(slot_of, parents, q, k) == 0,
    decreases k,
{
    if k > 0 {
        lemma_children_empty(slot_of, parents, q, k - 1);
    }
}

/// `len` copies of `value`.
pub(crate) fn vec_filled<T: Copy>(value: T, len: usize) -> (v: Vec<T>)
    ensures
        v@.len() == len,
        forall|i: int| 0 <= i < len ==> #[trigger] v@[i] == value,
{
    let mut v: Vec<T> = Vec::new();
    let mut i: usize = 0;
    while i < len
        invariant
            i <= len,
            v@.len() == i,
            forall|k: int| 0 <= k < i ==> #[trigger] v@[k] == value,
        decreases len - i,
    {
        v.push(value);
        i = i + 1;
    }
    v
}

/// The order pages are requested and placed in: the neediest first, the lower page among
/// equals.
pub open spec fn needier(need: Seq<u32>, a: u32, b: u32) -> bool {
    need[a as int] > need[b as int] || (need[a as int] == need[b as int] && a < b)
}

/// [`needier`] is a strict total order on pages.
proof fn lemma_needier_order(need: Seq<u32>, a: u32, b: u32, c: u32)
    ensures
        !needier(need, a, a),
        a != b ==> (needier(need, a, b) || needier(need, b, a)),
        needier(need, a, b) ==> !needier(need, b, a),
        needier(need, a, b) && needier(need, b, c) ==> needier(need, a, c),
{
}

/// How many of the first `k` slots hold a page.
pub open spec fn occupied_upto(pages: Seq<u32>, k: int) -> nat
    decreases k,
{
    if k <= 0 {
        0
    } else {
        occupied_upto(pages, k - 1) + if pages[k - 1] != PAGE_NONE {
            1nat
        } else {
            0nat
        }
    }
}

/// How far the first `k` needs are from the largest need: shrinks whenever a need rises.
pub open spec fn slack_upto(need: Seq<u32>, k: int) -> int
    decreases k,
{
    if k <= 0 {
        0
    } else {
        slack_upto(need, k - 1) + (0xFFFF_FFFF - need[k - 1])
    }
}

/// Raising one need lowers the slack by as much.
proof fn lemma_slack_update(need: Seq<u32>, k: int, p: int, v: u32)
    requires
        0 <= p < need.len(),
        0 <= k <= need.len(),
    ensures
        slack_upto(need.update(p, v), k) == slack_upto(need, k) - if p < k {
            v - need[p]
        } else {
            0
        },
    decreases k,
{
    if k > 0 {
        lemma_slack_update(need, k - 1, p, v);
    }
}

/// The slack is never negative.
proof fn lemma_slack_nonneg(need: Seq<u32>, k: int)
    requires
        0 <= k <= need.len(),
    ensures
        slack_upto(need, k) >= 0,
    decreases k,
{
    if k > 0 {
        lemma_slack_nonneg(need, k - 1);
    }
}

/// Whether page `c` lends its need to its parents: it is wanted (its `own` need above zero)
/// and absent (no slot in `slots`), or its need rose above its own.
pub open spec fn lends(own: Seq<u32>, need: Seq<u32>, slots: Seq<u32>, c: int) -> bool {
    (is_wanted(own[c]) && slots[c] == PAGE_NONE) || need[c] > own[c]
}

/// How many of the first `k` pages are wanted ([`is_wanted`]) and absent.
pub open spec fn wanted_absent_upto(need: Seq<u32>, slots: Seq<u32>, k: int) -> nat
    decreases k,
{
    if k <= 0 {
        0
    } else {
        wanted_absent_upto(need, slots, k - 1) + if is_wanted(need[k - 1]) && slots[k - 1] == PAGE_NONE {
            1nat
        } else {
            0nat
        }
    }
}

/// The needs a frame's readback sets before any lending: the first `bits.len()` pages take
/// theirs, the others keep what they had.
pub open spec fn own_needs(old_need: Seq<u32>, bits: Seq<u32>) -> Seq<u32> {
    Seq::new(
        old_need.len(),
        |p: int|
            if p < bits.len() {
                need_of_bits(bits[p])
            } else {
                old_need[p]
            },
    )
}

/// Whether one of `items` is page `p`.
pub open spec fn holds_page<T>(items: Seq<(u32, T)>, p: u32) -> bool {
    exists|k: int| 0 <= k < items.len() && #[trigger] items[k].0 == p
}

/// Whether page `p` could take a slot in a placement from `start` that evicts `evicted`: it
/// was absent with its parents resident, and none of its parents is evicted.
pub open spec fn placeable(start: ResidentSet, evicted: Seq<u32>, p: u32) -> bool {
    &&& !start.is_resident(p as int)
    &&& start.spec_parents_resident(p as int)
    &&& forall|x: u32| #[trigger] start.parent_lists()[p as int].contains(x) ==> !evicted.contains(x)
}

/// Whether `v` is a parent of a page of `placed`, by the dependency lists `parents`.
pub open spec fn parent_of_placed<T>(parents: Seq<Seq<u32>>, placed: Seq<(u32, u32, T)>, v: u32) -> bool {
    exists|k: int| 0 <= k < placed.len() && #[trigger] parents[placed[k].0 as int].contains(v)
}

/// Whether one of `placed` put page `p` in a slot.
pub open spec fn placed_page<T>(placed: Seq<(u32, u32, T)>, p: u32) -> bool {
    exists|k: int| 0 <= k < placed.len() && #[trigger] placed[k].0 == p
}

/// Whether some placed page took `slot` and the page `victim` that left it is not needed at
/// least as much (`victim >= page` fails, as it does where either need is a NaN).
pub open spec fn gave_slot<T>(placed: Seq<(u32, u32, T)>, slot: u32, need: Seq<u32>, victim: u32) -> bool {
    exists|j: int| 0 <= j < placed.len() && #[trigger] placed[j].1 == slot && !need_at_least(need[victim as int], need[placed[j].0 as int])
}

/// Victims give up their slots in this order: the lower need first, the least recently
/// needed among equals.
pub open spec fn evicts_before(need: Seq<u32>, last: Seq<u64>, a: u32, b: u32) -> bool {
    need[a as int] < need[b as int] || (need[a as int] == need[b as int] && last[a as int]
        <= last[b as int])
}

/// Whether `x` is one of `list`.
fn list_contains(list: &Vec<u32>, x: u32) -> (r: bool)
    ensures
        r == list@.contains(x),
{
    let mut i: usize = 0;
    while i < list.len()
        invariant
            i <= list@.len(),
            forall|k: int| 0 <= k < i ==> list@[k] != x,
        decreases list@.len() - i,
    {
        if list[i] == x {
            proof {
                assert(list@[i as int] == x);
            }
            return true;
        }
        i = i + 1;
    }
    false
}

/// What [`ResidentSet::place`] decided for a frame's loaded pages.
pub struct Placement<T> {
    /// Pages to upload: (page, slot, bytes).
    pub placed: Vec<(u32, u32, T)>,
    /// Pages whose slot a placed page takes (their page-table entries become `PAGE_NONE`).
    pub evicted: Vec<u32>,
}

/// What [`ResidentSet::requests`] does with `room`: from `before` to `after`, asking for
/// `pages`.
pub open spec fn requests_outcome(before: ResidentSet, after: ResidentSet, room: int, pages: Seq<u32>) -> bool {
    &&& after.wf()
    &&& pages.len() <= room
    &&& forall|k: int| 0 <= k < pages.len() ==> #[trigger] pages[k] < before.page_count()
    &&& forall|k: int| 0 <= k < pages.len() ==> before.requestable(#[trigger] pages[k] as int)
    &&& forall|k: int, l: int|
                    0 <= k < l < pages.len() ==> needier(before.needs(), #[trigger] pages[k], #[trigger] pages[l])
    &&& forall|p: int|
                    0 <= p < before.page_count() && before.requestable(p) && !pages.contains(p as u32)
                        ==> pages.len() == room && (room > 0 ==> needier(
                        before.needs(),
                        pages[room - 1],
                        p as u32,
                    ))
    &&& after.slots() == before.slots()
    &&& after.pages() == before.pages()
    &&& after.free() == before.free()
    &&& after.pinned_pages() == before.pinned_pages()
    &&& after.needs() == before.needs()
    &&& after.last_needed_frames() == before.last_needed_frames()
    &&& after.parent_lists() == before.parent_lists()
    &&& after.child_counts() == before.child_counts()
    &&& forall|p: int|
                    0 <= p < before.page_count() ==> #[trigger] after.pending_pages()[p] == (
                    before.pending_pages()[p] || pages.contains(p as u32))
}

/// What [`ResidentSet::set_needs`] does with frame `frame`'s need bits: from `before` to
/// `after`, counting `wanted` pages wanted and absent.
pub open spec fn needs_outcome(before: ResidentSet, after: ResidentSet, frame: u64, need_bits: Seq<u32>, wanted: u32) -> bool {
    &&& after.wf()
    &&& after.slots() == before.slots()
    &&& after.pages() == before.pages()
    &&& after.free() == before.free()
    &&& after.pinned_pages() == before.pinned_pages()
    &&& after.pending_pages() == before.pending_pages()
    &&& after.parent_lists() == before.parent_lists()
    &&& wanted == wanted_absent_upto(
                    own_needs(before.needs(), need_bits),
                    before.slots(),
                    before.page_count() as int,
                )
    &&& forall|p: int|
                    0 <= p < before.page_count() ==> #[trigger] after.needs()[p] >= own_needs(
                        before.needs(),
                        need_bits,
                    )[p]
    &&& forall|p: int, j: int|
                    0 <= p < before.page_count() && 0 <= j < before.parent_lists()[p].len() && ((
                    is_wanted(own_needs(before.needs(), need_bits)[p]) && !before.is_resident(p))
                        || after.needs()[p] > own_needs(before.needs(), need_bits)[p])
                        ==> after.needs()[#[trigger] before.parent_lists()[p][j] as int]
                        >= after.needs()[p] || own_needs(before.needs(), need_bits)[before.parent_lists()[p][j] as int] < NEED_NEG_INF
    &&& forall|p: int|
                    #![trigger after.needs()[p]]
                    0 <= p < before.page_count() ==> exists|c: int|
                        0 <= c < before.page_count() && after.needs()[p] == #[trigger] own_needs(
                            before.needs(),
                            need_bits,
                        )[c]
    &&& forall|p: int|
                    #![trigger after.needs()[p]]
                    0 <= p < before.page_count() && after.needs()[p] > own_needs(before.needs(), need_bits)[p]
                        ==> exists|c: int|
                        0 <= c < before.page_count() && #[trigger] before.parent_lists()[c].contains(p as u32) && lends(
                            own_needs(before.needs(), need_bits),
                            after.needs(),
                            before.slots(),
                            c,
                        ) && after.needs()[c] == after.needs()[p]
    &&& forall|p: int|
                    0 <= p < before.page_count() ==> #[trigger] after.last_needed_frames()[p] == if (p
                        < need_bits.len() && is_wanted(need_of_bits(need_bits[p]))) || after.needs()[p]
                        > own_needs(before.needs(), need_bits)[p] {
                        frame
                    } else {
                        before.last_needed_frames()[p]
                    }
}

/// What [`ResidentSet::place`] does with `loaded` and `budget`: from `before` to `after`,
/// with `placement` and `later` handed back. Needs order as floats do by `total_cmp`; an
/// evicted page's need is not at least (`>=`) that of the page taking its slot. The placed
/// pages take the free slots from the back, then, once none is left, the slots of the evicted
/// pages in order, so no free slot is lost. Each placed
/// page is resident with its parents, the neediest first (equals in the order they were
/// loaded), and the pages over the budget come
/// back in `later`, no needier than a placed one, absent with their parents resident (a page
/// resident before was evicted in this call); a page that could be placed and was not found no
/// free slot left, and every page evictable before that stays and is needed less (`<`) is a
/// parent of a placed page or of a loaded page left unplaced that is needed at least as much
/// (the page itself among them).
pub open spec fn place_outcome<T>(
    before: ResidentSet,
    after: ResidentSet,
    loaded: Seq<(u32, T)>,
    budget: u32,
    placement: Placement<T>,
    later: Seq<(u32, T)>,
) -> bool {
    &&& after.wf()
    &&& after.page_count() == before.page_count()
    &&& after.slot_count() == before.slot_count()
    &&& after.needs() == before.needs()
    &&& after.last_needed_frames() == before.last_needed_frames()
    &&& after.parent_lists() == before.parent_lists()
    &&& after.pinned_pages() == before.pinned_pages()
    &&& ({
                    let placed = placement.placed@;
                    let evicted = placement.evicted@;
                                        let need = before.needs();
                    &&& placed.len() <= budget
                    &&& evicted.len() <= placed.len()
                    &&& later.len() > 0 ==> placed.len() == budget
                    &&& placed.len() + later.len() <= loaded.len()
                    &&& forall|k: int| 0 <= k < placed.len() ==> #[trigger] loaded.contains((placed[k].0, placed[k].2))
                    &&& forall|k: int| 0 <= k < later.len() ==> #[trigger] loaded.contains(later[k])
                    &&& forall|k: int| 0 <= k < later.len() ==> !after.is_resident(#[trigger] later[k].0 as int)
                        && after.spec_parents_resident(later[k].0 as int)
                        && (!before.is_resident(later[k].0 as int) || evicted.contains(later[k].0))
                    &&& forall|k: int| 0 <= k < placed.len() ==> after.slots()[#[trigger] placed[k].0 as int] == placed[k].1
                    &&& forall|k: int| 0 <= k < placed.len() ==> after.is_resident(#[trigger] placed[k].0 as int)
                        && after.spec_parents_resident(placed[k].0 as int)
                    &&& forall|k: int, l: int| 0 <= k < l < placed.len() ==> need[#[trigger] placed[k].0 as int] >= need[#[trigger] placed[l].0 as int]
                    &&& forall|k: int, l: int| 0 <= k < l < later.len() ==> need[#[trigger] later[k].0 as int] >= need[#[trigger] later[l].0 as int]
                    &&& forall|k: int, l: int| 0 <= k < placed.len() && 0 <= l < later.len() ==> need[#[trigger] placed[k].0 as int] >= need[#[trigger] later[l].0 as int]
                    &&& forall|k: int, l: int| 0 <= k < l < placed.len() && need[#[trigger] placed[k].0 as int] == need[#[trigger] placed[l].0 as int]
                        ==> exists|i: int, j: int| #![trigger loaded[i], loaded[j]] 0 <= i < j < loaded.len()
                        && loaded[i] == (placed[k].0, placed[k].2) && loaded[j] == (placed[l].0, placed[l].2)
                    &&& forall|k: int, l: int| 0 <= k < l < later.len() && need[#[trigger] later[k].0 as int] == need[#[trigger] later[l].0 as int]
                        ==> exists|i: int, j: int| #![trigger loaded[i], loaded[j]] 0 <= i < j < loaded.len()
                        && loaded[i] == later[k] && loaded[j] == later[l]
                    &&& forall|k: int, l: int| 0 <= k < placed.len() && 0 <= l < later.len() && need[#[trigger] placed[k].0 as int] == need[#[trigger] later[l].0 as int]
                        ==> exists|i: int, j: int| #![trigger loaded[i], loaded[j]] 0 <= i < j < loaded.len()
                        && loaded[i] == (placed[k].0, placed[k].2) && loaded[j] == later[l]
                    &&& forall|k: int| 0 <= k < placed.len() && before.is_resident(#[trigger] placed[k].0 as int) ==> evicted.contains(placed[k].0)
                    &&& forall|k: int| 0 <= k < evicted.len() ==> before.spec_evictable(#[trigger] evicted[k] as int)
                    &&& forall|k: int| 0 <= k < evicted.len() ==> (placed_page(placed, #[trigger] evicted[k]) || after.slots()[evicted[k] as int] == PAGE_NONE)
                    &&& forall|k: int| 0 <= k < evicted.len() ==> gave_slot(placed, before.slots()[evicted[k] as int], need, #[trigger] evicted[k])
                    &&& forall|k: int, l: int| 0 <= k < l < evicted.len() ==> need[#[trigger] evicted[k] as int] < need[#[trigger] evicted[l] as int]
                        || (need[evicted[k] as int] == need[evicted[l] as int]
                        && before.last_needed_frames()[evicted[k] as int] <= before.last_needed_frames()[evicted[l] as int])
                    &&& forall|k: int, u: u32|
                        #![trigger evicted[k], before.spec_evictable(u as int)]
                        0 <= k < evicted.len() && u < before.page_count() && before.spec_evictable(u as int) && !evicted.contains(u)
                        && (need[u as int] < need[evicted[k] as int] || (need[u as int] == need[evicted[k] as int]
                        && (before.last_needed_frames()[u as int] < before.last_needed_frames()[evicted[k] as int]
                        || (before.last_needed_frames()[u as int] == before.last_needed_frames()[evicted[k] as int]
                        && before.slots()[u as int] < before.slots()[evicted[k] as int]))))
                        ==> parent_of_placed(before.parent_lists(), placed, u)
                    &&& evicted.no_duplicates()
                    &&& forall|p: int| 0 <= p < before.page_count() && !placed_page(placed, p as u32) && !evicted.contains(p as u32)
                        ==> #[trigger] after.slots()[p] == before.slots()[p]
                    &&& after.free() == before.free().take(after.free().len() as int)
                    &&& evicted.len() > 0 ==> after.free().len() == 0
                    &&& after.free().len() + placed.len() == before.free().len() + evicted.len()
                    &&& forall|k: int| 0 <= k < placed.len() ==> #[trigger] placed[k].1 == if k < before.free().len() {
                        before.free()[before.free().len() - 1 - k]
                    } else {
                        before.slots()[evicted[k - before.free().len()] as int]
                    }
                    &&& forall|p: int| 0 <= p < before.page_count() && !holds_page(loaded, p as u32)
                        ==> #[trigger] after.pending_pages()[p] == before.pending_pages()[p]
                    &&& forall|p: int| 0 <= p < before.page_count() && #[trigger] after.pending_pages()[p]
                        ==> before.pending_pages()[p]
                    &&& forall|i: int| 0 <= i < loaded.len() && !holds_page(later, #[trigger] loaded[i].0)
                        ==> !after.pending_pages()[loaded[i].0 as int]
                    &&& after.free().len() > 0 ==> forall|i: int| 0 <= i < loaded.len() && placeable(
                        before,
                        evicted,
                        #[trigger] loaded[i].0,
                    ) ==> placed_page(placed, loaded[i].0) || holds_page(later, loaded[i].0)
                    &&& forall|i: int| 0 <= i < loaded.len() && placeable(before, evicted, #[trigger] loaded[i].0)
                        && !placed_page(placed, loaded[i].0) && !holds_page(later, loaded[i].0) ==> later.len() == 0
                        && after.free().len() == 0 && forall|i2: int| 0 <= i2 < loaded.len() && need[#[trigger] loaded[i2].0 as int]
                        < need[loaded[i].0 as int] ==> !placed_page(placed, loaded[i2].0)
                    &&& forall|i: int, v: u32| 0 <= i < loaded.len() && placeable(before, evicted, #[trigger] loaded[i].0)
                        && !placed_page(placed, loaded[i].0) && !holds_page(later, loaded[i].0) && v < before.page_count()
                        && #[trigger] before.spec_evictable(v as int) && !evicted.contains(v) && need_below(need[v as int], need[loaded[i].0 as int])
                        ==> parent_of_placed(before.parent_lists(), placed, v) || exists|i2: int| 0 <= i2 < loaded.len()
                        && !placed_page(placed, #[trigger] loaded[i2].0) && need[loaded[i2].0 as int] >= need[loaded[i].0 as int]
                        && before.parent_lists()[loaded[i2].0 as int].contains(v)
                    &&& (before.free().len() >= loaded.len() && budget >= loaded.len()) ==> {
                        &&& evicted.len() == 0
                        &&& forall|i: int| 0 <= i < loaded.len() && !before.is_resident(#[trigger] loaded[i].0 as int)
                            && before.spec_parents_resident(loaded[i].0 as int) ==> placed_page(placed, loaded[i].0)
                    }
                })
}

/// Which page sits in which pool slot, and the rules that keep the resident set closed
/// upwards.
pub struct ResidentSet {
    /// Per page: its slot, or `PAGE_NONE`.
    slot_of: Vec<u32>,
    /// Per slot: its page, or `PAGE_NONE`.
    page_in_slot: Vec<u32>,
    /// Empty slots, taken from the back.
    free_slots: Vec<u32>,
    /// Per page: resident for good.
    pinned: Vec<bool>,
    /// Per page: requested and not placed or dropped yet.
    pending: Vec<bool>,
    /// Per page: its need (see [`crate::streaming::need_of_bits`]; `+0.0`'s until a frame
    /// sets it), its own or lent by a wanted descendant.
    need: Vec<u32>,
    /// Per page: the last frame it had a need.
    last_needed: Vec<u64>,
    /// Per page: the pages holding a parent of its clusters.
    parents: Vec<Vec<u32>>,
    /// Per page: how many resident pages list it among their parents.
    resident_children: Vec<u32>,
}

impl ResidentSet {
    /// Pages in the scene.
    pub closed spec fn page_count(&self) -> nat {
        self.slot_of@.len()
    }

    /// There is a slot entry per page and a page entry per slot.
    pub proof fn lemma_counts(&self)
        ensures
            self.page_count() == self.slots().len(),
            self.slot_count() == self.pages().len(),
    {
    }

    /// A well-formed set is closed upwards: every resident page has its parents resident, and
    /// every pinned page is resident.
    pub proof fn lemma_closed(&self)
        requires
            self.wf(),
        ensures
            forall|p: int| 0 <= p < self.page_count() && #[trigger] self.is_resident(p) ==> self.spec_parents_resident(p),
            forall|p: int| 0 <= p < self.page_count() && #[trigger] self.pinned_pages()[p] ==> self.is_resident(p),
    {
    }

    /// A well-formed set has an entry per page in each per-page table.
    pub proof fn lemma_lengths(&self)
        requires
            self.wf(),
        ensures
            self.pending_pages().len() == self.page_count(),
            self.needs().len() == self.page_count(),
            self.last_needed_frames().len() == self.page_count(),
            self.pinned_pages().len() == self.page_count(),
            self.child_counts().len() == self.page_count(),
            self.parent_lists().len() == self.page_count(),
    {
    }

    /// Slots in the pool.
    pub closed spec fn slot_count(&self) -> nat {
        self.page_in_slot@.len()
    }

    /// Per page, its slot (`PAGE_NONE` when absent).
    pub closed spec fn slots(&self) -> Seq<u32> {
        self.slot_of@
    }

    /// Per slot, its page (`PAGE_NONE` when empty).
    pub closed spec fn pages(&self) -> Seq<u32> {
        self.page_in_slot@
    }

    /// Whether page `p` is resident.
    pub open spec fn is_resident(&self, p: int) -> bool {
        self.slots()[p] != PAGE_NONE
    }

    /// Per page, the pages holding a parent of its clusters.
    pub closed spec fn parent_lists(&self) -> Seq<Seq<u32>> {
        self.parents@.map_values(|v: Vec<u32>| v@)
    }

    /// Whether every parent page of `p` is resident.
    pub open spec fn spec_parents_resident(&self, p: int) -> bool {
        forall|j: int|
            0 <= j < self.parent_lists()[p].len() ==> self.is_resident(
                self.parent_lists()[p][j] as int,
            )
    }

    /// Per page, its need.
    pub closed spec fn needs(&self) -> Seq<u32> {
        self.need@
    }

    /// Per page, the last frame it had a need.
    pub closed spec fn last_needed_frames(&self) -> Seq<u64> {
        self.last_needed@
    }

    /// Per page, whether it is pinned.
    pub closed spec fn pinned_pages(&self) -> Seq<bool> {
        self.pinned@
    }

    /// Per page, whether it is requested and not placed or dropped yet.
    pub closed spec fn pending_pages(&self) -> Seq<bool> {
        self.pending@
    }

    /// Per page, its resident children as counted.
    pub closed spec fn child_counts(&self) -> Seq<u32> {
        self.resident_children@
    }

    /// The empty slots placements take first.
    pub closed spec fn free(&self) -> Seq<u32> {
        self.free_slots@
    }

    /// Whether page `p` may leave: resident, not pinned, and no resident page depends on it.
    pub open spec fn spec_evictable(&self, p: int) -> bool {
        &&& self.is_resident(p)
        &&& !self.pinned_pages()[p]
        &&& self.child_counts()[p] == 0
    }

    /// The slot and page tables agree, every slot is a slot of the pool, the free slots are
    /// empty and distinct, every dependency names a page, with no repeats in a list.
    pub closed spec fn tables_agree(&self) -> bool {
        let n = self.page_count();
        let m = self.slot_count();
        &&& n < 0xFFFF_FFFF
        &&& m < 0xFFFF_FFFF
        &&& self.page_in_slot@.len() == m
        &&& self.pinned@.len() == n
        &&& self.pending@.len() == n
        &&& self.need@.len() == n
        &&& self.last_needed@.len() == n
        &&& self.parents@.len() == n
        &&& self.resident_children@.len() == n
        &&& forall|p: int|
            0 <= p < n && #[trigger] self.slot_of@[p] != PAGE_NONE ==> self.slot_of@[p] < m
                && self.page_in_slot@[self.slot_of@[p] as int] == p
        &&& forall|s: int|
            0 <= s < m && #[trigger] self.page_in_slot@[s] != PAGE_NONE ==> self.page_in_slot@[s]
                < n && self.slot_of@[self.page_in_slot@[s] as int] == s
        &&& forall|i: int|
            0 <= i < self.free_slots@.len() ==> #[trigger] self.free_slots@[i] < m
                && self.page_in_slot@[self.free_slots@[i] as int] == PAGE_NONE
        &&& self.free_slots@.no_duplicates()
        &&& forall|p: int, j: int|
            0 <= p < n && 0 <= j < self.parent_lists()[p].len() ==> #[trigger] self.parent_lists()[p][j]
                < n
        &&& forall|p: int| 0 <= p < n ==> #[trigger] self.parent_lists()[p].no_duplicates()
    }

    /// The tables agree and every page's resident children are counted.
    pub closed spec fn counts_ok(&self) -> bool {
        let n = self.page_count();
        &&& self.tables_agree()
        &&& forall|q: int|
            0 <= q < n ==> #[trigger] self.resident_children@[q] == children_upto(
                self.slot_of@,
                self.parent_lists(),
                q as u32,
                n as int,
            )
    }

    /// Every resident page has its parents resident.
    pub closed spec fn closed_upwards(&self) -> bool {
        forall|p: int|
            0 <= p < self.page_count() && #[trigger] self.is_resident(p)
                ==> self.spec_parents_resident(p)
    }

    /// Every pinned page is resident.
    pub closed spec fn pinned_resident(&self) -> bool {
        forall|p: int| 0 <= p < self.page_count() && #[trigger] self.pinned@[p] ==> self.is_resident(p)
    }

    /// The resident set is consistent and closed upwards: every resident page has its parents
    /// resident, the pinned pages are resident, and the resident children are counted.
    pub closed spec fn wf(&self) -> bool {
        &&& self.counts_ok()
        &&& self.closed_upwards()
        &&& self.pinned_resident()
    }

    /// A resident page whose parents include `q` makes `q` not evictable.
    proof fn lemma_child_blocks(&self, c: int, q: int)
        requires
            self.wf(),
            0 <= c < self.page_count(),
            0 <= q < self.page_count(),
            self.is_resident(c),
            self.parent_lists()[c].contains(q as u32),
        ensures
            self.resident_children@[q] >= 1,
    {
        lemma_children_zero(
            self.slot_of@,
            self.parent_lists(),
            q as u32,
            self.page_count() as int,
            c,
        );
    }
}


impl ResidentSet {
    /// Puts `page` in the empty `slot` and counts it among its parents' resident children.
    fn occupy(&mut self, page: u32, slot: u32)
        requires
            old(self).counts_ok(),
            page < old(self).page_count(),
            !old(self).is_resident(page as int),
            slot < old(self).slot_count(),
            old(self).pages()[slot as int] == PAGE_NONE,
            !old(self).free().contains(slot),
        ensures
            final(self).counts_ok(),
            old(self).closed_upwards() && old(self).spec_parents_resident(page as int)
                ==> final(self).closed_upwards(),
            old(self).pinned_resident() ==> final(self).pinned_resident(),
            final(self).slots() == old(self).slots().update(page as int, slot),
            final(self).pages() == old(self).pages().update(slot as int, page),
            final(self).free() == old(self).free(),
            final(self).pinned_pages() == old(self).pinned_pages(),
            final(self).pending_pages() == old(self).pending_pages(),
            final(self).needs() == old(self).needs(),
            final(self).last_needed_frames() == old(self).last_needed_frames(),
            final(self).parent_lists() == old(self).parent_lists(),
            final(self).parents@ == old(self).parents@,
            final(self).pinned@ == old(self).pinned@,
            final(self).pending@ == old(self).pending@,
            final(self).need@ == old(self).need@,
            final(self).last_needed@ == old(self).last_needed@,
            final(self).free_slots@ == old(self).free_slots@,
    {
        let ghost old_rc = self.resident_children@;
        let ghost n = self.slot_of@.len() as int;
        let ghost lists = self.parent_lists();
        self.slot_of.set(page as usize, slot);
        self.page_in_slot.set(slot as usize, page);
        assert(self.parent_lists() == lists);
        proof {
            assert forall|q: int| 0 <= q < n implies #[trigger] old_rc[q] <= n by {
                lemma_children_bounds(old(self).slot_of@, lists, q as u32, n);
            }
        }
        let ghost new_slots = self.slot_of@;
        let ghost new_pages = self.page_in_slot@;
        let count = self.parents[page as usize].len();
        let mut i: usize = 0;
        while i < count
            invariant
                self.tables_agree(),
                n == self.slot_of@.len(),
                lists == self.parent_lists(),
                count == lists[page as int].len(),
                0 <= page < n,
                i <= count,
                self.resident_children@.len() == n,
                n < 0xFFFF_FFFF,
                lists[page as int].no_duplicates(),
                forall|j: int| 0 <= j < count ==> #[trigger] lists[page as int][j] < n,
                forall|q: int|
                    0 <= q < n ==> #[trigger] self.resident_children@[q] == old_rc[q] + if lists[page as int].take(i as int).contains(q as u32) {
                        1int
                    } else {
                        0int
                    },
                forall|q: int| 0 <= q < n ==> #[trigger] old_rc[q] <= n,
                old_rc.len() == n,
                self.slot_of@ == new_slots,
                self.page_in_slot@ == new_pages,
                new_slots == old(self).slot_of@.update(page as int, slot),
                new_pages == old(self).page_in_slot@.update(slot as int, page),
                self.free_slots@ == old(self).free_slots@,
                self.pinned@ == old(self).pinned@,
                self.pending@ == old(self).pending@,
                self.need@ == old(self).need@,
                self.last_needed@ == old(self).last_needed@,
                self.parents@ == old(self).parents@,
            decreases count - i,
        {
            let parent = self.parents[page as usize][i];
            assert(parent == lists[page as int][i as int]);
            assert(!lists[page as int].take(i as int).contains(parent)) by {
                if lists[page as int].take(i as int).contains(parent) {
                    let k = choose|k: int| 0 <= k < i && #[trigger] lists[page as int].take(i as int)[k] == parent;
                    assert(lists[page as int][k] == lists[page as int][i as int]);
                }
            }
            let current = self.resident_children[parent as usize];
            assert(current == old_rc[parent as int]);
            let ghost prev = self.resident_children@;
            self.resident_children.set(parent as usize, current + 1);
            assert(self.resident_children@ == prev.update(parent as int, (current + 1) as u32));
            i = i + 1;
            assert forall|q: int| 0 <= q < n implies #[trigger] self.resident_children@[q] == old_rc[q] + if lists[page as int].take(i as int).contains(q as u32) {
                1int
            } else {
                0int
            } by {
                assert(lists[page as int].take(i as int) == lists[page as int].take(i - 1).push(parent));
                assert(prev[q] == old_rc[q] + if lists[page as int].take(i - 1).contains(q as u32) {
                    1int
                } else {
                    0int
                });
                if q == parent as int {
                    assert(lists[page as int].take(i as int)[i - 1] == parent);
                } else {
                    assert(self.resident_children@[q] == prev[q]);
                    if lists[page as int].take(i as int).contains(q as u32) {
                        let k = choose|k: int| 0 <= k < i && #[trigger] lists[page as int].take(i as int)[k] == q as u32;
                        assert(k < i - 1);
                        assert(lists[page as int].take(i - 1)[k] == q as u32);
                    }
                    if lists[page as int].take(i - 1).contains(q as u32) {
                        let k = choose|k: int| 0 <= k < i - 1 && #[trigger] lists[page as int].take(i - 1)[k] == q as u32;
                        assert(lists[page as int].take(i as int)[k] == q as u32);
                    }
                }
            }
        }
        proof {
            assert(lists[page as int].take(count as int) == lists[page as int]);
            let old_slots = old(self).slots();
            assert forall|q: int| 0 <= q < n implies #[trigger] self.resident_children@[q] == children_upto(
                self.slot_of@,
                self.parent_lists(),
                q as u32,
                n,
            ) by {
                lemma_children_update(old_slots, lists, q as u32, n, page as int, slot);
                assert(self.slot_of@ == old_slots.update(page as int, slot));
            }
            if old(self).closed_upwards() && old(self).spec_parents_resident(page as int) {
                assert forall|p: int| 0 <= p < n && #[trigger] self.is_resident(p) implies self.spec_parents_resident(p) by {
                    if p != page as int {
                        assert(old(self).is_resident(p));
                        assert(old(self).spec_parents_resident(p));
                    }
                    assert forall|j: int| 0 <= j < self.parent_lists()[p].len() implies self.is_resident(self.parent_lists()[p][j] as int) by {
                        let q = self.parent_lists()[p][j] as int;
                        assert(old(self).is_resident(q));
                    }
                }
            }
            if old(self).pinned_resident() {
                assert forall|p: int| 0 <= p < n && #[trigger] self.pinned@[p] implies self.is_resident(p) by {
                    assert(old(self).is_resident(p));
                }
            }
        }
    }

    /// Takes `page` out of its slot (which it returns, empty) and out of its parents'
    /// resident children.
    fn vacate(&mut self, page: u32) -> (slot: u32)
        requires
            old(self).wf(),
            page < old(self).page_count(),
            old(self).spec_evictable(page as int),
        ensures
            final(self).wf(),
            slot == old(self).slots()[page as int],
            slot < old(self).slot_count(),
            final(self).slots() == old(self).slots().update(page as int, PAGE_NONE),
            final(self).pages() == old(self).pages().update(slot as int, PAGE_NONE),
            final(self).free() == old(self).free(),
            final(self).pinned_pages() == old(self).pinned_pages(),
            final(self).pending_pages() == old(self).pending_pages(),
            final(self).needs() == old(self).needs(),
            final(self).last_needed_frames() == old(self).last_needed_frames(),
            final(self).parent_lists() == old(self).parent_lists(),
            final(self).parents@ == old(self).parents@,
            final(self).pinned@ == old(self).pinned@,
            final(self).pending@ == old(self).pending@,
            final(self).need@ == old(self).need@,
            final(self).last_needed@ == old(self).last_needed@,
            final(self).free_slots@ == old(self).free_slots@,
    {
        let ghost old_rc = self.resident_children@;
        let ghost n = self.slot_of@.len() as int;
        let ghost lists = self.parent_lists();
        let slot = self.slot_of[page as usize];
        proof {
            assert forall|j: int| 0 <= j < lists[page as int].len() implies #[trigger] old_rc[lists[page as int][j] as int] >= 1 by {
                assert(lists[page as int][j] < n);
                assert(lists[page as int].contains(lists[page as int][j]));
                old(self).lemma_child_blocks(page as int, lists[page as int][j] as int);
            }
        }
        self.slot_of.set(page as usize, PAGE_NONE);
        self.page_in_slot.set(slot as usize, PAGE_NONE);
        assert(self.parent_lists() == lists);
        let ghost new_slots = self.slot_of@;
        let ghost new_pages = self.page_in_slot@;
        let count = self.parents[page as usize].len();
        let mut i: usize = 0;
        while i < count
            invariant
                n == self.slot_of@.len(),
                lists == self.parent_lists(),
                count == lists[page as int].len(),
                0 <= page < n,
                i <= count,
                self.resident_children@.len() == n,
                old_rc.len() == n,
                n < 0xFFFF_FFFF,
                self.parents@.len() == n,
                lists[page as int].no_duplicates(),
                forall|j: int| 0 <= j < count ==> #[trigger] lists[page as int][j] < n,
                forall|j: int| 0 <= j < count ==> #[trigger] old_rc[lists[page as int][j] as int] >= 1,
                forall|q: int|
                    0 <= q < n ==> #[trigger] self.resident_children@[q] == old_rc[q] - if lists[page as int].take(i as int).contains(q as u32) {
                        1int
                    } else {
                        0int
                    },
                self.slot_of@ == new_slots,
                self.page_in_slot@ == new_pages,
                self.free_slots@ == old(self).free_slots@,
                self.pinned@ == old(self).pinned@,
                self.pending@ == old(self).pending@,
                self.need@ == old(self).need@,
                self.last_needed@ == old(self).last_needed@,
                self.parents@ == old(self).parents@,
            decreases count - i,
        {
            let parent = self.parents[page as usize][i];
            assert(parent == lists[page as int][i as int]);
            assert(!lists[page as int].take(i as int).contains(parent)) by {
                if lists[page as int].take(i as int).contains(parent) {
                    let k = choose|k: int| 0 <= k < i && #[trigger] lists[page as int].take(i as int)[k] == parent;
                    assert(lists[page as int][k] == lists[page as int][i as int]);
                }
            }
            let current = self.resident_children[parent as usize];
            assert(current == old_rc[parent as int]);
            let ghost prev = self.resident_children@;
            self.resident_children.set(parent as usize, current - 1);
            assert(self.resident_children@ == prev.update(parent as int, (current - 1) as u32));
            i = i + 1;
            assert forall|q: int| 0 <= q < n implies #[trigger] self.resident_children@[q] == old_rc[q] - if lists[page as int].take(i as int).contains(q as u32) {
                1int
            } else {
                0int
            } by {
                lemma_take_push_contains(lists[page as int], i as int, q as u32);
                assert(prev[q] == old_rc[q] - if lists[page as int].take(i - 1).contains(q as u32) {
                    1int
                } else {
                    0int
                });
                if q == parent as int {
                    assert(lists[page as int].take(i as int).contains(q as u32));
                    assert(self.resident_children@[q] == current - 1);
                } else {
                    assert(self.resident_children@[q] == prev[q]);
                    assert(lists[page as int][i - 1] == parent);
                    assert(q as u32 != parent);
                    assert(lists[page as int].take(i as int).contains(q as u32) == lists[page as int].take(i - 1).contains(q as u32));
                }
            }
        }
        proof {
            assert(lists[page as int].take(count as int) == lists[page as int]);
            let old_slots = old(self).slots();
            assert(self.slot_of@ == old_slots.update(page as int, PAGE_NONE));
            assert forall|q: int| 0 <= q < n implies #[trigger] self.resident_children@[q] == children_upto(
                self.slot_of@,
                self.parent_lists(),
                q as u32,
                n,
            ) by {
                lemma_children_update(old_slots, lists, q as u32, n, page as int, PAGE_NONE);
            }
            assert forall|p: int| 0 <= p < n && #[trigger] self.is_resident(p) implies self.spec_parents_resident(p) by {
                assert(old(self).is_resident(p));
                assert(old(self).spec_parents_resident(p));
                assert forall|j: int| 0 <= j < self.parent_lists()[p].len() implies self.is_resident(self.parent_lists()[p][j] as int) by {
                    let q = self.parent_lists()[p][j] as int;
                    assert(old(self).is_resident(q));
                    if q == page as int {
                        assert(lists[p].contains(page));
                        old(self).lemma_child_blocks(p, page as int);
                    }
                }
            }
            assert forall|p: int| 0 <= p < n && #[trigger] self.pinned@[p] implies self.is_resident(p) by {
                assert(old(self).is_resident(p));
            }
        }
        slot
    }

    /// `page_count` pages whose dependencies `parents` lists (every entry a page, no page
    /// twice in a list), `pool_pages` slots, and the pages `pinned` resident in the first
    /// slots for good: `pinned[i]` in slot `i`, the other slots free, taken from the lowest.
    /// The parents of a pinned page are pinned too, so the set starts closed upwards.
    pub fn new(page_count: usize, pool_pages: u32, parents: Vec<Vec<u32>>, pinned: &[u32]) -> (set: Self)
        requires
            page_count < 0xFFFF_FFFF,
            pool_pages < 0xFFFF_FFFF,
            parents@.len() == page_count,
            forall|p: int, j: int|
                0 <= p < page_count && 0 <= j < parents@[p]@.len() ==> #[trigger] parents@[p]@[j]
                    < page_count,
            forall|p: int| 0 <= p < page_count ==> #[trigger] parents@[p]@.no_duplicates(),
            pinned@.len() <= pool_pages,
            pinned@.no_duplicates(),
            forall|i: int| 0 <= i < pinned@.len() ==> #[trigger] pinned@[i] < page_count,
            forall|i: int, j: int|
                0 <= i < pinned@.len() && 0 <= j < parents@[pinned@[i] as int]@.len()
                    ==> pinned@.contains(#[trigger] parents@[pinned@[i] as int]@[j]),
        ensures
            set.wf(),
            set.page_count() == page_count,
            set.slot_count() == pool_pages,
            set.parent_lists() == parents@.map_values(|v: Vec<u32>| v@),
            forall|i: int| 0 <= i < pinned@.len() ==> set.slots()[#[trigger] pinned@[i] as int] == i,
            forall|p: int|
                0 <= p < page_count && !pinned@.contains(p as u32) ==> #[trigger] set.slots()[p]
                    == PAGE_NONE,
            forall|s: int| 0 <= s < pinned@.len() ==> #[trigger] set.pages()[s] == pinned@[s],
            forall|s: int| pinned@.len() <= s < pool_pages ==> #[trigger] set.pages()[s] == PAGE_NONE,
            forall|p: int| 0 <= p < page_count ==> #[trigger] set.pinned_pages()[p] == pinned@.contains(p as u32),
            forall|p: int| 0 <= p < page_count ==> #[trigger] set.needs()[p] == NEED_ZERO,
            forall|p: int| 0 <= p < page_count ==> #[trigger] set.last_needed_frames()[p] == 0,
            forall|p: int| 0 <= p < page_count ==> !#[trigger] set.pending_pages()[p],
            set.free().len() == pool_pages - pinned@.len(),
            forall|k: int| 0 <= k < set.free().len() ==> #[trigger] set.free()[k] == pool_pages - 1 - k,
    {
        let mut free_slots: Vec<u32> = Vec::new();
        let mut next = pool_pages;
        let first = pinned.len() as u32;
        while next > first
            invariant
                first <= next <= pool_pages,
                free_slots@.len() == pool_pages - next,
                forall|k: int| 0 <= k < free_slots@.len() ==> #[trigger] free_slots@[k] == pool_pages - 1 - k,
            decreases next,
        {
            next = next - 1;
            free_slots.push(next);
        }
        let mut set = ResidentSet {
            slot_of: vec_filled(PAGE_NONE, page_count),
            page_in_slot: vec_filled(PAGE_NONE, pool_pages as usize),
            free_slots,
            pinned: vec_filled(false, page_count),
            pending: vec_filled(false, page_count),
            need: vec_filled(NEED_ZERO, page_count),
            last_needed: vec_filled(0u64, page_count),
            parents,
            resident_children: vec_filled(0u32, page_count),
        };
        let ghost lists = set.parent_lists();
        proof {
            assert forall|q: int| 0 <= q < page_count implies #[trigger] set.resident_children@[q] == children_upto(
                set.slot_of@,
                lists,
                q as u32,
                page_count as int,
            ) by {
                lemma_children_empty(set.slot_of@, lists, q as u32, page_count as int);
            }
            assert forall|i: int| 0 <= i < set.free_slots@.len() implies #[trigger] set.free_slots@[i] < pool_pages
                && set.page_in_slot@[set.free_slots@[i] as int] == PAGE_NONE by {}
            assert(set.free_slots@.no_duplicates()) by {
                assert forall|a: int, b: int| 0 <= a < b < set.free_slots@.len() implies set.free_slots@[a] != set.free_slots@[b] by {}
            }
        }
        let mut i: usize = 0;
        while i < pinned.len()
            invariant
                set.counts_ok(),
                set.page_count() == page_count,
                set.slot_count() == pool_pages,
                set.parent_lists() == lists,
                lists == parents@.map_values(|v: Vec<u32>| v@),
                pinned@.len() <= pool_pages,
                pinned@.no_duplicates(),
                forall|k: int| 0 <= k < pinned@.len() ==> #[trigger] pinned@[k] < page_count,
                i <= pinned@.len(),
                forall|k: int| 0 <= k < i ==> set.slot_of@[#[trigger] pinned@[k] as int] == k,
                forall|p: int|
                    0 <= p < page_count && !pinned@.take(i as int).contains(p as u32) ==> #[trigger] set.slot_of@[p]
                        == PAGE_NONE,
                forall|s: int| 0 <= s < i ==> #[trigger] set.page_in_slot@[s] == pinned@[s],
                forall|s: int| i <= s < pool_pages ==> #[trigger] set.page_in_slot@[s] == PAGE_NONE,
                forall|p: int| 0 <= p < page_count ==> #[trigger] set.pinned@[p] == pinned@.take(i as int).contains(p as u32),
                forall|p: int| 0 <= p < page_count ==> #[trigger] set.need@[p] == NEED_ZERO,
                forall|p: int| 0 <= p < page_count ==> #[trigger] set.last_needed@[p] == 0,
                forall|p: int| 0 <= p < page_count ==> !#[trigger] set.pending@[p],
                set.free_slots@.len() == pool_pages - pinned@.len(),
                forall|k: int| 0 <= k < set.free_slots@.len() ==> #[trigger] set.free_slots@[k] == pool_pages - 1 - k,
            decreases pinned@.len() - i,
        {
            let page = pinned[i];
            proof {
                if pinned@.take(i as int).contains(page) {
                    let k = choose|k: int| 0 <= k < i && #[trigger] pinned@.take(i as int)[k] == page;
                    assert(pinned@[k] == pinned@[i as int]);
                }
                assert(!set.free_slots@.contains(i as u32)) by {
                    if set.free_slots@.contains(i as u32) {
                        let k = choose|k: int| 0 <= k < set.free_slots@.len() && #[trigger] set.free_slots@[k] == i as u32;
                    }
                }
            }
            set.occupy(page, i as u32);
            set.pinned.set(page as usize, true);
            i = i + 1;
            proof {
                assert forall|p: int| 0 <= p < page_count implies #[trigger] set.pinned@[p] == pinned@.take(i as int).contains(p as u32) by {
                    lemma_take_push_contains(pinned@, i as int, p as u32);
                }
                assert forall|p: int|
                    0 <= p < page_count && !pinned@.take(i as int).contains(p as u32) implies #[trigger] set.slot_of@[p]
                        == PAGE_NONE by {
                    lemma_take_push_contains(pinned@, i as int, p as u32);
                }
                assert(set.tables_agree());
            }
        }
        proof {
            assert(pinned@.take(pinned@.len() as int) == pinned@);
            assert forall|p: int| 0 <= p < page_count && #[trigger] set.pinned@[p] implies set.is_resident(p) by {
                let k = choose|k: int| 0 <= k < pinned@.len() && #[trigger] pinned@[k] == p as u32;
                assert(set.slot_of@[pinned@[k] as int] == k);
            }
            assert forall|p: int| 0 <= p < page_count && #[trigger] set.is_resident(p) implies set.spec_parents_resident(p) by {
                if !pinned@.contains(p as u32) {
                    assert(set.slot_of@[p] == PAGE_NONE);
                }
                let k = choose|k: int| 0 <= k < pinned@.len() && #[trigger] pinned@[k] == p as u32;
                assert forall|j: int| 0 <= j < set.parent_lists()[p].len() implies set.is_resident(set.parent_lists()[p][j] as int) by {
                    let q = set.parent_lists()[p][j];
                    assert(pinned@.contains(parents@[pinned@[k] as int]@[j]));
                    let m = choose|m: int| 0 <= m < pinned@.len() && #[trigger] pinned@[m] == q;
                    assert(set.slot_of@[pinned@[m] as int] == m);
                }
            }
        }
        set
    }

    /// Whether page `page` is resident.
    pub fn resident(&self, page: u32) -> (r: bool)
        requires
            self.wf(),
            page < self.page_count(),
        ensures
            r == self.is_resident(page as int),
    {
        self.slot_of[page as usize] != PAGE_NONE
    }

    /// Whether every page holding a parent of `page`'s clusters is resident.
    pub fn parents_resident(&self, page: u32) -> (r: bool)
        requires
            self.wf(),
            page < self.page_count(),
        ensures
            r == self.spec_parents_resident(page as int),
    {
        let ghost lists = self.parent_lists();
        let list = &self.parents[page as usize];
        assert(list@ == lists[page as int]);
        let mut i: usize = 0;
        while i < list.len()
            invariant
                self.wf(),
                lists == self.parent_lists(),
                page < self.page_count(),
                list@ == lists[page as int],
                i <= list@.len(),
                forall|j: int| 0 <= j < i ==> self.is_resident(#[trigger] lists[page as int][j] as int),
            decreases list@.len() - i,
        {
            if !self.resident(list[i]) {
                return false;
            }
            i = i + 1;
        }
        true
    }

    /// Whether `page` may leave: resident, not pinned, no resident page depending on it.
    pub fn evictable(&self, page: u32) -> (r: bool)
        requires
            self.wf(),
            page < self.page_count(),
        ensures
            r == self.spec_evictable(page as int),
    {
        self.resident(page) && !self.pinned[page as usize] && self.resident_children[page as usize]
            == 0
    }

    /// Slots holding a page.
    pub fn resident_count(&self) -> (count: u32)
        requires
            self.wf(),
        ensures
            count == occupied_upto(self.pages(), self.slot_count() as int),
    {
        let mut count: u32 = 0;
        let mut s: usize = 0;
        while s < self.page_in_slot.len()
            invariant
                self.wf(),
                s <= self.page_in_slot@.len(),
                count == occupied_upto(self.page_in_slot@, s as int),
                count <= s,
            decreases self.page_in_slot@.len() - s,
        {
            if self.page_in_slot[s] != PAGE_NONE {
                count = count + 1;
            }
            s = s + 1;
        }
        count
    }

    /// Whether page `p` may be requested: wanted, absent, not requested yet, its parents
    /// resident.
    pub open spec fn requestable(&self, p: int) -> bool {
        &&& is_wanted(self.needs()[p])
        &&& !self.is_resident(p)
        &&& !self.pending_pages()[p]
        &&& self.spec_parents_resident(p)
    }

    fn needier_exec(&self, a: u32, b: u32) -> (r: bool)
        requires
            self.wf(),
            a < self.page_count(),
            b < self.page_count(),
        ensures
            r == needier(self.needs(), a, b),
    {
        let (na, nb) = (self.need[a as usize], self.need[b as usize]);
        na > nb || (na == nb && a < b)
    }

    /// Up to `room` absent, wanted pages whose parents are all resident and that are not
    /// already requested, the neediest first (the lower page among equals); marks them
    /// requested. The pages left out all come after the last one taken.
    pub fn requests(&mut self, room: usize) -> (pages: Vec<u32>)
        requires
            old(self).wf(),
        ensures
            requests_outcome(*old(self), *final(self), room as int, pages@),

    {
        let mut out: Vec<u32> = Vec::new();
        if room == 0 {
            return out;
        }
        let n = self.slot_of.len();
        let mut p: usize = 0;
        while p < n
            invariant
                self.wf(),
                *self == *old(self),
                n == self.page_count(),
                room > 0,
                p <= n,
                out@.len() <= room,
                forall|k: int| 0 <= k < out@.len() ==> #[trigger] out@[k] < p,
                forall|k: int| 0 <= k < out@.len() ==> self.requestable(#[trigger] out@[k] as int),
                forall|k: int, l: int|
                    0 <= k < l < out@.len() ==> needier(self.needs(), #[trigger] out@[k], #[trigger] out@[l]),
                forall|e: int|
                    0 <= e < p && self.requestable(e) && !out@.contains(e as u32) ==> out@.len() == room
                        && needier(self.needs(), out@[room - 1], e as u32),
            decreases n - p,
        {
            let page = p as u32;
            if wanted_need(self.need[p]) && !self.resident(page) && !self.pending[p] && self.parents_resident(page) {
                // The first listed page this one comes before.
                let mut pos: usize = 0;
                while pos < out.len() && !self.needier_exec(page, out[pos])
                    invariant
                        self.wf(),
                        page < self.page_count(),
                        pos <= out@.len(),
                        forall|k: int| 0 <= k < out@.len() ==> #[trigger] out@[k] < page,
                        forall|k: int| 0 <= k < pos ==> !needier(self.needs(), page, #[trigger] out@[k]),
                    decreases out@.len() - pos,
                {
                    pos = pos + 1;
                }
                let ghost before = out@;
                if pos < room {
                    out.insert(pos, page);
                    proof {
                        assert forall|k: int, l: int|
                            0 <= k < l < out@.len() implies needier(self.needs(), #[trigger] out@[k], #[trigger] out@[l]) by {
                            if k < pos && l == pos {
                                lemma_needier_order(self.needs(), page, before[k], page);
                                assert(before[k] < page);
                            } else if k == pos && l > pos {
                                if l - 1 > pos {
                                    lemma_needier_order(self.needs(), page, before[pos as int], before[l - 1]);
                                }
                            } else if k < pos && l > pos {
                                assert(needier(self.needs(), before[k], before[l - 1]));
                            } else if k > pos {
                                assert(needier(self.needs(), before[k - 1], before[l - 1]));
                            }
                        }
                    }
                    let ghost inserted = out@;
                    if out.len() > room {
                        out.pop();
                        proof {
                            assert(before.len() == room);
                            assert(out@ == inserted.take(room as int));
                            assert forall|e: int|
                                0 <= e < p + 1 && self.requestable(e) && !out@.contains(e as u32) implies
                                    needier(self.needs(), out@[room - 1], e as u32) by {
                                if e == p {
                                    assert(out@[pos as int] == page);
                                } else if before.contains(e as u32) {
                                    let k = choose|k: int| 0 <= k < before.len() && #[trigger] before[k] == e as u32;
                                    if k < room - 1 {
                                        if k < pos {
                                            assert(out@[k] == e as u32);
                                        } else {
                                            assert(out@[k + 1] == e as u32);
                                        }
                                    }
                                    assert(k == room - 1);
                                    assert(inserted[room as int] == e as u32);
                                    assert(needier(self.needs(), inserted[room - 1], inserted[room as int]));
                                } else {
                                    assert(needier(self.needs(), before[room - 1], e as u32));
                                    assert(needier(self.needs(), inserted[room - 1], inserted[room as int]));
                                    assert(inserted[room as int] == before[room - 1]);
                                    lemma_needier_order(self.needs(), inserted[room - 1], before[room - 1], e as u32);
                                }
                            }
                        }
                    } else {
                        proof {
                            assert forall|e: int|
                                0 <= e < p + 1 && self.requestable(e) && !out@.contains(e as u32) implies out@.len() == room
                                    && needier(self.needs(), out@[room - 1], e as u32) by {
                                if e == p {
                                    assert(out@[pos as int] == page);
                                } else if before.contains(e as u32) {
                                    let k = choose|k: int| 0 <= k < before.len() && #[trigger] before[k] == e as u32;
                                    if k < pos {
                                        assert(out@[k] == e as u32);
                                    } else {
                                        assert(out@[k + 1] == e as u32);
                                    }
                                } else {
                                    assert(before.len() == room);
                                }
                            }
                        }
                    }
                } else {
                    proof {
                        assert(pos == room && out@.len() == room);
                        assert(needier(self.needs(), out@[room - 1], page)) by {
                            lemma_needier_order(self.needs(), out@[room - 1], page, page);
                        }
                    }
                }
            }
            p = p + 1;
        }
        proof {
            assert(*self == *old(self));
            assert forall|e: int|
                0 <= e < old(self).page_count() && old(self).requestable(e) && !out@.contains(e as u32)
                    implies out@.len() == room && (room > 0 ==> needier(old(self).needs(), out@[room - 1], e as u32)) by {
                assert(self.requestable(e));
            }
        }
        let ghost listed = out@;
        let mut k: usize = 0;
        while k < out.len()
            invariant
                self.wf(),
                self.slot_of@ == old(self).slot_of@,
                self.page_in_slot@ == old(self).page_in_slot@,
                self.free_slots@ == old(self).free_slots@,
                self.pinned@ == old(self).pinned@,
                self.need@ == old(self).need@,
                self.last_needed@ == old(self).last_needed@,
                self.parents@ == old(self).parents@,
                self.resident_children@ == old(self).resident_children@,
                self.pending@.len() == old(self).pending@.len(),
                k <= out@.len(),
                forall|j: int| 0 <= j < out@.len() ==> #[trigger] out@[j] < old(self).page_count(),
                forall|q: int|
                    0 <= q < old(self).page_count() ==> #[trigger] self.pending@[q] == (
                    old(self).pending@[q] || out@.take(k as int).contains(q as u32)),
            decreases out@.len() - k,
        {
            let page = out[k];
            let ghost prior = *self;
            self.pending.set(page as usize, true);
            k = k + 1;
            proof {
                Self::lemma_wf_frame(&prior, self);
                assert forall|q: int|
                    0 <= q < old(self).page_count() implies #[trigger] self.pending@[q] == (
                    old(self).pending@[q] || out@.take(k as int).contains(q as u32)) by {
                    lemma_take_push_contains(out@, k as int, q as u32);
                }
            }
        }
        proof {
            assert(out@.take(out@.len() as int) == out@);
        }
        out
    }

    /// A requested page that will not arrive (its read failed).
    pub fn abandon(&mut self, page: u32)
        requires
            old(self).wf(),
            page < old(self).page_count(),
        ensures
            final(self).wf(),
            final(self).slots() == old(self).slots(),
            final(self).pages() == old(self).pages(),
            final(self).free() == old(self).free(),
            final(self).pinned_pages() == old(self).pinned_pages(),
            final(self).needs() == old(self).needs(),
            final(self).last_needed_frames() == old(self).last_needed_frames(),
            final(self).parent_lists() == old(self).parent_lists(),
            final(self).pending_pages() == old(self).pending_pages().update(page as int, false),
    {
        let ghost prior = *self;
        self.pending.set(page as usize, false);
        proof {
            Self::lemma_wf_frame(&prior, self);
        }
    }

    /// Takes frame `frame`'s needs, the float bits the culls wrote for the first
    /// `need_bits.len()` pages ([`need_of_bits`]), and lends each wanted absent page's need to
    /// its ancestors: a page whose need rises lends it on to its own parents. Every page that
    /// lends (wanted and absent, or raised) ends with parents needing at least as much, but a
    /// parent whose need is a negative NaN, which no float exceeds; no need falls, and each is
    /// some page's own need. Pages with a need of their own or a
    /// raised one were needed this frame. Returns how many pages are wanted and absent.
    pub fn set_needs(&mut self, frame: u64, need_bits: &[u32]) -> (wanted: u32)
        requires
            old(self).wf(),
            need_bits@.len() <= old(self).page_count(),
        ensures
            needs_outcome(*old(self), *final(self), frame, need_bits@, wanted),

    {
        let ghost base = own_needs(self.need@, need_bits@);
        let ghost n = self.slot_of@.len() as int;
        let ghost old_last = self.last_needed@;
        let ghost lists = self.parent_lists();
        let mut p: usize = 0;
        while p < need_bits.len()
            invariant
                Self::frame_of(*self, *old(self)),
                self.wf(),
                n == self.page_count(),
                need_bits@.len() <= n,
                p <= need_bits@.len(),
                base == own_needs(old(self).need@, need_bits@),
                old(self).need@.len() == n,
                forall|q: int| 0 <= q < n ==> #[trigger] self.need@[q] == if q < p {
                    base[q]
                } else {
                    old(self).need@[q]
                },
                forall|q: int| 0 <= q < n ==> #[trigger] self.last_needed@[q] == if q < p && is_wanted(base[q]) {
                    frame
                } else {
                    old_last[q]
                },
            decreases need_bits@.len() - p,
        {
            let need = need_from_bits(need_bits[p]);
            let ghost prior = *self;
            self.need.set(p, need);
            if wanted_need(need) {
                self.last_needed.set(p, frame);
            }
            proof {
                Self::lemma_wf_frame(&prior, self);
                assert(base[p as int] == need_of_bits(need_bits@[p as int]));
                assert(base[p as int] == need);
                assert(self.need@ == prior.need@.update(p as int, need));
            }
            p = p + 1;
            proof {
                assert forall|q: int| 0 <= q < n implies #[trigger] self.need@[q] == if q < p {
                    base[q]
                } else {
                    old(self).need@[q]
                } by {
                    if q == p - 1 {
                    } else {
                        assert(self.need@[q] == prior.need@[q]);
                    }
                }
                assert forall|q: int| 0 <= q < n implies #[trigger] self.last_needed@[q] == if q < p && is_wanted(base[q]) {
                    frame
                } else {
                    old_last[q]
                } by {
                    if q == p - 1 {
                    } else {
                        assert(self.last_needed@[q] == prior.last_needed@[q]);
                    }
                }
            }
        }
        // The wanted, absent pages lend first.
        let mut lend: Vec<u32> = Vec::new();
        let mut wanted: u32 = 0;
        let mut q: usize = 0;
        while q < self.slot_of.len()
            invariant
                Self::frame_of(*self, *old(self)),
                self.wf(),
                n == self.page_count(),
                q <= n,
                forall|r: int| 0 <= r < n ==> #[trigger] self.need@[r] == base[r],
                wanted == wanted_absent_upto(base, self.slot_of@, q as int),
                wanted <= q,
                lend@.len() == wanted,
                forall|k: int| 0 <= k < lend@.len() ==> #[trigger] lend@[k] < n,
                forall|r: int| 0 <= r < q && is_wanted(base[r]) && !self.is_resident(r) ==> lend@.contains(r as u32),
                forall|k: int| 0 <= k < lend@.len() ==> lends(base, self.need@, self.slot_of@, #[trigger] lend@[k] as int),
            decreases n - q,
        {
            let ghost before = lend@;
            if wanted_need(self.need[q]) && !self.resident(q as u32) {
                lend.push(q as u32);
                wanted = wanted + 1;
                proof {
                    assert(lend@[lend@.len() - 1] == q as u32);
                    assert forall|k: int| 0 <= k < lend@.len() implies lends(base, self.need@, self.slot_of@, #[trigger] lend@[k] as int) by {
                        if k < before.len() {
                            assert(lend@[k] == before[k]);
                        }
                    }
                }
            }
            q = q + 1;
            proof {
                assert forall|r: int| 0 <= r < q && is_wanted(base[r]) && !self.is_resident(r) implies lend@.contains(r as u32) by {
                    if r < q - 1 {
                        let k = choose|k: int| 0 <= k < before.len() && #[trigger] before[k] == r as u32;
                        assert(lend@[k] == r as u32);
                    }
                }
            }
        }
        // Lend: a page whose need rose lends it on.
        while lend.len() > 0
            invariant
                Self::frame_of(*self, *old(self)),
                self.wf(),
                n == self.page_count(),
                lists == self.parent_lists(),
                forall|k: int| 0 <= k < lend@.len() ==> #[trigger] lend@[k] < n,
                forall|r: int| 0 <= r < n ==> #[trigger] self.need@[r] >= base[r],
                forall|r: int|
                    #![trigger self.need@[r]]
                    0 <= r < n ==> exists|c: int| 0 <= c < n && self.need@[r] == #[trigger] base[c],
                forall|r: int| 0 <= r < n ==> #[trigger] self.last_needed@[r] == if (r < need_bits@.len()
                    && is_wanted(base[r])) || self.need@[r] > base[r] {
                    frame
                } else {
                    old_last[r]
                },
                forall|r: int, j: int|
                    0 <= r < n && 0 <= j < lists[r].len() && ((is_wanted(base[r]) && !self.is_resident(r))
                        || self.need@[r] > base[r]) && !lend@.contains(r as u32) ==> self.need@[#[trigger] lists[r][j] as int]
                        >= self.need@[r] || base[lists[r][j] as int] < NEED_NEG_INF,
                forall|r: int| 0 <= r < n && base[r] < NEED_NEG_INF ==> #[trigger] self.need@[r] == base[r],
                forall|k: int| 0 <= k < lend@.len() ==> lends(base, self.need@, self.slot_of@, #[trigger] lend@[k] as int),
                forall|r: int|
                    #![trigger self.need@[r]]
                    0 <= r < n && self.need@[r] > base[r] ==> exists|c: int|
                        0 <= c < n && #[trigger] lists[c].contains(r as u32) && lends(base, self.need@, self.slot_of@, c)
                            && self.need@[c] >= self.need@[r],
            decreases slack_upto(self.need@, n), lend@.len(),
        {
            let ghost lend_before = lend@;
            let page = lend.pop().unwrap();
            proof {
                assert(lend_before == lend@.push(page));
                assert forall|r: int| 0 <= r < n && r != page as int && !lend@.contains(r as u32) implies !#[trigger] lend_before.contains(r as u32) by {
                    if lend_before.contains(r as u32) {
                        let k = choose|k: int| 0 <= k < lend_before.len() && #[trigger] lend_before[k] == r as u32;
                        if k < lend@.len() {
                            assert(lend@[k] == r as u32);
                        }
                    }
                }
            }
            let ghost slack_before = slack_upto(self.need@, n);
            let ghost len_before = lend@.len();
            let need = self.need[page as usize];
            let count = self.parents[page as usize].len();
            let mut i: usize = 0;
            while i < count
                invariant
                    Self::frame_of(*self, *old(self)),
                    self.wf(),
                    n == self.page_count(),
                    lists == self.parent_lists(),
                    page < n,
                    count == lists[page as int].len(),
                    i <= count,
                    need == self.need@[page as int],
                    forall|k: int| 0 <= k < lend@.len() ==> #[trigger] lend@[k] < n,
                    lend@.len() >= len_before,
                    slack_upto(self.need@, n) + (lend@.len() - len_before) <= slack_before,
                    forall|r: int| 0 <= r < n ==> #[trigger] self.need@[r] >= base[r],
                    forall|r: int|
                        #![trigger self.need@[r]]
                        0 <= r < n ==> exists|c: int| 0 <= c < n && self.need@[r] == #[trigger] base[c],
                    forall|r: int| 0 <= r < n ==> #[trigger] self.last_needed@[r] == if (r < need_bits@.len()
                        && is_wanted(base[r])) || self.need@[r] > base[r] {
                        frame
                    } else {
                        old_last[r]
                    },
                    forall|j: int| 0 <= j < i ==> self.need@[#[trigger] lists[page as int][j] as int] >= need
                        || base[lists[page as int][j] as int] < NEED_NEG_INF,
                    forall|r: int, j: int|
                        0 <= r < n && 0 <= j < lists[r].len() && ((is_wanted(base[r]) && !self.is_resident(r))
                            || self.need@[r] > base[r]) && !lend@.contains(r as u32) && r != page ==> self.need@[#[trigger] lists[r][j] as int]
                            >= self.need@[r] || base[lists[r][j] as int] < NEED_NEG_INF,
                    forall|r: int| 0 <= r < n && base[r] < NEED_NEG_INF ==> #[trigger] self.need@[r] == base[r],
                    lends(base, self.need@, self.slot_of@, page as int),
                    forall|k: int| 0 <= k < lend@.len() ==> lends(base, self.need@, self.slot_of@, #[trigger] lend@[k] as int),
                    forall|r: int|
                        #![trigger self.need@[r]]
                        0 <= r < n && self.need@[r] > base[r] ==> exists|c: int|
                            0 <= c < n && #[trigger] lists[c].contains(r as u32) && lends(base, self.need@, self.slot_of@, c)
                                && self.need@[c] >= self.need@[r],
                decreases count - i,
            {
                let parent = self.parents[page as usize][i];
                assert(parent == lists[page as int][i as int]);
                let ghost prior_lend = lend@;
                if self.need[parent as usize] < need && self.need[parent as usize] >= NEED_NEG_INF {
                    let ghost prior = *self;
                    proof {
                        lemma_slack_update(self.need@, n, parent as int, need);
                        let c = choose|c: int| 0 <= c < n && self.need@[page as int] == #[trigger] base[c];
                    }
                    self.need.set(parent as usize, need);
                    self.last_needed.set(parent as usize, frame);
                    lend.push(parent);
                    proof {
                        Self::lemma_wf_frame(&prior, self);
                        assert(lend@[lend@.len() - 1] == parent);
                        assert(self.need@ == prior.need@.update(parent as int, need));
                        assert(parent != page);
                        assert forall|k: int| 0 <= k < lend@.len() implies lends(base, self.need@, self.slot_of@, #[trigger] lend@[k] as int) by {
                            if k < prior_lend.len() {
                                assert(lend@[k] == prior_lend[k]);
                                assert(lends(base, prior.need@, prior.slot_of@, prior_lend[k] as int));
                            }
                        }
                        assert(lists[page as int].contains(parent));
                        assert forall|r: int|
                            #![trigger self.need@[r]]
                            0 <= r < n && self.need@[r] > base[r] implies exists|c: int|
                                0 <= c < n && #[trigger] lists[c].contains(r as u32) && lends(base, self.need@, self.slot_of@, c)
                                    && self.need@[c] >= self.need@[r] by {
                            if r == parent as int {
                                assert(lists[page as int].contains(r as u32));
                            } else {
                                assert(prior.need@[r] == self.need@[r]);
                                let c = choose|c: int|
                                    0 <= c < n && #[trigger] lists[c].contains(r as u32) && lends(base, prior.need@, prior.slot_of@, c)
                                        && prior.need@[c] >= prior.need@[r];
                                assert(lists[c].contains(r as u32));
                            }
                        }
                        assert forall|r: int, j: int|
                            0 <= r < n && 0 <= j < lists[r].len() && ((is_wanted(base[r]) && !self.is_resident(r))
                                || self.need@[r] > base[r]) && !lend@.contains(r as u32) && r != page implies self.need@[#[trigger] lists[r][j] as int]
                                >= self.need@[r] || base[lists[r][j] as int] < NEED_NEG_INF by {
                            if r == parent as int {
                                assert(lend@.contains(r as u32));
                            } else {
                                assert(!prior_lend.contains(r as u32)) by {
                                    if prior_lend.contains(r as u32) {
                                        let k = choose|k: int| 0 <= k < prior_lend.len() && #[trigger] prior_lend[k] == r as u32;
                                        assert(lend@[k] == r as u32);
                                    }
                                }
                                assert(prior.need@[r] == self.need@[r]);
                                assert(prior.need@[lists[r][j] as int] <= self.need@[lists[r][j] as int]);
                            }
                        }
                        assert forall|r: int|
                            #![trigger self.need@[r]]
                            0 <= r < n implies exists|c: int| 0 <= c < n && self.need@[r] == #[trigger] base[c] by {
                            if r == parent as int {
                                let c = choose|c: int| 0 <= c < n && prior.need@[page as int] == #[trigger] base[c];
                                assert(self.need@[r] == base[c]);
                            } else {
                                let c = choose|c: int| 0 <= c < n && prior.need@[r] == #[trigger] base[c];
                                assert(self.need@[r] == base[c]);
                            }
                        }
                    }
                }
                i = i + 1;
            }
            proof {
                lemma_slack_nonneg(self.need@, n);
            }
        }
        proof {
            assert forall|r: int, j: int|
                0 <= r < n && 0 <= j < lists[r].len() && ((is_wanted(base[r]) && !old(self).is_resident(r))
                    || self.need@[r] > base[r]) implies self.need@[#[trigger] lists[r][j] as int] >= self.need@[r]
                    || base[lists[r][j] as int] < NEED_NEG_INF by {
                assert(!lend@.contains(r as u32));
            }
            assert(base == own_needs(old(self).needs(), need_bits@));
            assert forall|r: int|
                #![trigger self.need@[r]]
                0 <= r < n && self.need@[r] > base[r] implies exists|c: int|
                    0 <= c < n && #[trigger] lists[c].contains(r as u32) && lends(base, self.need@, old(self).slots(), c)
                        && self.need@[c] == self.need@[r] by {
                let c = choose|c: int|
                    0 <= c < n && #[trigger] lists[c].contains(r as u32) && lends(base, self.need@, self.slot_of@, c)
                        && self.need@[c] >= self.need@[r];
                let j = choose|j: int| 0 <= j < lists[c].len() && lists[c][j] == r as u32;
                assert(!lend@.contains(c as u32));
                assert(self.need@[lists[c][j] as int] >= self.need@[c] || base[lists[c][j] as int] < NEED_NEG_INF);
                assert(base[r] <= self.need@[r]);
            }
            assert forall|r: int|
                #![trigger self.need@[r]]
                0 <= r < n implies exists|c: int|
                    0 <= c < n && self.need@[r] == #[trigger] own_needs(old(self).needs(), need_bits@)[c] by {
                let c = choose|c: int| 0 <= c < n && self.need@[r] == #[trigger] base[c];
                assert(self.need@[r] == own_needs(old(self).needs(), need_bits@)[c]);
            }
        }
        wanted
    }

    /// The residency and the dependencies of `a` are those of `b`; only the needs, their
    /// frames and (elsewhere) the pending flags may differ.
    closed spec fn frame_of(a: Self, b: Self) -> bool {
        &&& a.slot_of@ == b.slot_of@
        &&& a.page_in_slot@ == b.page_in_slot@
        &&& a.free_slots@ == b.free_slots@
        &&& a.pinned@ == b.pinned@
        &&& a.pending@ == b.pending@
        &&& a.parents@ == b.parents@
        &&& a.resident_children@ == b.resident_children@
    }

    /// `loaded` in the order [`ResidentSet::place`] takes it from the back: the neediest
    /// last, and among equals the earliest loaded last.
    fn queue_by_need<T>(&self, loaded: Vec<(u32, T)>) -> (result: (Vec<(u32, T)>, Ghost<Seq<int>>))
        requires
            self.wf(),
            forall|i: int| 0 <= i < loaded@.len() ==> #[trigger] loaded@[i].0 < self.page_count(),
        ensures
            ({
                let queue = result.0;
                let idx = result.1@;
                &&& idx.len() == queue@.len()
                &&& forall|k: int| 0 <= k < queue@.len() ==> 0 <= #[trigger] idx[k] < loaded@.len() && queue@[k] == loaded@[idx[k]]
                &&& forall|k: int, l: int| 0 <= k < l < queue@.len() ==> #[trigger] idx[k] != #[trigger] idx[l]
                &&& forall|k: int, l: int|
                    0 <= k < l < queue@.len() && self.needs()[queue@[k].0 as int] == self.needs()[queue@[l].0 as int]
                        ==> #[trigger] idx[k] > #[trigger] idx[l]
            }),
            ({
            let queue = result.0;
            &&& queue@.len() == loaded@.len()
            &&& forall|k: int| 0 <= k < queue@.len() ==> loaded@.contains(#[trigger] queue@[k])
            &&& forall|i: int| 0 <= i < loaded@.len() ==> queue@.contains(#[trigger] loaded@[i])
            &&& forall|k: int, l: int|
                0 <= k < l < queue@.len() ==> self.needs()[#[trigger] queue@[k].0 as int] <= self.needs()[#[trigger] queue@[l].0 as int]
            }),
    {
        let ghost orig = loaded@;
        let ghost mut idx: Seq<int> = Seq::empty();
        let mut rest = loaded;
        let mut queue: Vec<(u32, T)> = Vec::new();
        let mut taken: usize = 0;
        while rest.len() > 0
            invariant
                self.wf(),
                forall|i: int| 0 <= i < orig.len() ==> #[trigger] orig[i].0 < self.page_count(),
                taken <= orig.len(),
                rest@ == orig.skip(taken as int),
                queue@.len() == taken,
                forall|k: int| 0 <= k < queue@.len() ==> orig.contains(#[trigger] queue@[k]),
                forall|i: int| 0 <= i < taken ==> queue@.contains(#[trigger] orig[i]),
                forall|k: int, l: int|
                    0 <= k < l < queue@.len() ==> self.needs()[#[trigger] queue@[k].0 as int] <= self.needs()[#[trigger] queue@[l].0 as int],
                idx.len() == queue@.len(),
                forall|k: int| 0 <= k < queue@.len() ==> 0 <= #[trigger] idx[k] < taken && queue@[k] == orig[idx[k]],
                forall|k: int, l: int| 0 <= k < l < queue@.len() ==> #[trigger] idx[k] != #[trigger] idx[l],
                forall|k: int, l: int|
                    0 <= k < l < queue@.len() && self.needs()[queue@[k].0 as int] == self.needs()[queue@[l].0 as int]
                        ==> #[trigger] idx[k] > #[trigger] idx[l],
            decreases rest@.len(),
        {
            proof {
                assert(orig.skip(taken as int).len() > 0);
                assert(taken < orig.len());
            }
            let item = rest.remove(0);
            proof {
                assert(item == orig[taken as int]);
                assert(rest@ == orig.skip(taken + 1));
            }
            let need = self.need[item.0 as usize];
            let mut pos: usize = 0;
            while pos < queue.len() && self.need[queue[pos].0 as usize] < need
                invariant
                    self.wf(),
                    pos <= queue@.len(),
                    forall|k: int| 0 <= k < queue@.len() ==> orig.contains(#[trigger] queue@[k]),
                    forall|i: int| 0 <= i < orig.len() ==> #[trigger] orig[i].0 < self.page_count(),
                    forall|k: int| 0 <= k < pos ==> self.needs()[#[trigger] queue@[k].0 as int] < need,
                    taken < orig.len(),
                    item == orig[taken as int],
                    need == self.needs()[item.0 as int],
                    rest@ == orig.skip(taken + 1),
                    queue@.len() == taken,
                    forall|i: int| 0 <= i < taken ==> queue@.contains(#[trigger] orig[i]),
                    forall|k: int, l: int|
                        0 <= k < l < queue@.len() ==> self.needs()[#[trigger] queue@[k].0 as int] <= self.needs()[#[trigger] queue@[l].0 as int],
                    idx.len() == queue@.len(),
                    forall|k: int| 0 <= k < queue@.len() ==> 0 <= #[trigger] idx[k] < taken && queue@[k] == orig[idx[k]],
                    forall|k: int, l: int| 0 <= k < l < queue@.len() ==> #[trigger] idx[k] != #[trigger] idx[l],
                    forall|k: int, l: int|
                        0 <= k < l < queue@.len() && self.needs()[queue@[k].0 as int] == self.needs()[queue@[l].0 as int]
                            ==> #[trigger] idx[k] > #[trigger] idx[l],
                decreases queue@.len() - pos,
            {
                proof {
                    let k = choose|k: int| 0 <= k < orig.len() && orig[k] == queue@[pos as int];
                    assert(orig[k].0 < self.page_count());
                }
                pos = pos + 1;
            }
            let ghost before = queue@;
            let ghost idx_before = idx;
            let ghost t0 = taken as int;
            queue.insert(pos, item);
            taken = queue.len();
            proof {
                idx = idx_before.insert(pos as int, t0);
                assert forall|k: int| 0 <= k < queue@.len() implies 0 <= #[trigger] idx[k] < taken && queue@[k] == orig[idx[k]] by {
                    if k < pos {
                        assert(queue@[k] == before[k] && idx[k] == idx_before[k]);
                    } else if k == pos {
                    } else {
                        assert(queue@[k] == before[k - 1] && idx[k] == idx_before[k - 1]);
                    }
                }
                assert forall|k: int, l: int| 0 <= k < l < queue@.len() implies #[trigger] idx[k] != #[trigger] idx[l] by {
                    if k < pos && l < pos {
                        assert(idx[k] == idx_before[k] && idx[l] == idx_before[l]);
                    } else if k < pos && l == pos {
                        assert(idx[k] == idx_before[k]);
                    } else if k < pos {
                        assert(idx[k] == idx_before[k] && idx[l] == idx_before[l - 1]);
                    } else if k == pos {
                        assert(idx[l] == idx_before[l - 1]);
                    } else {
                        assert(idx[k] == idx_before[k - 1] && idx[l] == idx_before[l - 1]);
                    }
                }
                assert forall|k: int, l: int|
                    0 <= k < l < queue@.len() && self.needs()[queue@[k].0 as int] == self.needs()[queue@[l].0 as int]
                        implies #[trigger] idx[k] > #[trigger] idx[l] by {
                    if k < pos && l < pos {
                        assert(idx[k] == idx_before[k] && idx[l] == idx_before[l]);
                        assert(queue@[k] == before[k] && queue@[l] == before[l]);
                    } else if k < pos && l == pos {
                        assert(queue@[k] == before[k]);
                        assert(self.needs()[before[k].0 as int] < need);
                    } else if k < pos {
                        assert(queue@[k] == before[k] && queue@[l] == before[l - 1]);
                        assert(self.needs()[before[k].0 as int] < need);
                        assert(self.needs()[before[pos as int].0 as int] >= need);
                        if l - 1 > pos {
                            assert(self.needs()[before[pos as int].0 as int] <= self.needs()[before[l - 1].0 as int]);
                        }
                    } else if k == pos {
                        assert(idx[l] == idx_before[l - 1]);
                    } else {
                        assert(idx[k] == idx_before[k - 1] && idx[l] == idx_before[l - 1]);
                        assert(queue@[k] == before[k - 1] && queue@[l] == before[l - 1]);
                    }
                }
                assert(rest@ == orig.skip(taken as int));
                assert forall|k: int| 0 <= k < queue@.len() implies orig.contains(#[trigger] queue@[k]) by {
                    if k < pos {
                        assert(queue@[k] == before[k]);
                    } else if k == pos {
                        assert(orig[taken - 1] == item);
                    } else {
                        assert(queue@[k] == before[k - 1]);
                    }
                }
                assert forall|i: int| 0 <= i < taken implies queue@.contains(#[trigger] orig[i]) by {
                    if i == taken - 1 {
                        assert(queue@[pos as int] == orig[i]);
                    } else {
                        let k = choose|k: int| 0 <= k < before.len() && before[k] == orig[i];
                        if k < pos {
                            assert(queue@[k] == orig[i]);
                        } else {
                            assert(queue@[k + 1] == orig[i]);
                        }
                    }
                }
                assert forall|k: int, l: int|
                    0 <= k < l < queue@.len() implies self.needs()[#[trigger] queue@[k].0 as int] <= self.needs()[#[trigger] queue@[l].0 as int] by {
                    if l == pos {
                    } else if k == pos {
                        if pos < before.len() {
                            assert(self.needs()[before[pos as int].0 as int] >= need);
                            if l - 1 > pos {
                                assert(self.needs()[before[pos as int].0 as int] <= self.needs()[before[l - 1].0 as int]);
                            }
                        }
                    } else if k < pos && l > pos {
                        assert(self.needs()[before[k].0 as int] <= self.needs()[before[l - 1].0 as int]);
                    } else if k > pos {
                        assert(self.needs()[before[k - 1].0 as int] <= self.needs()[before[l - 1].0 as int]);
                    }
                }
            }
        }
        (queue, Ghost(idx))
    }

    /// The evictable pages, in the order they give up their slots ([`evicts_before`]), the
    /// lower slot first among equals.
    #[verifier::rlimit(40)]
    fn victim_order(&self) -> (victims: Vec<u32>)
        requires
            self.wf(),
        ensures
            victims@.no_duplicates(),
            forall|k: int| 0 <= k < victims@.len() ==> #[trigger] victims@[k] < self.page_count(),
            forall|k: int| 0 <= k < victims@.len() ==> self.spec_evictable(#[trigger] victims@[k] as int),
            forall|k: int, l: int|
                0 <= k < l < victims@.len() ==> evicts_before(
                    self.needs(),
                    self.last_needed_frames(),
                    #[trigger] victims@[k],
                    #[trigger] victims@[l],
                ),
            forall|p: int| 0 <= p < self.page_count() && #[trigger] self.spec_evictable(p) ==> victims@.contains(p as u32),
            forall|k: int, l: int|
                0 <= k < l < victims@.len() && self.needs()[victims@[k] as int] == self.needs()[victims@[l] as int]
                    && self.last_needed_frames()[victims@[k] as int] == self.last_needed_frames()[victims@[l] as int]
                    ==> self.slots()[#[trigger] victims@[k] as int] < self.slots()[#[trigger] victims@[l] as int],
    {
        let mut victims: Vec<u32> = Vec::new();
        let mut slot: usize = 0;
        while slot < self.page_in_slot.len()
            invariant
                self.wf(),
                slot <= self.slot_count(),
                forall|k: int| 0 <= k < victims@.len() ==> #[trigger] victims@[k] < self.page_count(),
                forall|k: int| 0 <= k < victims@.len() ==> self.spec_evictable(#[trigger] victims@[k] as int),
                forall|k: int| 0 <= k < victims@.len() ==> self.slot_of@[#[trigger] victims@[k] as int] < slot,
                victims@.no_duplicates(),
                forall|k: int, l: int|
                    0 <= k < l < victims@.len() ==> evicts_before(
                        self.needs(),
                        self.last_needed_frames(),
                        #[trigger] victims@[k],
                        #[trigger] victims@[l],
                    ),
                forall|p: int|
                    0 <= p < self.page_count() && #[trigger] self.spec_evictable(p) && self.slot_of@[p] < slot
                        ==> victims@.contains(p as u32),
                forall|k: int, l: int|
                    0 <= k < l < victims@.len() && self.needs()[victims@[k] as int] == self.needs()[victims@[l] as int]
                        && self.last_needed_frames()[victims@[k] as int] == self.last_needed_frames()[victims@[l] as int]
                        ==> self.slot_of@[#[trigger] victims@[k] as int] < self.slot_of@[#[trigger] victims@[l] as int],
            decreases self.slot_count() - slot,
        {
            let page = self.page_in_slot[slot];
            if page != PAGE_NONE && self.evictable(page) {
                let (need, last) = (self.need[page as usize], self.last_needed[page as usize]);
                let mut pos: usize = 0;
                while pos < victims.len() && self.evicts_before_exec(victims[pos], page)
                    invariant
                        self.wf(),
                        pos <= victims@.len(),
                        page < self.page_count(),
                        need == self.needs()[page as int],
                        last == self.last_needed_frames()[page as int],
                        forall|k: int| 0 <= k < victims@.len() ==> #[trigger] victims@[k] < self.page_count(),
                        forall|k: int| 0 <= k < pos ==> evicts_before(
                            self.needs(),
                            self.last_needed_frames(),
                            #[trigger] victims@[k],
                            page,
                        ),
                    decreases victims@.len() - pos,
                {
                    pos = pos + 1;
                }
                let ghost before = victims@;
                victims.insert(pos, page);
                proof {
                    assert(self.slot_of@[page as int] == slot);
                    assert forall|k: int| 0 <= k < victims@.len() implies self.slot_of@[#[trigger] victims@[k] as int] < slot + 1 by {
                        if k < pos {
                            assert(victims@[k] == before[k]);
                        } else if k > pos {
                            assert(victims@[k] == before[k - 1]);
                        }
                    }
                    assert(victims@.no_duplicates()) by {
                        assert forall|a: int, b: int| 0 <= a < b < victims@.len() implies victims@[a] != victims@[b] by {
                            if a == pos {
                                assert(self.slot_of@[victims@[b] as int] < slot);
                            } else if b == pos {
                                assert(self.slot_of@[victims@[a] as int] < slot);
                            } else {
                                let a0 = if a < pos { a } else { a - 1 };
                                let b0 = if b < pos { b } else { b - 1 };
                                assert(victims@[a] == before[a0]);
                                assert(victims@[b] == before[b0]);
                            }
                        }
                    }
                    assert forall|k: int, l: int|
                        0 <= k < l < victims@.len() implies evicts_before(
                            self.needs(),
                            self.last_needed_frames(),
                            #[trigger] victims@[k],
                            #[trigger] victims@[l],
                        ) by {
                        if l == pos {
                        } else if k == pos {
                            assert(!evicts_before(self.needs(), self.last_needed_frames(), before[pos as int], page));
                            if l - 1 > pos {
                                assert(evicts_before(self.needs(), self.last_needed_frames(), before[pos as int], before[l - 1]));
                            }
                        } else if k < pos && l > pos {
                            assert(evicts_before(self.needs(), self.last_needed_frames(), before[k], before[l - 1]));
                        } else if k > pos {
                            assert(evicts_before(self.needs(), self.last_needed_frames(), before[k - 1], before[l - 1]));
                        }
                    }
                    assert forall|p: int|
                        0 <= p < self.page_count() && #[trigger] self.spec_evictable(p) && self.slot_of@[p] < slot + 1
                            implies victims@.contains(p as u32) by {
                        if self.slot_of@[p] == slot {
                            assert(self.page_in_slot@[slot as int] == p);
                            assert(victims@[pos as int] == page);
                        } else {
                            assert(before.contains(p as u32));
                            let j = choose|j: int| 0 <= j < before.len() && before[j] == p as u32;
                            if j < pos {
                                assert(victims@[j] == before[j]);
                            } else {
                                assert(victims@[j + 1] == before[j]);
                            }
                        }
                    }
                    assert forall|k: int, l: int|
                        0 <= k < l < victims@.len() && self.needs()[victims@[k] as int] == self.needs()[victims@[l] as int]
                            && self.last_needed_frames()[victims@[k] as int] == self.last_needed_frames()[victims@[l] as int]
                            implies self.slot_of@[#[trigger] victims@[k] as int] < self.slot_of@[#[trigger] victims@[l] as int] by {
                        if l == pos {
                        } else if k == pos {
                            assert(!evicts_before(self.needs(), self.last_needed_frames(), before[pos as int], page));
                            if l - 1 > pos {
                                assert(evicts_before(self.needs(), self.last_needed_frames(), before[pos as int], before[l - 1]));
                            }
                        } else if k < pos && l > pos {
                            assert(victims@[k] == before[k] && victims@[l] == before[l - 1]);
                        } else if k > pos {
                            assert(victims@[k] == before[k - 1] && victims@[l] == before[l - 1]);
                        } else {
                            assert(victims@[k] == before[k] && victims@[l] == before[l]);
                        }
                    }
                }
            } else {
                proof {
                    assert forall|p: int|
                        0 <= p < self.page_count() && #[trigger] self.spec_evictable(p) && self.slot_of@[p] < slot + 1
                            implies victims@.contains(p as u32) by {
                        if self.slot_of@[p] == slot {
                            assert(self.page_in_slot@[slot as int] == p);
                        }
                    }
                }
            }
            slot = slot + 1;
        }
        victims
    }

    fn evicts_before_exec(&self, a: u32, b: u32) -> (r: bool)
        requires
            self.wf(),
            a < self.page_count(),
            b < self.page_count(),
        ensures
            r == evicts_before(self.needs(), self.last_needed_frames(), a, b),
    {
        let (na, nb) = (self.need[a as usize], self.need[b as usize]);
        na < nb || (na == nb && self.last_needed[a as usize] <= self.last_needed[b as usize])
    }

    /// From `victims[from..]`, the first page that may give its slot to `page`: skipping the
    /// pages no longer evictable and `page`'s parents, and stopping at the first that is
    /// needed as much as `page` (nothing less needed to give up). Returns where the search
    /// stopped and whether that page is the victim.
    fn next_victim(&self, victims: &Vec<u32>, from: usize, page: u32) -> (found: (usize, bool))
        requires
            self.wf(),
            page < self.page_count(),
            from <= victims@.len(),
            forall|k: int| 0 <= k < victims@.len() ==> #[trigger] victims@[k] < self.page_count(),
        ensures
            from <= found.0 <= victims@.len(),
            found.1 ==> found.0 < victims@.len() && self.spec_evictable(victims@[found.0 as int] as int)
                && !self.parent_lists()[page as int].contains(victims@[found.0 as int])
                && !need_at_least(self.needs()[victims@[found.0 as int] as int], self.needs()[page as int]),
            !found.1 && found.0 < victims@.len() ==> need_at_least(self.needs()[victims@[found.0 as int] as int], self.needs()[page as int]),
            forall|k: int| from <= k < found.0 ==> !self.spec_evictable(#[trigger] victims@[k] as int)
                || self.parent_lists()[page as int].contains(victims@[k]),
    {
        let mut at = from;
        while at < victims.len()
            invariant
                self.wf(),
                page < self.page_count(),
                from <= at <= victims@.len(),
                forall|k: int| 0 <= k < victims@.len() ==> #[trigger] victims@[k] < self.page_count(),
                forall|k: int| from <= k < at ==> !self.spec_evictable(#[trigger] victims@[k] as int)
                    || self.parent_lists()[page as int].contains(victims@[k]),
            decreases victims@.len() - at,
        {
            let victim = victims[at];
            if !self.evictable(victim) || list_contains(&self.parents[page as usize], victim) {
                at = at + 1;
                continue;
            }
            if at_least(self.need[victim as usize], self.need[page as usize]) {
                return (at, false);
            }
            return (at, true);
        }
        (at, false)
    }

    /// Places up to `budget` of the `loaded` pages (page, bytes), the neediest first (the
    /// earliest loaded among equals): into a free slot, or into the slot of the evictable page
    /// that gives up its slot first ([`evicts_before`]), unless that page's need is at least
    /// the loaded page's (as a float comparison, false where a NaN is involved). A page
    /// already resident, or whose parents are not all resident, is dropped (requested again
    /// while wanted), and so is every page after the first that finds no room; pages over the
    /// budget are handed back, still requested. Placed and dropped pages are no longer
    /// requested. With free slots and budget for every loaded page, each loaded page that was
    /// absent with its parents resident is placed and nothing is evicted.
    #[verifier::rlimit(100)]
    pub fn place<T>(&mut self, loaded: Vec<(u32, T)>, budget: u32) -> (result: (Placement<T>, Vec<(u32, T)>))
        requires
            old(self).wf(),
            forall|i: int| 0 <= i < loaded@.len() ==> #[trigger] loaded@[i].0 < old(self).page_count(),
        ensures
            place_outcome(*old(self), *final(self), loaded@, budget, result.0, result.1@),

    {
        let ghost start = *self;
        let ghost n = self.page_count();
        let (mut queue, Ghost(qidx)) = self.queue_by_need(loaded);
        let ghost all = queue@;
        let victims = self.victim_order();
        let mut vi: usize = 0;
        let mut placement = Placement { placed: Vec::new(), evicted: Vec::new() };
        let mut later: Vec<(u32, T)> = Vec::new();
        let mut room = true;
        let ghost mut evict_idx: Seq<int> = Seq::empty();
        let ghost mut took: Seq<int> = Seq::empty();
        let ghost hyp = start.free().len() >= loaded@.len() && budget >= loaded@.len();
        let ghost mut stopped = false;
        let ghost mut stop_need: u32 = 0;
        let ghost mut stop_page: u32 = 0;
        let ghost mut pj: Seq<int> = Seq::empty();
        let ghost mut lj: Seq<int> = Seq::empty();
        while queue.len() > 0
            invariant
                room == !stopped,
                stopped ==> self.free_slots@.len() == 0 && later@.len() == 0,
                stopped ==> forall|k: int| 0 <= k < placement.placed@.len() ==> self.needs()[#[trigger] placement.placed@[k].0 as int] >= stop_need,
                stopped ==> forall|j: int| 0 <= j < queue@.len() ==> self.needs()[#[trigger] queue@[j].0 as int] <= stop_need,
                forall|j: int| queue@.len() <= j < all.len() && placeable(start, placement.evicted@, (#[trigger] all[j]).0)
                    && !placed_page(placement.placed@, all[j].0) && !holds_page(later@, all[j].0) ==> stopped
                    && self.needs()[all[j].0 as int] <= stop_need,
                self.wf(),
                n == self.page_count(),
                self.slot_count() == start.slot_count(),
                self.need@ == start.need@,
                self.last_needed@ == start.last_needed@,
                self.parents@ == start.parents@,
                self.pinned@ == start.pinned@,
                start.wf(),
                n == start.page_count(),
                start == *old(self),
                all.len() == loaded@.len(),
                forall|k: int| 0 <= k < all.len() ==> loaded@.contains(#[trigger] all[k]),
                forall|i: int| 0 <= i < loaded@.len() ==> all.contains(#[trigger] loaded@[i]),
                forall|i: int| 0 <= i < loaded@.len() ==> #[trigger] loaded@[i].0 < n,
                forall|k: int, l: int|
                    0 <= k < l < all.len() ==> self.needs()[#[trigger] all[k].0 as int] <= self.needs()[#[trigger] all[l].0 as int],
                queue@ == all.take(queue@.len() as int),
                qidx.len() == all.len(),
                forall|a: int| 0 <= a < all.len() ==> 0 <= #[trigger] qidx[a] < loaded@.len() && all[a] == loaded@[qidx[a]],
                forall|a: int, b: int|
                    0 <= a < b < all.len() && start.needs()[all[a].0 as int] == start.needs()[all[b].0 as int]
                        ==> #[trigger] qidx[a] > #[trigger] qidx[b],
                pj.len() == placement.placed@.len(),
                forall|k: int| 0 <= k < pj.len() ==> queue@.len() <= #[trigger] pj[k] < all.len()
                    && all[pj[k]].0 == placement.placed@[k].0 && all[pj[k]].1 == placement.placed@[k].2,
                forall|k: int, l: int| 0 <= k < l < pj.len() ==> #[trigger] pj[k] > #[trigger] pj[l],
                lj.len() == later@.len(),
                forall|k: int| 0 <= k < lj.len() ==> queue@.len() <= #[trigger] lj[k] < all.len() && all[lj[k]] == later@[k],
                forall|k: int, l: int| 0 <= k < l < lj.len() ==> #[trigger] lj[k] > #[trigger] lj[l],
                forall|k: int, l: int| 0 <= k < pj.len() && 0 <= l < lj.len() ==> #[trigger] pj[k] > #[trigger] lj[l],
                queue@.len() <= all.len(),
                // What was taken so far comes from the back of `all`.
                placement.placed@.len() <= budget,
                placement.evicted@.len() <= placement.placed@.len(),
                later@.len() > 0 ==> placement.placed@.len() == budget,
                forall|k: int| 0 <= k < later@.len() ==> #[trigger] later@[k].0 < n && !self.is_resident(later@[k].0 as int)
                    && self.spec_parents_resident(later@[k].0 as int)
                    && (!start.is_resident(later@[k].0 as int) || placement.evicted@.contains(later@[k].0)),
                placement.placed@.len() + later@.len() + queue@.len() <= all.len(),
                forall|k: int| 0 <= k < placement.placed@.len() ==> #[trigger] loaded@.contains((placement.placed@[k].0, placement.placed@[k].2)),
                forall|k: int| 0 <= k < later@.len() ==> #[trigger] loaded@.contains(later@[k]),
                forall|k: int, j: int| 0 <= k < placement.placed@.len() && 0 <= j < queue@.len()
                    ==> self.needs()[#[trigger] placement.placed@[k].0 as int] >= self.needs()[#[trigger] queue@[j].0 as int],
                forall|k: int, j: int| 0 <= k < later@.len() && 0 <= j < queue@.len()
                    ==> self.needs()[#[trigger] later@[k].0 as int] >= self.needs()[#[trigger] queue@[j].0 as int],
                forall|k: int, l: int| 0 <= k < l < placement.placed@.len() ==> self.needs()[#[trigger] placement.placed@[k].0 as int] >= self.needs()[#[trigger] placement.placed@[l].0 as int],
                forall|k: int, l: int| 0 <= k < l < later@.len() ==> self.needs()[#[trigger] later@[k].0 as int] >= self.needs()[#[trigger] later@[l].0 as int],
                forall|k: int, l: int| 0 <= k < placement.placed@.len() && 0 <= l < later@.len()
                    ==> self.needs()[#[trigger] placement.placed@[k].0 as int] >= self.needs()[#[trigger] later@[l].0 as int],
                forall|k: int| 0 <= k < placement.placed@.len() ==> #[trigger] placement.placed@[k].0 < n
                    && self.slot_of@[placement.placed@[k].0 as int] == placement.placed@[k].1
                    && placement.placed@[k].1 < self.slot_count(),
                forall|p: int| 0 <= p < n && !placed_page(placement.placed@, p as u32) && !placement.evicted@.contains(p as u32)
                    ==> #[trigger] self.slot_of@[p] == start.slot_of@[p],
                forall|k: int| 0 <= k < placement.evicted@.len() ==> (placed_page(placement.placed@, #[trigger] placement.evicted@[k])
                    || self.slot_of@[placement.evicted@[k] as int] == PAGE_NONE),
                forall|k: int| 0 <= k < placement.placed@.len() && start.is_resident(#[trigger] placement.placed@[k].0 as int)
                    ==> placement.evicted@.contains(placement.placed@[k].0),
                victims@.no_duplicates(),
                forall|p: int| 0 <= p < n && #[trigger] start.spec_evictable(p) ==> victims@.contains(p as u32),
                forall|x: int| 0 <= x < vi ==> placement.evicted@.contains(#[trigger] victims@[x])
                    || parent_of_placed(start.parent_lists(), placement.placed@, victims@[x])
                    || (stopped && start.parent_lists()[stop_page as int].contains(victims@[x])),
                stopped && vi < victims@.len() ==> need_at_least(start.needs()[victims@[vi as int] as int], stop_need),
                stopped ==> stop_page < n && start.needs()[stop_page as int] == stop_need
                    && !placed_page(placement.placed@, stop_page) && holds_page(loaded@, stop_page),
                forall|k: int| 0 <= k < victims@.len() ==> #[trigger] victims@[k] < n,
                forall|k: int| 0 <= k < victims@.len() ==> start.spec_evictable(#[trigger] victims@[k] as int),
                forall|k: int, l: int|
                    0 <= k < l < victims@.len() ==> evicts_before(
                        start.needs(),
                        start.last_needed_frames(),
                        #[trigger] victims@[k],
                        #[trigger] victims@[l],
                    ),
                vi <= victims@.len(),
                forall|k: int, l: int|
                    0 <= k < l < victims@.len() && start.needs()[victims@[k] as int] == start.needs()[victims@[l] as int]
                        && start.last_needed_frames()[victims@[k] as int] == start.last_needed_frames()[victims@[l] as int]
                        ==> start.slots()[#[trigger] victims@[k] as int] < start.slots()[#[trigger] victims@[l] as int],
                forall|x: int| 0 <= x < (if evict_idx.len() > 0 { evict_idx[evict_idx.len() - 1] } else { 0 })
                    ==> placement.evicted@.contains(#[trigger] victims@[x])
                    || parent_of_placed(start.parent_lists(), placement.placed@, victims@[x]),
                evict_idx.len() == placement.evicted@.len(),
                forall|k: int| 0 <= k < evict_idx.len() ==> 0 <= #[trigger] evict_idx[k] < vi
                    && placement.evicted@[k] == victims@[evict_idx[k]],
                forall|k: int, l: int| 0 <= k < l < evict_idx.len() ==> #[trigger] evict_idx[k] < #[trigger] evict_idx[l],
                took.len() == placement.evicted@.len(),
                forall|k: int| 0 <= k < took.len() ==> 0 <= #[trigger] took[k] < placement.placed@.len()
                    && placement.placed@[took[k]].1 == start.slot_of@[placement.evicted@[k] as int]
                    && !need_at_least(start.need@[placement.evicted@[k] as int], start.need@[placement.placed@[took[k]].0 as int]),
                self.free_slots@ == start.free_slots@.take(self.free_slots@.len() as int),
                self.free_slots@.len() <= start.free_slots@.len(),
                placement.evicted@.len() > 0 ==> self.free_slots@.len() == 0,
                forall|p: int| 0 <= p < n && !holds_page(loaded@, p as u32) ==> #[trigger] self.pending@[p] == start.pending@[p],
                forall|p: int| 0 <= p < n && #[trigger] self.pending@[p] ==> start.pending@[p],
                forall|j: int| queue@.len() <= j < all.len() && !holds_page(later@, #[trigger] all[j].0)
                    ==> !self.pending@[all[j].0 as int],
                hyp == (start.free().len() >= loaded@.len() && budget >= loaded@.len()),
                hyp ==> room && placement.evicted@.len() == 0
                    && self.free_slots@.len() + placement.placed@.len() == start.free_slots@.len(),
                self.free_slots@.len() + placement.placed@.len() == start.free_slots@.len() + placement.evicted@.len(),
                forall|k: int| 0 <= k < placement.placed@.len() ==> #[trigger] placement.placed@[k].1 == if k < start.free_slots@.len() {
                    start.free_slots@[start.free_slots@.len() - 1 - k]
                } else {
                    start.slot_of@[placement.evicted@[k - start.free_slots@.len()] as int]
                },
                hyp ==> forall|j: int| queue@.len() <= j < all.len() && !start.is_resident(#[trigger] all[j].0 as int)
                    && start.spec_parents_resident(all[j].0 as int) ==> placed_page(placement.placed@, all[j].0),
            decreases queue@.len(),
        {
            let ghost q_before = queue@;
            let ghost placed_before = placement.placed@;
            let ghost later_before = later@;
            let ghost self_before = *self;
            let (page, bytes) = queue.pop().unwrap();
            let ghost jdx = queue@.len() as int;
            proof {
                assert(q_before[q_before.len() - 1] == (page, bytes));
                assert(all[jdx] == (page, bytes));
                assert(loaded@.contains((page, bytes)));
                let i = choose|i: int| 0 <= i < loaded@.len() && loaded@[i] == (page, bytes);
                assert(page < n);
                assert(holds_page(loaded@, page)) by {
                    assert(loaded@[i].0 == page);
                }
                assert(queue@ == all.take(jdx));
                // Under `hyp`, nothing is evicted and the residency only grows.
                if hyp {
                    assert forall|p: int| 0 <= p < n && start.is_resident(p) implies self.is_resident(p) by {
                        if placed_page(placement.placed@, p as u32) {
                            let k = choose|k: int| 0 <= k < placement.placed@.len() && #[trigger] placement.placed@[k].0 == p as u32;
                            assert(self.slot_of@[p] == placement.placed@[k].1);
                        }
                    }
                    assert forall|p: int| 0 <= p < n && self.is_resident(p) && !start.is_resident(p) implies placed_page(placement.placed@, p as u32) by {}
                }
            }
            if self.resident(page) || !self.parents_resident(page) || !room {
                let ghost prior = *self;
                self.pending.set(page as usize, false);
                proof {
                    Self::lemma_wf_frame(&prior, self);
                    assert forall|p: int| 0 <= p < n && !holds_page(loaded@, p as u32) implies #[trigger] self.pending@[p] == start.pending@[p] by {
                        assert(p != page as int);
                    }
                    assert forall|j: int| queue@.len() <= j < all.len() && !holds_page(later@, #[trigger] all[j].0)
                        implies !self.pending@[all[j].0 as int] by {
                        if j != jdx && all[j].0 != page {
                            assert(self.pending@[all[j].0 as int] == prior.pending@[all[j].0 as int]);
                        }
                    }
                    if hyp {
                        assert forall|j: int| queue@.len() <= j < all.len() && !start.is_resident(#[trigger] all[j].0 as int)
                            && start.spec_parents_resident(all[j].0 as int) implies placed_page(placement.placed@, all[j].0) by {
                            if j == jdx {
                                if !prior.is_resident(page as int) {
                                    assert(!prior.spec_parents_resident(page as int));
                                    let x = choose|x: int| 0 <= x < prior.parent_lists()[page as int].len() && !prior.is_resident(prior.parent_lists()[page as int][x] as int);
                                    assert(start.parent_lists() == prior.parent_lists());
                                    assert(start.is_resident(start.parent_lists()[page as int][x] as int));
                                }
                            }
                        }
                    }
                    assert forall|j: int| queue@.len() <= j < all.len() && placeable(start, placement.evicted@, (#[trigger] all[j]).0)
                        && !placed_page(placement.placed@, all[j].0) && !holds_page(later@, all[j].0) implies stopped
                        && self.needs()[all[j].0 as int] <= stop_need by {
                        if j == jdx {
                            assert(all[j].0 == page);
                            if room {
                                if prior.is_resident(page as int) {
                                    if placement.evicted@.contains(page) {
                                        let k = choose|k: int| 0 <= k < placement.evicted@.len() && placement.evicted@[k] == page;
                                        assert(placement.evicted@[k] == victims@[evict_idx[k]]);
                                        assert(start.spec_evictable(victims@[evict_idx[k]] as int));
                                    }
                                    assert(prior.slot_of@[page as int] == start.slot_of@[page as int]);
                                } else {
                                    assert(!prior.spec_parents_resident(page as int));
                                    let x = choose|x: int| 0 <= x < prior.parent_lists()[page as int].len() && !prior.is_resident(prior.parent_lists()[page as int][x] as int);
                                    let q = prior.parent_lists()[page as int][x];
                                    assert(start.parent_lists() == prior.parent_lists());
                                    assert(start.is_resident(q as int));
                                    assert(start.parent_lists()[page as int].contains(q));
                                    assert(!placement.evicted@.contains(q));
                                    if placed_page(placement.placed@, q) {
                                        let k = choose|k: int| 0 <= k < placement.placed@.len() && #[trigger] placement.placed@[k].0 == q;
                                        assert(prior.slot_of@[q as int] == placement.placed@[k].1);
                                    } else {
                                        assert(prior.slot_of@[q as int] == start.slot_of@[q as int]);
                                    }
                                }
                            } else {
                                assert(q_before[jdx] == (page, bytes));
                            }
                        }
                    }
                }
                continue;
            }
            if placement.placed.len() as u32 == budget {
                later.push((page, bytes));
                proof {
                    let lj0 = lj;
                    lj = lj.push(jdx);
                    assert forall|k: int| 0 <= k < lj.len() implies queue@.len() <= #[trigger] lj[k] < all.len() && all[lj[k]] == later@[k] by {
                        if k < lj0.len() {
                            assert(lj[k] == lj0[k] && later@[k] == later_before[k]);
                        }
                    }
                    assert forall|k: int, l: int| 0 <= k < l < lj.len() implies #[trigger] lj[k] > #[trigger] lj[l] by {
                        assert(lj[k] == lj0[k]);
                    }
                    assert(later@[later@.len() - 1] == (page, bytes));
                    assert(holds_page(later@, page)) by {
                        assert(later@[later@.len() - 1].0 == page);
                    }
                    assert forall|x: u32| holds_page(later_before, x) implies holds_page(later@, x) by {
                        let k = choose|k: int| 0 <= k < later_before.len() && #[trigger] later_before[k].0 == x;
                        assert(later@[k].0 == x);
                    }
                    assert forall|k: int| 0 <= k < later@.len() implies #[trigger] later@[k].0 < n && !self.is_resident(later@[k].0 as int)
                        && self.spec_parents_resident(later@[k].0 as int)
                        && (!start.is_resident(later@[k].0 as int) || placement.evicted@.contains(later@[k].0)) by {
                        if k < later_before.len() {
                            assert(later@[k] == later_before[k]);
                        } else {
                            assert(later@[k].0 == page);
                            if start.is_resident(page as int) && !placement.evicted@.contains(page) {
                                if placed_page(placement.placed@, page) {
                                    let j = choose|j: int| 0 <= j < placement.placed@.len() && #[trigger] placement.placed@[j].0 == page;
                                    assert(self.slot_of@[page as int] == placement.placed@[j].1);
                                } else {
                                    assert(self.slot_of@[page as int] == start.slot_of@[page as int]);
                                }
                            }
                        }
                    }
                    assert forall|k: int| 0 <= k < later@.len() implies #[trigger] loaded@.contains(later@[k]) by {
                        if k < later_before.len() {
                            assert(later@[k] == later_before[k]);
                        }
                    }
                    assert forall|k: int, l: int| 0 <= k < l < later@.len() implies self.needs()[#[trigger] later@[k].0 as int] >= self.needs()[#[trigger] later@[l].0 as int] by {
                        if l == later@.len() - 1 {
                            assert(q_before[jdx] == (page, bytes));
                            assert(self.needs()[later_before[k].0 as int] >= self.needs()[q_before[jdx].0 as int]);
                        } else {
                            assert(later@[k] == later_before[k]);
                            assert(later@[l] == later_before[l]);
                        }
                    }
                    assert forall|k: int, l: int| 0 <= k < placement.placed@.len() && 0 <= l < later@.len()
                        implies self.needs()[#[trigger] placement.placed@[k].0 as int] >= self.needs()[#[trigger] later@[l].0 as int] by {
                        if l == later@.len() - 1 {
                            assert(q_before[jdx] == (page, bytes));
                            assert(self.needs()[placement.placed@[k].0 as int] >= self.needs()[q_before[jdx].0 as int]);
                        } else {
                            assert(later@[l] == later_before[l]);
                        }
                    }
                    assert forall|k: int, j: int| 0 <= k < later@.len() && 0 <= j < queue@.len()
                        implies self.needs()[#[trigger] later@[k].0 as int] >= self.needs()[#[trigger] queue@[j].0 as int] by {
                        assert(queue@[j] == q_before[j]);
                        if k == later@.len() - 1 {
                            assert(all[j] == queue@[j]);
                        } else {
                            assert(later@[k] == later_before[k]);
                        }
                    }
                    assert forall|j: int| queue@.len() <= j < all.len() && !holds_page(later@, #[trigger] all[j].0)
                        implies !self.pending@[all[j].0 as int] by {
                        if j == jdx {
                            assert(all[j].0 == page);
                        }
                    }
                }
                continue;
            }
            let ghost free_before = self.free_slots@;
            let ghost evicted_before = placement.evicted@;
            let ghost evict_idx0 = evict_idx;
            let ghost vi0 = vi as int;
            let ghost mut gone: Option<u32> = None;
            let slot = match self.free_slots.pop() {
                Some(slot) => {
                    proof {
                        assert(self.slot_of@ == self_before.slot_of@);
                        assert(placement.evicted@ == evicted_before);
                        assert(free_before[free_before.len() - 1] == slot);
                        assert(self.free_slots@ == free_before.take(free_before.len() - 1));
                        assert(start.free_slots@.take(self.free_slots@.len() as int) =~= free_before.take(free_before.len() - 1));
                        assert(slot < self.slot_count());
                        assert(self.page_in_slot@[slot as int] == PAGE_NONE);
                        assert(!self.free_slots@.contains(slot)) by {
                            if self.free_slots@.contains(slot) {
                                let k = choose|k: int| 0 <= k < self.free_slots@.len() && self.free_slots@[k] == slot;
                                assert(free_before[k] == free_before[free_before.len() - 1]);
                            }
                        }
                        Self::lemma_wf_free_pop(&self_before, self);
                        assert(vi == vi0);
                    }
                    Some(slot)
                },
                None => {
                    proof {
                        Self::lemma_wf_frame(&self_before, self);
                    }
                    let count = victims.len();
                    let (at, found) = self.next_victim(&victims, vi, page);
                    proof {
                        // The victims passed over are parents of `page`, or of a page placed before.
                        assert(self.slot_of@ == self_before.slot_of@ && self.need@ == start.need@);
                        assert forall|x: int| vi <= x < at implies start.parent_lists()[page as int].contains(#[trigger] victims@[x])
                            || parent_of_placed(start.parent_lists(), placement.placed@, victims@[x]) by {
                            let v = victims@[x];
                            assert(!placement.evicted@.contains(v)) by {
                                if placement.evicted@.contains(v) {
                                    let k = choose|k: int| 0 <= k < placement.evicted@.len() && placement.evicted@[k] == v;
                                    assert(victims@[evict_idx[k]] == victims@[x]);
                                }
                            }
                            if !start.parent_lists()[page as int].contains(v) {
                                assert(!self.spec_evictable(v as int));
                                Self::lemma_skipped_victim(&start, self, placement.placed@, placement.evicted@, v);
                            }
                        }
                    }
                    if found {
                        let victim = victims[at];
                        let ghost vi_before = vi;
                        vi = at + 1;
                        proof {
                            // The victim was never moved: not placed, not evicted before.
                            assert(!placement.evicted@.contains(victim)) by {
                                if placement.evicted@.contains(victim) {
                                    let k = choose|k: int| 0 <= k < placement.evicted@.len() && placement.evicted@[k] == victim;
                                    assert(victims@[evict_idx[k]] == victims@[at as int]);
                                }
                            }
                            assert(!placed_page(placement.placed@, victim)) by {
                                if placed_page(placement.placed@, victim) {
                                    let k = choose|k: int| 0 <= k < placement.placed@.len() && #[trigger] placement.placed@[k].0 == victim;
                                    assert(start.is_resident(victim as int));
                                }
                            }
                            assert(self.slot_of@[victim as int] == start.slot_of@[victim as int]);
                        }
                        placement.evicted.push(victim);
                        let slot = self.vacate(victim);
                        proof {
                            gone = Some(victim);
                            assert(placement.evicted@ == evicted_before.push(victim));
                            assert(self.slot_of@ == self_before.slot_of@.update(victim as int, PAGE_NONE));
                            evict_idx = evict_idx.push(at as int);
                            took = took.push(placement.placed@.len() as int);
                            assert(slot == start.slot_of@[victim as int]);
                            assert(!self.free_slots@.contains(slot)) by {
                                if self.free_slots@.contains(slot) {
                                    let k = choose|k: int| 0 <= k < self.free_slots@.len() && self.free_slots@[k] == slot;
                                }
                            }
                            assert(self.spec_parents_resident(page as int)) by {
                                assert forall|x: int| 0 <= x < self.parent_lists()[page as int].len() implies self.is_resident(self.parent_lists()[page as int][x] as int) by {
                                    let q = self.parent_lists()[page as int][x];
                                    assert(self_before.is_resident(q as int));
                                    assert(q != victim) by {
                                        assert(self_before.parent_lists()[page as int][x] == q);
                                    }
                                }
                            }
                        }
                        proof {
                            assert forall|x: int| vi0 <= x < vi implies placement.evicted@.contains(#[trigger] victims@[x])
                                || start.parent_lists()[page as int].contains(victims@[x])
                                || parent_of_placed(start.parent_lists(), placed_before, victims@[x]) by {
                                if x == at as int {
                                    assert(placement.evicted@[placement.evicted@.len() - 1] == victims@[x]);
                                }
                            }
                        }
                        Some(slot)
                    } else {
                        vi = at;
                        proof {
                            assert forall|x: int| vi0 <= x < vi implies placement.evicted@.contains(#[trigger] victims@[x])
                                || start.parent_lists()[page as int].contains(victims@[x])
                                || parent_of_placed(start.parent_lists(), placed_before, victims@[x]) by {}
                            assert(vi < victims@.len() ==> need_at_least(start.needs()[victims@[vi as int] as int], start.needs()[page as int]));
                        }
                        None
                    }
                },
            };
            match slot {
                None => {
                    proof {
                        assert(self.free_slots@.len() == 0);
                        assert(later@.len() == 0);
                        assert(q_before[jdx] == (page, bytes));
                        assert forall|k: int| 0 <= k < placement.placed@.len() implies self.needs()[#[trigger] placement.placed@[k].0 as int]
                            >= self.needs()[page as int] by {
                            assert(self.needs()[placement.placed@[k].0 as int] >= self.needs()[q_before[jdx].0 as int]);
                        }
                        assert forall|j: int| 0 <= j < queue@.len() implies self.needs()[#[trigger] queue@[j].0 as int]
                            <= self.needs()[page as int] by {
                            assert(queue@[j] == all[j]);
                        }
                        stopped = true;
                        stop_need = self.need@[page as int];
                        stop_page = page;
                        assert(!placed_page(placement.placed@, page)) by {
                            if placed_page(placement.placed@, page) {
                                let k = choose|k: int| 0 <= k < placement.placed@.len() && #[trigger] placement.placed@[k].0 == page;
                                assert(self_before.slot_of@[page as int] == placement.placed@[k].1);
                            }
                        }
                        assert(placement.placed@ == placed_before && placement.evicted@ == evicted_before);
                        assert forall|x: int| 0 <= x < vi implies placement.evicted@.contains(#[trigger] victims@[x])
                            || parent_of_placed(start.parent_lists(), placement.placed@, victims@[x])
                            || (stopped && start.parent_lists()[stop_page as int].contains(victims@[x])) by {
                            if x >= vi0 {
                                assert(placement.evicted@.contains(victims@[x])
                                    || start.parent_lists()[page as int].contains(victims@[x])
                                    || parent_of_placed(start.parent_lists(), placed_before, victims@[x]));
                            }
                        }
                    }
                    room = false;
                    let ghost prior = *self;
                    self.pending.set(page as usize, false);
                    proof {
                        Self::lemma_wf_frame(&prior, self);
                        assert forall|p: int| 0 <= p < n && !holds_page(loaded@, p as u32) implies #[trigger] self.pending@[p] == start.pending@[p] by {
                            assert(p != page as int);
                        }
                        assert forall|j: int| queue@.len() <= j < all.len() && !holds_page(later@, #[trigger] all[j].0)
                            implies !self.pending@[all[j].0 as int] by {
                            if j != jdx && all[j].0 != page {
                                assert(self.pending@[all[j].0 as int] == prior.pending@[all[j].0 as int]);
                            }
                        }
                    }
                },
                Some(slot) => {
                    let ghost prior = *self;
                    self.pending.set(page as usize, false);
                    proof {
                        Self::lemma_wf_frame(&prior, self);
                        if gone is None {
                            Self::lemma_parents_resident_same(&self_before, self, page as int);
                        } else {
                            Self::lemma_parents_resident_same(&prior, self, page as int);
                        }
                    }
                    let ghost before_occupy = *self;
                    self.occupy(page, slot);
                    placement.placed.push((page, slot, bytes));
                    proof {
                        let pj0 = pj;
                        pj = pj.push(jdx);
                        assert(later@.len() == 0);
                        assert forall|k: int| 0 <= k < pj.len() implies queue@.len() <= #[trigger] pj[k] < all.len()
                            && all[pj[k]].0 == placement.placed@[k].0 && all[pj[k]].1 == placement.placed@[k].2 by {
                            if k < pj0.len() {
                                assert(pj[k] == pj0[k] && placement.placed@[k] == placed_before[k]);
                            } else {
                                assert(all[jdx] == (page, bytes));
                            }
                        }
                        assert forall|k: int, l: int| 0 <= k < l < pj.len() implies #[trigger] pj[k] > #[trigger] pj[l] by {
                            assert(pj[k] == pj0[k]);
                        }
                        let placed = placement.placed@;
                        assert(placed == placed_before.push((page, slot, bytes)));
                        assert(placed[placed.len() - 1].0 == page);
                        assert(placed_page(placed, page));
                        assert(!placed_page(placed_before, page)) by {
                            if placed_page(placed_before, page) {
                                let k = choose|k: int| 0 <= k < placed_before.len() && #[trigger] placed_before[k].0 == page;
                                assert(prior.slot_of@[page as int] == placed_before[k].1);
                            }
                        }
                        assert forall|x: u32| placed_page(placed_before, x) implies placed_page(placed, x) by {
                            let k = choose|k: int| 0 <= k < placed_before.len() && #[trigger] placed_before[k].0 == x;
                            assert(placed[k].0 == x);
                        }
                        assert forall|x: u32| placed_page(placed, x) && x != page implies placed_page(placed_before, x) by {
                            let k = choose|k: int| 0 <= k < placed.len() && #[trigger] placed[k].0 == x;
                            assert(placed_before[k].0 == x);
                        }
                        let evicted = placement.evicted@;
                        // Where the slots stand before the placement.
                        let mid = match gone {
                            Some(v) => self_before.slot_of@.update(v as int, PAGE_NONE),
                            None => self_before.slot_of@,
                        };
                        assert(prior.slot_of@ == mid);
                        assert(self.slot_of@ == mid.update(page as int, slot));
                        assert(evicted == match gone {
                            Some(v) => evicted_before.push(v),
                            None => evicted_before,
                        });
                        assert forall|x: u32| evicted_before.contains(x) implies evicted.contains(x) by {
                            let k = choose|k: int| 0 <= k < evicted_before.len() && evicted_before[k] == x;
                            assert(evicted[k] == x);
                        }
                        if let Some(v) = gone {
                            assert(evicted[evicted.len() - 1] == v);
                            assert(v != page);
                            assert(!evicted_before.contains(v));
                            assert(!placed_page(placed_before, v));
                        }
                        assert forall|p: int| 0 <= p < n && !placed_page(placed, p as u32) && !evicted.contains(p as u32)
                            implies #[trigger] self.slot_of@[p] == start.slot_of@[p] by {
                            assert(p != page as int);
                            assert(!placed_page(placed_before, p as u32));
                            if let Some(v) = gone {
                                assert(p != v as int) by {
                                    if p == v as int {
                                        assert(evicted.contains(v));
                                    }
                                }
                            }
                            assert(!evicted_before.contains(p as u32));
                        }
                        assert forall|k: int| 0 <= k < evicted.len() implies (placed_page(placed, #[trigger] evicted[k])
                            || self.slot_of@[evicted[k] as int] == PAGE_NONE) by {
                            let e = evicted[k];
                            assert(victims@[evict_idx[k]] == e);
                            assert(e < n);
                            if k < evicted_before.len() {
                                assert(evicted_before[k] == e);
                                assert(placed_page(placed_before, evicted_before[k])
                                    || self_before.slot_of@[evicted_before[k] as int] == PAGE_NONE);
                                if placed_page(placed_before, e) {
                                    assert(placed_page(placed, e));
                                } else if e != page {
                                    assert(mid[e as int] == PAGE_NONE);
                                } else {
                                    assert(placed_page(placed, page));
                                }
                            } else {
                                assert(gone == Some(e));
                                assert(e != page);
                                assert(mid[e as int] == PAGE_NONE);
                            }
                        }
                        let last0 = if evict_idx0.len() > 0 { evict_idx0[evict_idx0.len() - 1] } else { 0 };
                        assert forall|x: int| 0 <= x < (if evict_idx.len() > 0 { evict_idx[evict_idx.len() - 1] } else { 0 })
                            implies placement.evicted@.contains(#[trigger] victims@[x])
                            || parent_of_placed(start.parent_lists(), placement.placed@, victims@[x]) by {
                            let v = victims@[x];
                            let ok_before = evicted_before.contains(v) || parent_of_placed(start.parent_lists(), placed_before, v);
                            if x < last0 {
                                assert(ok_before);
                            } else {
                                assert(gone is Some);
                                if x < vi0 {
                                    assert(ok_before);
                                } else {
                                    assert(evicted.contains(v) || start.parent_lists()[page as int].contains(v)
                                        || parent_of_placed(start.parent_lists(), placed_before, v));
                                }
                            }
                            if evicted_before.contains(v) {
                                let j = choose|j: int| 0 <= j < evicted_before.len() && evicted_before[j] == v;
                                assert(evicted[j] == v);
                            } else if parent_of_placed(start.parent_lists(), placed_before, v) {
                                let j = choose|j: int| 0 <= j < placed_before.len() && #[trigger] start.parent_lists()[placed_before[j].0 as int].contains(v);
                                assert(placed[j] == placed_before[j]);
                                assert(start.parent_lists()[placed[j].0 as int].contains(v));
                            } else if start.parent_lists()[page as int].contains(v) {
                                assert(start.parent_lists()[placed[placed.len() - 1].0 as int].contains(v));
                            }
                        }
                        let nf = start.free_slots@.len();
                        assert forall|k: int| 0 <= k < placed.len() implies #[trigger] placed[k].1 == if k < nf {
                            start.free_slots@[nf - 1 - k]
                        } else {
                            start.slot_of@[evicted[k - nf] as int]
                        } by {
                            if k < placed.len() - 1 {
                                assert(placed[k] == placed_before[k]);
                                if k >= nf {
                                    assert(evicted[k - nf] == evicted_before[k - nf]);
                                }
                            } else if gone is None {
                                assert(evicted == evicted_before);
                                assert(free_before.len() > 0);
                                assert(evicted_before.len() == 0);
                                assert(free_before[free_before.len() - 1] == start.free_slots@[free_before.len() - 1]);
                            } else {
                                assert(free_before.len() == 0);
                                assert(evicted[evicted.len() - 1] == gone->0);
                            }
                        }
                        assert forall|k: int| 0 <= k < placed.len() implies #[trigger] placed[k].0 < n
                            && self.slot_of@[placed[k].0 as int] == placed[k].1
                            && placed[k].1 < self.slot_count() by {
                            if k < placed.len() - 1 {
                                assert(placed[k] == placed_before[k]);
                                assert(placed_before[k].0 < n && self_before.slot_of@[placed_before[k].0 as int] == placed_before[k].1
                                    && placed_before[k].1 < self_before.slot_count());
                                assert(placed_page(placed_before, placed[k].0));
                                assert(placed[k].0 != page);
                                if let Some(v) = gone {
                                    assert(placed[k].0 != v);
                                }
                                assert(mid[placed[k].0 as int] == placed[k].1);
                            }
                        }
                        assert forall|k: int| 0 <= k < placed.len() && start.is_resident(#[trigger] placed[k].0 as int)
                            implies evicted.contains(placed[k].0) by {
                            if k == placed.len() - 1 {
                                if !evicted_before.contains(page) {
                                    assert(self_before.slot_of@[page as int] == start.slot_of@[page as int]);
                                }
                            } else {
                                assert(placed[k] == placed_before[k]);
                            }
                        }
                        assert forall|j: int| queue@.len() <= j < all.len() && placeable(start, evicted, (#[trigger] all[j]).0)
                            && !placed_page(placed, all[j].0) && !holds_page(later@, all[j].0) implies stopped
                            && self.needs()[all[j].0 as int] <= stop_need by {
                            if j == jdx {
                                assert(all[j].0 == page);
                            } else {
                                assert(placeable(start, evicted_before, all[j].0));
                            }
                        }
                    }
                },
            }
        }
        proof {
            let placed = placement.placed@;
            let evicted = placement.evicted@;
            let need = start.needs();
            assert(queue@.len() == 0);
            assert forall|k: int| 0 <= k < evicted.len() implies gave_slot(placed, start.slots()[evicted[k] as int], need, #[trigger] evicted[k]) by {
                let j = took[k];
                assert(placed[j].1 == start.slot_of@[evicted[k] as int]);
            }
            assert forall|k: int, l: int| 0 <= k < l < evicted.len() implies evicts_before(need, start.last_needed_frames(), #[trigger] evicted[k], #[trigger] evicted[l]) by {
                assert(evict_idx[k] < evict_idx[l]);
                assert(evicted[k] == victims@[evict_idx[k]]);
                assert(evicted[l] == victims@[evict_idx[l]]);
            }
            assert forall|k: int, l: int| 0 <= k < l < evicted.len() implies need[#[trigger] evicted[k] as int] < need[#[trigger] evicted[l] as int]
                || (need[evicted[k] as int] == need[evicted[l] as int]
                && start.last_needed_frames()[evicted[k] as int] <= start.last_needed_frames()[evicted[l] as int]) by {
                assert(evicts_before(need, start.last_needed_frames(), evicted[k], evicted[l]));
            }
            assert forall|k: int, u: u32|
                #![trigger evicted[k], start.spec_evictable(u as int)]
                0 <= k < evicted.len() && u < n && start.spec_evictable(u as int) && !evicted.contains(u)
                && (need[u as int] < need[evicted[k] as int] || (need[u as int] == need[evicted[k] as int]
                && (start.last_needed_frames()[u as int] < start.last_needed_frames()[evicted[k] as int]
                || (start.last_needed_frames()[u as int] == start.last_needed_frames()[evicted[k] as int]
                && start.slots()[u as int] < start.slots()[evicted[k] as int]))))
                implies parent_of_placed(start.parent_lists(), placed, u) by {
                let iv = evict_idx[k];
                assert(evicted[k] == victims@[iv]);
                assert(victims@.contains(u));
                let iu = choose|iu: int| 0 <= iu < victims@.len() && victims@[iu] == u;
                assert(iu != iv);
                if iu > iv {
                    assert(evicts_before(start.needs(), start.last_needed_frames(), victims@[iv], victims@[iu]));
                    if start.needs()[u as int] == start.needs()[evicted[k] as int]
                        && start.last_needed_frames()[u as int] == start.last_needed_frames()[evicted[k] as int] {
                        assert(start.slots()[victims@[iv] as int] < start.slots()[victims@[iu] as int]);
                    }
                    assert(false);
                }
                let last = evict_idx[evict_idx.len() - 1];
                if k < evict_idx.len() - 1 {
                    assert(evict_idx[k] < last);
                }
                assert(iu < last);
                assert(placement.evicted@.contains(victims@[iu])
                    || parent_of_placed(start.parent_lists(), placement.placed@, victims@[iu]));
            }
            assert(evicted.no_duplicates()) by {
                assert forall|k: int, l: int| 0 <= k < l < evicted.len() implies evicted[k] != evicted[l] by {
                    assert(evict_idx[k] < evict_idx[l]);
                    assert(evicted[k] == victims@[evict_idx[k]]);
                    assert(evicted[l] == victims@[evict_idx[l]]);
                }
            }
            assert forall|k: int| 0 <= k < evicted.len() implies start.spec_evictable(#[trigger] evicted[k] as int) by {
                assert(evicted[k] == victims@[evict_idx[k]]);
            }
            assert forall|i: int| 0 <= i < loaded@.len() && !holds_page(later@, #[trigger] loaded@[i].0)
                implies !self.pending@[loaded@[i].0 as int] by {
                let j = choose|j: int| 0 <= j < all.len() && all[j] == loaded@[i];
                assert(all[j].0 == loaded@[i].0);
            }
            assert forall|i: int, v: u32| 0 <= i < loaded@.len() && placeable(start, evicted, #[trigger] loaded@[i].0)
                && !placed_page(placed, loaded@[i].0) && !holds_page(later@, loaded@[i].0) && v < n
                && #[trigger] start.spec_evictable(v as int) && !evicted.contains(v)
                && need_below(start.needs()[v as int], start.needs()[loaded@[i].0 as int])
                implies parent_of_placed(start.parent_lists(), placed, v) || exists|i2: int| 0 <= i2 < loaded@.len()
                && !placed_page(placed, #[trigger] loaded@[i2].0) && start.needs()[loaded@[i2].0 as int] >= start.needs()[loaded@[i].0 as int]
                && start.parent_lists()[loaded@[i2].0 as int].contains(v) by {
                let j = choose|j: int| 0 <= j < all.len() && all[j] == loaded@[i];
                assert(all[j].0 == loaded@[i].0);
                assert(stopped && self.needs()[all[j].0 as int] <= stop_need);
                assert(victims@.contains(v));
                let x = choose|x: int| 0 <= x < victims@.len() && victims@[x] == v;
                if x >= vi {
                    let w = victims@[vi as int];
                    if x > vi {
                        assert(evicts_before(start.needs(), start.last_needed_frames(), w, victims@[x]));
                    }
                    assert(need_at_least(start.needs()[w as int], stop_need));
                    assert(start.needs()[w as int] <= start.needs()[v as int]);
                    assert(start.needs()[loaded@[i].0 as int] <= stop_need);
                    assert(false);
                }
                assert(x < vi);
                if !parent_of_placed(start.parent_lists(), placed, v) {
                    assert(start.parent_lists()[stop_page as int].contains(victims@[x]));
                    let i2 = choose|i2: int| 0 <= i2 < loaded@.len() && #[trigger] loaded@[i2].0 == stop_page;
                    assert(loaded@[i2].0 == stop_page);
                }
            }
            assert forall|k: int, l: int| 0 <= k < l < placed.len() && start.needs()[#[trigger] placed[k].0 as int] == start.needs()[#[trigger] placed[l].0 as int]
                implies exists|i: int, j: int| #![trigger loaded@[i], loaded@[j]] 0 <= i < j < loaded@.len()
                && loaded@[i] == (placed[k].0, placed[k].2) && loaded@[j] == (placed[l].0, placed[l].2) by {
                assert(placed[k] == placement.placed@[k] && placed[l] == placement.placed@[l]);
                assert(pj[k] > pj[l]);
                assert(qidx[pj[l]] > qidx[pj[k]]);
                assert(loaded@[qidx[pj[k]]] == (placed[k].0, placed[k].2));
                assert(loaded@[qidx[pj[l]]] == (placed[l].0, placed[l].2));
            }
            assert forall|k: int, l: int| 0 <= k < l < later@.len() && start.needs()[#[trigger] later@[k].0 as int] == start.needs()[#[trigger] later@[l].0 as int]
                implies exists|i: int, j: int| #![trigger loaded@[i], loaded@[j]] 0 <= i < j < loaded@.len()
                && loaded@[i] == later@[k] && loaded@[j] == later@[l] by {
                assert(lj[k] > lj[l]);
                assert(qidx[lj[l]] > qidx[lj[k]]);
                assert(loaded@[qidx[lj[k]]] == later@[k]);
                assert(loaded@[qidx[lj[l]]] == later@[l]);
            }
            assert forall|k: int, l: int| 0 <= k < placed.len() && 0 <= l < later@.len() && start.needs()[#[trigger] placed[k].0 as int] == start.needs()[#[trigger] later@[l].0 as int]
                implies exists|i: int, j: int| #![trigger loaded@[i], loaded@[j]] 0 <= i < j < loaded@.len()
                && loaded@[i] == (placed[k].0, placed[k].2) && loaded@[j] == later@[l] by {
                assert(placed[k] == placement.placed@[k]);
                assert(pj[k] > lj[l]);
                assert(qidx[lj[l]] > qidx[pj[k]]);
                assert(loaded@[qidx[pj[k]]] == (placed[k].0, placed[k].2));
                assert(loaded@[qidx[lj[l]]] == later@[l]);
            }
            assert forall|k: int| 0 <= k < placed.len() implies self.is_resident(#[trigger] placed[k].0 as int)
                && self.spec_parents_resident(placed[k].0 as int) by {
                assert(placed[k] == placement.placed@[k]);
                assert(placed[k].0 < n && self.slot_of@[placed[k].0 as int] == placed[k].1 && placed[k].1 < self.slot_count());
                assert(self.tables_agree());
                assert(self.is_resident(placed[k].0 as int));
                assert(self.closed_upwards());
            }
            if hyp {
                assert forall|i: int| 0 <= i < loaded@.len() && !start.is_resident(#[trigger] loaded@[i].0 as int)
                    && start.spec_parents_resident(loaded@[i].0 as int) implies placed_page(placed, loaded@[i].0) by {
                    let j = choose|j: int| 0 <= j < all.len() && all[j] == loaded@[i];
                    assert(all[j].0 == loaded@[i].0);
                }
            }
        }
        (placement, later)
    }

    /// A page that was evictable at the start of a placement and is no longer, though still
    /// in its slot, is a parent of a page placed since.
    proof fn lemma_skipped_victim<T>(start: &Self, cur: &Self, placed: Seq<(u32, u32, T)>, evicted: Seq<u32>, v: u32)
        requires
            start.wf(),
            cur.wf(),
            cur.page_count() == start.page_count(),
            cur.parents@ == start.parents@,
            cur.pinned@ == start.pinned@,
            v < start.page_count(),
            start.spec_evictable(v as int),
            !evicted.contains(v),
            !cur.spec_evictable(v as int),
            forall|p: int| 0 <= p < start.page_count() && !placed_page(placed, p as u32) && !evicted.contains(p as u32)
                ==> #[trigger] cur.slot_of@[p] == start.slot_of@[p],
            forall|k: int| 0 <= k < evicted.len() ==> (placed_page(placed, #[trigger] evicted[k])
                || cur.slot_of@[evicted[k] as int] == PAGE_NONE),
            forall|k: int| 0 <= k < placed.len() && start.is_resident(#[trigger] placed[k].0 as int)
                ==> evicted.contains(placed[k].0),
        ensures
            parent_of_placed(start.parent_lists(), placed, v),
    {
        let n = start.page_count() as int;
        assert(!placed_page(placed, v)) by {
            if placed_page(placed, v) {
                let k = choose|k: int| 0 <= k < placed.len() && #[trigger] placed[k].0 == v;
                assert(start.is_resident(placed[k].0 as int));
            }
        }
        assert(cur.slot_of@[v as int] == start.slot_of@[v as int]);
        assert(cur.parent_lists() == start.parent_lists());
        assert(cur.resident_children@[v as int] >= 1);
        let c = lemma_children_some(cur.slot_of@, cur.parent_lists(), v, n);
        if placed_page(placed, c as u32) {
            let k = choose|k: int| 0 <= k < placed.len() && #[trigger] placed[k].0 == c as u32;
            assert(start.parent_lists()[placed[k].0 as int].contains(v));
        } else if evicted.contains(c as u32) {
            let k = choose|k: int| 0 <= k < evicted.len() && evicted[k] == c as u32;
            assert(placed_page(placed, evicted[k]) || cur.slot_of@[evicted[k] as int] == PAGE_NONE);
        } else {
            assert(cur.slot_of@[c] == start.slot_of@[c]);
            lemma_children_zero(start.slot_of@, start.parent_lists(), v, n, c);
            assert(start.resident_children@[v as int] >= 1);
        }
    }

    /// Taking the last free slot keeps the set well formed.
    proof fn lemma_wf_free_pop(a: &Self, b: &Self)
        requires
            a.wf(),
            a.free_slots@.len() > 0,
            b.free_slots@ == a.free_slots@.take(a.free_slots@.len() - 1),
            b.slot_of@ == a.slot_of@,
            b.page_in_slot@ == a.page_in_slot@,
            b.pinned@ == a.pinned@,
            b.parents@ == a.parents@,
            b.resident_children@ == a.resident_children@,
            b.pending@ == a.pending@,
            b.need@ == a.need@,
            b.last_needed@ == a.last_needed@,
        ensures
            b.wf(),
    {
        assert(b.parent_lists() == a.parent_lists());
        assert forall|i: int| 0 <= i < b.free_slots@.len() implies #[trigger] b.free_slots@[i] < b.slot_count()
            && b.page_in_slot@[b.free_slots@[i] as int] == PAGE_NONE by {
            assert(b.free_slots@[i] == a.free_slots@[i]);
        }
        assert(b.free_slots@.no_duplicates()) by {
            assert forall|x: int, y: int| 0 <= x < y < b.free_slots@.len() implies b.free_slots@[x] != b.free_slots@[y] by {
                assert(b.free_slots@[x] == a.free_slots@[x]);
                assert(b.free_slots@[y] == a.free_slots@[y]);
            }
        }
        assert forall|p: int| 0 <= p < b.page_count() && #[trigger] b.is_resident(p) implies b.spec_parents_resident(p) by {
            assert(a.is_resident(p));
        }
    }

    /// Whether a page's parents are resident depends on the slots and the dependencies alone.
    proof fn lemma_parents_resident_same(a: &Self, b: &Self, p: int)
        requires
            a.slot_of@ == b.slot_of@,
            a.parents@ == b.parents@,
        ensures
            a.spec_parents_resident(p) == b.spec_parents_resident(p),
    {
        assert(a.parent_lists() == b.parent_lists());
    }

    /// Well-formedness does not look at the needs, the frames or the pending flags.
    proof fn lemma_wf_frame(a: &Self, b: &Self)
        requires
            a.wf(),
            b.slot_of@ == a.slot_of@,
            b.page_in_slot@ == a.page_in_slot@,
            b.free_slots@ == a.free_slots@,
            b.pinned@ == a.pinned@,
            b.parents@ == a.parents@,
            b.resident_children@ == a.resident_children@,
            b.pending@.len() == a.pending@.len(),
            b.need@.len() == a.need@.len(),
            b.last_needed@.len() == a.last_needed@.len(),
        ensures
            b.wf(),
    {
        assert(b.parent_lists() == a.parent_lists());
        assert forall|p: int| 0 <= p < b.page_count() && #[trigger] b.is_resident(p) implies b.spec_parents_resident(p) by {
            assert(a.is_resident(p));
        }
    }
}

/// Whether cluster link `(page, child_page)` makes `child` depend on `parent`: a cluster of
/// page `parent` whose children lie in page `child`, another page.
pub open spec fn links_to(link: (u32, u32), child: int, parent: int) -> bool {
    link.1 != PAGE_NONE && link.1 != link.0 && link.1 == child && link.0 == parent
}

/// Inserts `x` into the strictly increasing `list` unless it is there.
fn insert_sorted(list: &mut Vec<u32>, x: u32)
    requires
        forall|i: int, j: int| 0 <= i < j < old(list)@.len() ==> old(list)@[i] < old(list)@[j],
    ensures
        forall|i: int, j: int| 0 <= i < j < final(list)@.len() ==> final(list)@[i] < final(list)@[j],
        forall|y: u32| #![trigger final(list)@.contains(y)] #![trigger old(list)@.contains(y)]
            final(list)@.contains(y) <==> (old(list)@.contains(y) || y == x),
{
    let mut i: usize = 0;
    while i < list.len() && list[i] < x
        invariant
            i <= list@.len(),
            forall|k: int| 0 <= k < i ==> list@[k] < x,
        decreases list@.len() - i,
    {
        i = i + 1;
    }
    if i < list.len() && list[i] == x {
        proof {
            assert(list@[i as int] == x);
        }
        return;
    }
    let ghost before = list@;
    list.insert(i, x);
    proof {
        assert forall|a: int, b: int| 0 <= a < b < list@.len() implies list@[a] < list@[b] by {
            if b < i {
            } else if a < i && b == i {
            } else if a < i && b > i {
                assert(list@[b] == before[b - 1]);
            } else if a == i {
                assert(list@[b] == before[b - 1]);
                assert(before[i as int] > x);
                if b - 1 > i {
                    assert(before[i as int] < before[b - 1]);
                }
            } else {
                assert(list@[a] == before[a - 1] && list@[b] == before[b - 1]);
            }
        }
        assert forall|y: u32| #![trigger list@.contains(y)] #![trigger before.contains(y)]
            list@.contains(y) <==> (before.contains(y) || y == x) by {
            if list@.contains(y) {
                let k = choose|k: int| 0 <= k < list@.len() && list@[k] == y;
                if k < i {
                    assert(before[k] == y);
                } else if k > i {
                    assert(before[k - 1] == y);
                }
            }
            if before.contains(y) {
                let k = choose|k: int| 0 <= k < before.len() && before[k] == y;
                if k < i {
                    assert(list@[k] == y);
                } else {
                    assert(list@[k + 1] == y);
                }
            }
            if y == x {
                assert(list@[i as int] == x);
            }
        }
    }
}

impl ResidentSet {
    /// The pages holding a parent of each page's clusters, from the clusters' `links`
    /// (page, child page or `PAGE_NONE`): a cluster's children live in its child page, which
    /// depends on the cluster's page; both in one page is no dependency (they load together).
    /// Each list ascending, without repeats.
    pub fn parents_of(page_count: usize, links: &[(u32, u32)]) -> (parents: Vec<Vec<u32>>)
        requires
            forall|m: int| 0 <= m < links@.len() ==> #[trigger] links@[m].0 < page_count
                && (links@[m].1 == PAGE_NONE || links@[m].1 < page_count),
        ensures
            parents@.len() == page_count,
            forall|c: int, i: int, j: int| 0 <= c < page_count && 0 <= i < j < parents@[c]@.len()
                ==> #[trigger] parents@[c]@[i] < #[trigger] parents@[c]@[j],
            forall|c: int, p: u32| 0 <= c < page_count ==> (#[trigger] parents@[c]@.contains(p) <==> exists|m: int|
                0 <= m < links@.len() && links_to(#[trigger] links@[m], c, p as int)),
    {
        let mut parents: Vec<Vec<u32>> = Vec::new();
        let mut c: usize = 0;
        while c < page_count
            invariant
                c <= page_count,
                parents@.len() == c,
                forall|k: int| 0 <= k < c ==> (#[trigger] parents@[k])@.len() == 0,
            decreases page_count - c,
        {
            parents.push(Vec::new());
            c = c + 1;
        }
        let mut m: usize = 0;
        while m < links.len()
            invariant
                m <= links@.len(),
                parents@.len() == page_count,
                forall|k: int| 0 <= k < links@.len() ==> #[trigger] links@[k].0 < page_count
                    && (links@[k].1 == PAGE_NONE || links@[k].1 < page_count),
                forall|c: int, i: int, j: int| 0 <= c < page_count && 0 <= i < j < parents@[c]@.len()
                    ==> #[trigger] parents@[c]@[i] < #[trigger] parents@[c]@[j],
                forall|c: int, p: u32| 0 <= c < page_count ==> (#[trigger] parents@[c]@.contains(p) <==> exists|k: int|
                    0 <= k < m && links_to(#[trigger] links@[k], c, p as int)),
            decreases links@.len() - m,
        {
            let (page, child) = links[m];
            let ghost before = parents@;
            if child != PAGE_NONE && child != page {
                let mut list: Vec<u32> = Vec::new();
                parents.set_and_swap(child as usize, &mut list);
                insert_sorted(&mut list, page);
                parents.set_and_swap(child as usize, &mut list);
            }
            m = m + 1;
            proof {
                assert forall|c: int, i: int, j: int| 0 <= c < page_count && 0 <= i < j < parents@[c]@.len()
                    implies #[trigger] parents@[c]@[i] < #[trigger] parents@[c]@[j] by {
                    if c != child as int || child == PAGE_NONE || child == page {
                        assert(parents@[c] == before[c]);
                    }
                }
                assert forall|c: int, p: u32| 0 <= c < page_count implies (#[trigger] parents@[c]@.contains(p) <==> exists|k: int|
                    0 <= k < m && links_to(#[trigger] links@[k], c, p as int)) by {
                    let link = links@[m - 1];
                    if exists|k: int| 0 <= k < m - 1 && links_to(#[trigger] links@[k], c, p as int) {
                        let k = choose|k: int| 0 <= k < m - 1 && links_to(#[trigger] links@[k], c, p as int);
                        assert(0 <= k < m && links_to(links@[k], c, p as int));
                    }
                    if links_to(link, c, p as int) {
                        assert(0 <= m - 1 < m && links_to(links@[m - 1], c, p as int));
                    }
                    if exists|k: int| 0 <= k < m && links_to(#[trigger] links@[k], c, p as int) {
                        let k = choose|k: int| 0 <= k < m && links_to(#[trigger] links@[k], c, p as int);
                        if k < m - 1 {
                            assert(exists|k2: int| 0 <= k2 < m - 1 && links_to(#[trigger] links@[k2], c, p as int));
                        }
                    }
                    if c != child as int || child == PAGE_NONE || child == page {
                        assert(parents@[c] == before[c]);
                    }
                }
            }
        }
        parents
    }
}

} // verus!
