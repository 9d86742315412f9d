//! A streamed scene's frame-by-frame residency decisions, between the GPU's read-back needs
//! and the I/O thread's reads: what to upload where, what to evict, what to read next, and
//! the frame's counters. The caller performs the reads, the staging writes and the copies.

use vstd::prelude::*;

use crate::residency::{
    needs_outcome, occupied_upto, own_needs, place_outcome, requests_outcome, wanted_absent_upto, Placement, ResidentSet,
};
use crate::streaming::{StreamingConfig, StreamingStats, UploadPlan, PAGE_NONE, PAGE_SIZE};

verus! {

/// The residency of a streamed scene, the pages read and waiting for an upload budget, and the
/// reads in flight.
pub struct StreamerCore<T> {
    config: StreamingConfig,
    residency: ResidentSet,
    ready: Vec<(u32, T)>,
    in_flight: u32,
    stats: StreamingStats,
}

/// What a frame's residency work decided.
pub struct FrameWork<T> {
    /// Pages to upload, (page, slot, bytes) in staging order, and the pages they evict.
    pub placement: Placement<T>,
    /// The copies the frame's upload pass records.
    pub plan: UploadPlan,
    /// The value of each page-table entry the plan copies.
    pub table_values: Vec<u32>,
    /// Pages to send to the I/O thread, the neediest first.
    pub requests: Vec<u32>,
}

/// The pages of `arrived` that came with their bytes, in the order they came.
pub open spec fn arrived_bytes<T>(arrived: Seq<(u32, Option<T>)>) -> Seq<(u32, T)>
    decreases arrived.len(),
{
    if arrived.len() == 0 {
        Seq::empty()
    } else {
        let rest = arrived_bytes(arrived.drop_last());
        match arrived.last().1 {
            Some(bytes) => rest.push((arrived.last().0, bytes)),
            None => rest,
        }
    }
}

/// Whether a read of page `p` failed in `arrived`.
pub open spec fn read_failed<T>(arrived: Seq<(u32, Option<T>)>, p: int) -> bool {
    exists|k: int| 0 <= k < arrived.len() && #[trigger] arrived[k].0 == p && arrived[k].1 is None
}

/// `after` is `before` with the pages whose reads failed in `arrived` no longer requested.
pub open spec fn failed_abandoned<T>(before: ResidentSet, after: ResidentSet, arrived: Seq<(u32, Option<T>)>) -> bool {
    &&& after.wf()
    &&& after.slots() == before.slots()
    &&& after.pages() == before.pages()
    &&& after.free() == before.free()
    &&& after.pinned_pages() == before.pinned_pages()
    &&& after.needs() == before.needs()
    &&& after.last_needed_frames() == before.last_needed_frames()
    &&& after.parent_lists() == before.parent_lists()
    &&& after.pending_pages().len() == before.pending_pages().len()
    &&& forall|p: int| 0 <= p < before.pending_pages().len() ==> #[trigger] after.pending_pages()[p] == (
        before.pending_pages()[p] && !read_failed(arrived, p))
}

/// One more answer: a failed read is one more page no longer requested.
proof fn lemma_read_failed_step<T>(a: Seq<(u32, Option<T>)>, t: int, p: int)
    requires
        0 <= t < a.len(),
    ensures
        read_failed(a.take(t + 1), p) == (read_failed(a.take(t), p) || (a[t].0 == p && a[t].1 is None)),
{
    if read_failed(a.take(t + 1), p) {
        let k = choose|k: int| 0 <= k < t + 1 && #[trigger] a.take(t + 1)[k].0 == p && a.take(t + 1)[k].1 is None;
        if k < t {
            assert(a.take(t)[k] == a[k]);
        }
    }
    if read_failed(a.take(t), p) {
        let k = choose|k: int| 0 <= k < t && #[trigger] a.take(t)[k].0 == p && a.take(t)[k].1 is None;
        assert(a.take(t + 1)[k] == a[k]);
    }
    if a[t].0 == p && a[t].1 is None {
        assert(a.take(t + 1)[t] == a[t]);
    }
}

/// One more answer: its bytes, if any, come after the earlier ones.
proof fn lemma_arrived_bytes_step<T>(a: Seq<(u32, Option<T>)>, t: int)
    requires
        0 <= t < a.len(),
    ensures
        arrived_bytes(a.take(t + 1)) == match a[t].1 {
            Some(bytes) => arrived_bytes(a.take(t)).push((a[t].0, bytes)),
            None => arrived_bytes(a.take(t)),
        },
{
    assert(a.take(t + 1).drop_last() =~= a.take(t));
    assert(a.take(t + 1).last() == a[t]);
}

impl<T> StreamerCore<T> {
    /// The resident set is well formed, every waiting page is a page, and the counters give
    /// the pool's size and the reads in flight.
    pub closed spec fn wf(&self) -> bool {
        &&& self.residency.wf()
        &&& forall|k: int| 0 <= k < self.ready@.len() ==> #[trigger] self.ready@[k].0 < self.residency.page_count()
        &&& self.stats.pool_pages == self.config.pool_pages
        &&& self.stats.reading == self.in_flight
    }

    /// The budgets.
    pub closed spec fn budgets(&self) -> StreamingConfig {
        self.config
    }

    /// The resident set.
    pub closed spec fn resident_set(&self) -> ResidentSet {
        self.residency
    }

    /// Reads sent and not answered.
    pub closed spec fn reads(&self) -> u32 {
        self.in_flight
    }

    /// Pages read and waiting for an upload budget.
    pub closed spec fn waiting(&self) -> Seq<(u32, T)> {
        self.ready@
    }

    /// The last frame's counters.
    pub closed spec fn counters(&self) -> StreamingStats {
        self.stats
    }

    /// A streamer with `config`'s budgets over `residency`, nothing read or in flight.
    pub fn new(config: StreamingConfig, residency: ResidentSet) -> (core: Self)
        requires
            residency.wf(),
        ensures
            core.wf(),
            core.budgets() == config,
            core.resident_set() == residency,
            core.reads() == 0,
            core.waiting().len() == 0,
            core.counters() == (StreamingStats {
                pool_pages: config.pool_pages,
                resident: 0,
                wanted: 0,
                requested: 0,
                reading: 0,
                uploaded: 0,
                evicted: 0,
            }),
    {
        StreamerCore {
            config,
            residency,
            ready: Vec::new(),
            in_flight: 0,
            stats: StreamingStats {
                pool_pages: config.pool_pages,
                resident: 0,
                wanted: 0,
                requested: 0,
                reading: 0,
                uploaded: 0,
                evicted: 0,
            },
        }
    }

    /// The last frame's counters.
    pub fn stats(&self) -> (stats: StreamingStats)
        ensures
            stats == self.counters(),
    {
        self.stats
    }

    /// Frame `frame`'s residency work: takes the needs the culls wrote (`need_bits`, a float's
    /// bits per page), then the reads answered since the last frame (`arrived`: a page and its
    /// bytes, or `None` for a failed read, which is no longer requested); places the waiting
    /// and arrived pages within the upload budget, the rest waiting; plans the uploads; and
    /// asks for as many new reads as the reads in flight leave room for.
    #[verifier::rlimit(40)]
    pub fn begin_frame(&mut self, frame: u64, need_bits: &[u32], arrived: Vec<(u32, Option<T>)>) -> (work: FrameWork<T>)
        requires
            old(self).wf(),
            need_bits@.len() <= old(self).resident_set().page_count(),
            arrived@.len() <= old(self).reads(),
            forall|k: int| 0 <= k < arrived@.len() ==> #[trigger] arrived@[k].0 < old(self).resident_set().page_count(),
        ensures
            final(self).wf(),
            final(self).budgets() == old(self).budgets(),
            final(self).resident_set().page_count() == old(self).resident_set().page_count(),
            final(self).counters().wanted == wanted_absent_upto(
                own_needs(old(self).resident_set().needs(), need_bits@),
                old(self).resident_set().slots(),
                old(self).resident_set().page_count() as int,
            ),
            work.placement.placed@.len() <= old(self).budgets().upload_pages,
            final(self).counters().uploaded == work.placement.placed@.len(),
            final(self).counters().evicted == work.placement.evicted@.len(),
            work.plan.pages@.len() == work.placement.placed@.len(),
            work.plan.table@.len() == work.placement.placed@.len() + work.placement.evicted@.len(),
            work.table_values@.len() == work.plan.table@.len(),
            forall|i: int| 0 <= i < work.placement.placed@.len() ==> #[trigger] work.table_values@[i]
                == work.placement.placed@[i].1,
            forall|i: int| 0 <= i < work.placement.placed@.len() ==> #[trigger] work.plan.pages@[i] == (
                (i * PAGE_SIZE) as u64,
                (work.placement.placed@[i].1 * PAGE_SIZE) as u64,
                PAGE_SIZE as u64,
            ) && work.plan.table@[i].1 == work.placement.placed@[i].0 * 4,
            forall|i: int| 0 <= i < work.placement.evicted@.len() ==> #[trigger] work.plan.table@[
                work.placement.placed@.len() + i].1 == work.placement.evicted@[i] * 4
                && work.table_values@[work.placement.placed@.len() + i] == PAGE_NONE,
            forall|i: int| 0 <= i < work.plan.table@.len() ==> #[trigger] work.plan.table@[i].0 == old(self).budgets().upload_pages
                * PAGE_SIZE + i * 4 && work.plan.table@[i].2 == 4,
            final(self).reads() == old(self).reads() - arrived@.len() + work.requests@.len(),
            work.requests@.len() <= (if old(self).budgets().reads_in_flight >= old(self).reads() - arrived@.len() {
                old(self).budgets().reads_in_flight - (old(self).reads() - arrived@.len())
            } else {
                0
            }),
            final(self).counters().requested == work.requests@.len(),
            final(self).counters().reading == final(self).reads(),
            final(self).counters().pool_pages == old(self).budgets().pool_pages,
            final(self).counters().resident == occupied_upto(
                final(self).resident_set().pages(),
                final(self).resident_set().slot_count() as int,
            ),
            forall|k: int| 0 <= k < work.requests@.len() ==> #[trigger] work.requests@[k]
                < old(self).resident_set().page_count(),
            exists|s1: ResidentSet, s2: ResidentSet, s3: ResidentSet|
                {
                    &&& needs_outcome(old(self).resident_set(), s1, frame, need_bits@, final(self).counters().wanted)
                    &&& failed_abandoned(s1, s2, arrived@)
                    &&& place_outcome(
                        s2,
                        s3,
                        old(self).waiting() + arrived_bytes(arrived@),
                        old(self).budgets().upload_pages,
                        work.placement,
                        final(self).waiting(),
                    )
                    &&& requests_outcome(
                        s3,
                        final(self).resident_set(),
                        if old(self).budgets().reads_in_flight >= old(self).reads() - arrived@.len() {
                            old(self).budgets().reads_in_flight - (old(self).reads() - arrived@.len())
                        } else {
                            0
                        },
                        work.requests@,
                    )
                },
    {
        proof {
            old(self).residency.lemma_counts();
        }
        let wanted = self.residency.set_needs(frame, need_bits);
        proof {
            self.residency.lemma_counts();
        }
        let ghost n = self.residency.page_count();
        let ghost s1 = self.residency;
        let ghost a0 = arrived@;
        let count = arrived.len();
        // The answers in the order they came, the first on top.
        let mut arrived = arrived;
        let mut answers: Vec<(u32, Option<T>)> = Vec::new();
        while arrived.len() > 0
            invariant
                forall|k: int| 0 <= k < arrived@.len() ==> #[trigger] arrived@[k].0 < n,
                forall|k: int| 0 <= k < answers@.len() ==> #[trigger] answers@[k].0 < n,
                arrived@.len() + answers@.len() == count,
                count == a0.len(),
                arrived@ == a0.take(arrived@.len() as int),
                forall|i: int| 0 <= i < answers@.len() ==> #[trigger] answers@[i] == a0[count - 1 - i],
            decreases arrived@.len(),
        {
            let ghost before = arrived@;
            let answer = arrived.pop().unwrap();
            proof {
                assert(answer == before[before.len() - 1]);
                assert(arrived@ =~= a0.take(arrived@.len() as int));
            }
            answers.push(answer);
        }
        proof {
            assert(a0.take(0) =~= Seq::<(u32, Option<T>)>::empty());
            assert(arrived_bytes(a0.take(0)) =~= Seq::<(u32, T)>::empty());
            assert forall|p: int| 0 <= p < s1.pending_pages().len() implies #[trigger] s1.pending_pages()[p] == (
                s1.pending_pages()[p] && !read_failed(a0.take(0), p)) by {}
        }
        let mut loaded: Vec<(u32, T)> = Vec::new();
        std::mem::swap(&mut loaded, &mut self.ready);
        let ghost ready0 = loaded@;
        while answers.len() > 0
            invariant
                answers@.len() <= count,
                count == a0.len(),
                forall|i: int| 0 <= i < answers@.len() ==> #[trigger] answers@[i] == a0[count - 1 - i],
                loaded@ == ready0 + arrived_bytes(a0.take(count - answers@.len())),
                failed_abandoned(s1, self.residency, a0.take(count - answers@.len())),
                self.residency.wf(),
                self.residency.page_count() == n,
                forall|k: int| 0 <= k < loaded@.len() ==> #[trigger] loaded@[k].0 < n,
                forall|k: int| 0 <= k < answers@.len() ==> #[trigger] answers@[k].0 < n,
                answers@.len() <= count,
                count <= old(self).in_flight,
                self.stats.pool_pages == self.config.pool_pages,
                self.config == old(self).config,
                self.in_flight == old(self).in_flight,
            decreases answers@.len(),
        {
            let ghost t = count - answers@.len();
            let ghost cur = self.residency;
            let ghost loaded_before = loaded@;
            let (page, result) = answers.pop().unwrap();
            proof {
                assert(a0[t] == (page, result));
                lemma_arrived_bytes_step(a0, t);
                assert forall|p: int| true implies read_failed(a0.take(t + 1), p) == (read_failed(a0.take(t), p) || (a0[t].0 == p
                    && a0[t].1 is None)) by {
                    lemma_read_failed_step(a0, t, p);
                }
            }
            match result {
                Some(bytes) => {
                    loaded.push((page, bytes));
                    proof {
                        assert(loaded@ =~= ready0 + arrived_bytes(a0.take(t + 1)));
                        assert forall|p: int| 0 <= p < s1.pending_pages().len() implies #[trigger] self.residency.pending_pages()[p] == (
                            s1.pending_pages()[p] && !read_failed(a0.take(t + 1), p)) by {
                            lemma_read_failed_step(a0, t, p);
                        }
                    }
                },
                None => {
                    proof {
                        self.residency.lemma_counts();
                    }
                    self.residency.abandon(page);
                    proof {
                        self.residency.lemma_counts();
                        cur.lemma_lengths();
                        assert(self.residency.pending_pages() == cur.pending_pages().update(page as int, false));
                        assert(loaded@ =~= ready0 + arrived_bytes(a0.take(t + 1)));
                        assert forall|p: int| 0 <= p < s1.pending_pages().len() implies #[trigger] self.residency.pending_pages()[p] == (
                            s1.pending_pages()[p] && !read_failed(a0.take(t + 1), p)) by {
                            lemma_read_failed_step(a0, t, p);
                            if p != page as int {
                                assert(self.residency.pending_pages()[p] == cur.pending_pages()[p]);
                            }
                        }
                    }
                },
            }
        }
        self.in_flight = self.in_flight - count as u32;
        let ghost loaded_all = loaded@;
        let ghost s2 = self.residency;
        proof {
            assert(a0.take(count as int) =~= a0);
        }
        let (placement, later) = self.residency.place(loaded, self.config.upload_pages);
        let ghost s3 = self.residency;
        self.ready = later;
        let mut pairs: Vec<(u32, u32)> = Vec::new();
        let mut i: usize = 0;
        while i < placement.placed.len()
            invariant
                i <= placement.placed@.len(),
                pairs@.len() == i,
                forall|k: int| 0 <= k < i ==> #[trigger] pairs@[k] == (placement.placed@[k].0, placement.placed@[k].1),
            decreases placement.placed@.len() - i,
        {
            pairs.push((placement.placed[i].0, placement.placed[i].1));
            i = i + 1;
        }
        let (plan, table_values) = UploadPlan::for_frame(&pairs, &placement.evicted, self.config.upload_pages);
        let room: u32 = if self.config.reads_in_flight >= self.in_flight {
            self.config.reads_in_flight - self.in_flight
        } else {
            0
        };
        proof {
            self.residency.lemma_counts();
        }
        let requests = self.residency.requests(room as usize);
        let ghost s4 = self.residency;
        proof {
            self.residency.lemma_counts();
            assert forall|i: int| 0 <= i < placement.placed@.len() implies #[trigger] table_values@[i]
                == placement.placed@[i].1 by {
                assert(plan.table@[i].1 == pairs@[i].0 * 4 && table_values@[i] == pairs@[i].1);
            }
            assert forall|i: int| 0 <= i < placement.placed@.len() implies #[trigger] plan.pages@[i] == (
                (i * PAGE_SIZE) as u64,
                (placement.placed@[i].1 * PAGE_SIZE) as u64,
                PAGE_SIZE as u64,
            ) && plan.table@[i].1 == placement.placed@[i].0 * 4 by {
                assert(pairs@[i] == (placement.placed@[i].0, placement.placed@[i].1));
            }
            assert forall|k: int| 0 <= k < self.ready@.len() implies #[trigger] self.ready@[k].0 < n by {
                assert(loaded_all.contains(self.ready@[k]));
            }
        }
        self.in_flight = self.in_flight + requests.len() as u32;
        let resident = self.residency.resident_count();
        self.stats = StreamingStats {
            pool_pages: self.config.pool_pages,
            resident,
            wanted,
            requested: requests.len() as u32,
            reading: self.in_flight,
            uploaded: placement.placed.len() as u32,
            evicted: placement.evicted.len() as u32,
        };
        let work = FrameWork { placement, plan, table_values, requests };
        proof {
            assert(self.residency == s4);
            assert(self.ready@ == later@);
            assert(ready0 == old(self).ready@);
            assert(needs_outcome(old(self).residency, s1, frame, need_bits@, self.stats.wanted));
            assert(failed_abandoned(s1, s2, a0));
            assert(place_outcome(s2, s3, old(self).waiting() + arrived_bytes(a0), old(self).budgets().upload_pages, work.placement, self.waiting()));
            assert(requests_outcome(s3, s4, room as int, work.requests@));
        }
        work
    }

    /// A read the I/O thread would not take: `page` is no longer requested, nor in flight.
    pub fn send_failed(&mut self, page: u32)
        requires
            old(self).wf(),
            page < old(self).resident_set().page_count(),
            old(self).reads() > 0,
            old(self).counters().requested > 0,
        ensures
            final(self).wf(),
            final(self).reads() == old(self).reads() - 1,
            final(self).counters() == (StreamingStats {
                requested: (old(self).counters().requested - 1) as u32,
                reading: (old(self).counters().reading - 1) as u32,
                ..old(self).counters()
            }),
            final(self).resident_set().pending_pages() == old(self).resident_set().pending_pages().update(
                page as int,
                false,
            ),
            final(self).resident_set().slots() == old(self).resident_set().slots(),
    {
        proof {
            old(self).residency.lemma_counts();
        }
        self.residency.abandon(page);
        proof {
            self.residency.lemma_counts();
        }
        self.in_flight = self.in_flight - 1;
        self.stats.requested = self.stats.requested - 1;
        self.stats.reading = self.in_flight;
    }
}

} // verus!
