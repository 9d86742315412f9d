//! Cluster-page streaming: which page sits in which slot of a pool smaller than the scene,
//! and the rules that keep the resident set closed upwards.
//!
//! A page loads only when every page holding a parent of its clusters is resident, and only
//! pages with no resident children leave, so the LOD cut never refines a cluster into a page
//! that is missing. Every frame the needs the culls wrote are taken ([`ResidentSet::set_needs`]),
//! a wanted page lending its need to all its ancestors; the pages read since the last frame
//! are placed, the neediest first, into a free slot or the slot of the least needed leaf
//! ([`ResidentSet::place`]); and absent wanted pages whose parents are all resident are
//! requested, the neediest first ([`ResidentSet::requests`]). The roots' pages are pinned in
//! the first slots and never leave.

use vstd::prelude::*;

use crate::text::{decimal, one_decimal, push_decimal, push_one_decimal, push_text, round_half_even, string_of};

verus! {

/// Bytes of a cluster page (128 KiB).
pub const PAGE_SIZE: usize = 131072;

/// "No page" in the page table and "no slot" for an absent page.
pub const PAGE_NONE: u32 = 0xFFFF_FFFF;

/// The pages (128 KiB each) that `mib` MiB hold, at least one, as the budgets count them.
pub open spec fn pages_of_mib(mib: u32) -> u32 {
    if mib == 0 {
        1
    } else {
        ((mib as nat * 8) % 0x1_0000_0000) as u32
    }
}

/// How a scene's cluster pages are made resident.
#[derive(Clone, Copy, Debug, PartialEq)]
pub enum Residency {
    /// Every page, uploaded once when the scene is built.
    All,
    /// A pool of page slots filled on demand.
    Streamed(StreamingConfig),
}

/// The budgets of a streamed scene.
#[derive(Clone, Copy, Debug, PartialEq)]
pub struct StreamingConfig {
    /// Page slots on the GPU, the roots' pages included (128 KiB each).
    pub pool_pages: u32,
    /// Pages uploaded per frame at most.
    pub upload_pages: u32,
    /// Page reads queued on the I/O thread at most.
    pub reads_in_flight: u32,
}

impl StreamingConfig {
    /// A pool of `pool_mib` MiB and an upload budget of `upload_mib` MiB per frame; four
    /// reads in flight per page of upload budget.
    pub fn from_mib(pool_mib: u32, upload_mib: u32) -> (config: Self)
        requires
            pages_of_mib(upload_mib) * 4 <= u32::MAX,
        ensures
            config.pool_pages == pages_of_mib(pool_mib),
            config.upload_pages == pages_of_mib(upload_mib),
            config.reads_in_flight == pages_of_mib(upload_mib) * 4,
    {
        let pool_pages = Self::pages(pool_mib);
        let upload_pages = Self::pages(upload_mib);
        StreamingConfig { pool_pages, upload_pages, reads_in_flight: upload_pages * 4 }
    }

    fn pages(mib: u32) -> (pages: u32)
        ensures
            pages == pages_of_mib(mib),
    {
        let bytes: u64 = (mib as u64) << 20u64;
        assert(bytes == mib as nat * 1048576) by (bit_vector)
            requires
                bytes == (mib as u64) << 20u64,
        ;
        let count: u64 = bytes / (PAGE_SIZE as u64);
        assert(count == mib as nat * 8) by (nonlinear_arith)
            requires
                bytes == mib as nat * 1048576,
                count == bytes / 131072,
        ;
        let count: u64 = if count < 1 {
            1
        } else {
            count
        };
        (count % 0x1_0000_0000u64) as u32
    }
}

/// What a streamed scene did in one frame, for the overlay and the logs.
#[derive(Clone, Copy, Debug, Default, PartialEq)]
pub struct StreamingStats {
    /// Page slots in the pool.
    pub pool_pages: u32,
    /// Slots holding a page.
    pub resident: u32,
    /// Pages the frame's cut wanted that are not resident.
    pub wanted: u32,
    /// Reads sent to the I/O thread this frame.
    pub requested: u32,
    /// Reads not finished.
    pub reading: u32,
    /// Pages uploaded this frame.
    pub uploaded: u32,
    /// Pages evicted this frame to make room.
    pub evicted: u32,
}

impl StreamingStats {
    /// Bytes uploaded this frame.
    pub fn bytes_uploaded(&self) -> (bytes: u64)
        ensures
            bytes == self.uploaded as nat * PAGE_SIZE as nat,
    {
        (self.uploaded as u64) * (PAGE_SIZE as u64)
    }

    /// The counter line, MiB rounded as `{:.0}` and `{:.1}` round them (a page is an eighth of
    /// a MiB, so every amount is exact and a tie goes to the even digit).
    pub open spec fn spec_line(self) -> Seq<char> {
        "streaming: "@ + decimal(self.resident as nat) + " of "@ + decimal(self.pool_pages as nat)
            + " pages resident ("@ + decimal(round_half_even(self.resident as nat, 8)) + " of "@
            + decimal(round_half_even(self.pool_pages as nat, 8)) + " MiB), "@ + decimal(
            self.wanted as nat,
        ) + " wanted, "@ + decimal(self.requested as nat) + " requested, "@ + decimal(
            self.reading as nat,
        ) + " reading, "@ + decimal(self.uploaded as nat) + " uploaded ("@ + one_decimal(
            self.uploaded as nat,
            8,
        ) + " MiB), "@ + decimal(self.evicted as nat) + " evicted"@
    }

    /// One counter line: what is resident of the pool, in pages and MiB, and what the frame
    /// wanted, requested, read, uploaded and evicted.
    pub fn line(&self) -> (text: String)
        ensures
            text@ == self.spec_line(),
    {
        let mut out: Vec<char> = Vec::new();
        push_text(&mut out, "streaming: ");
        push_decimal(&mut out, self.resident as u64);
        push_text(&mut out, " of ");
        push_decimal(&mut out, self.pool_pages as u64);
        push_text(&mut out, " pages resident (");
        push_decimal(&mut out, crate::text::rounded(self.resident as u64, 8));
        push_text(&mut out, " of ");
        push_decimal(&mut out, crate::text::rounded(self.pool_pages as u64, 8));
        push_text(&mut out, " MiB), ");
        push_decimal(&mut out, self.wanted as u64);
        push_text(&mut out, " wanted, ");
        push_decimal(&mut out, self.requested as u64);
        push_text(&mut out, " requested, ");
        push_decimal(&mut out, self.reading as u64);
        push_text(&mut out, " reading, ");
        push_decimal(&mut out, self.uploaded as u64);
        push_text(&mut out, " uploaded (");
        push_one_decimal(&mut out, self.uploaded as u64, 8);
        push_text(&mut out, " MiB), ");
        push_decimal(&mut out, self.evicted as u64);
        push_text(&mut out, " evicted");
        assert(out@ =~= self.spec_line());
        string_of(out)
    }
}

/// The copies a frame's upload pass records: (staging offset, destination offset, bytes)
/// into the pool, then into the page table.
#[derive(Default)]
pub struct UploadPlan {
    /// Per placed page, its bytes from the staging buffer into its pool slot.
    pub pages: Vec<(u64, u64, u64)>,
    /// Per page-table entry written, its four bytes from the staging buffer into the table.
    pub table: Vec<(u64, u64, u64)>,
}

/// Bytes of a frame slot's staging buffer for `upload_pages`: the pages, then a page-table
/// entry per placement and per eviction.
pub open spec fn staging_bytes(upload_pages: u32) -> nat {
    upload_pages as nat * (PAGE_SIZE as nat + 8)
}

impl UploadPlan {
    /// The plan for a frame's placements `placed` (page, slot) and evictions `evicted`, with a
    /// budget of `upload_pages`: placed page `i` is staged at `i` pages and copied to its slot;
    /// then the table entries, placements first, four bytes each after the staged pages, set
    /// a placed page's entry to its slot and an evicted page's to `PAGE_NONE`. Returns the plan
    /// and the value of each table entry, in its order.
    #[verifier::spinoff_prover]
    pub fn for_frame(placed: &Vec<(u32, u32)>, evicted: &Vec<u32>, upload_pages: u32) -> (plan: (UploadPlan, Vec<u32>))
        requires
            evicted@.len() <= placed@.len() <= upload_pages,
        ensures
            plan.0.pages@.len() == placed@.len(),
            plan.0.table@.len() == placed@.len() + evicted@.len(),
            plan.1@.len() == plan.0.table@.len(),
            forall|i: int| 0 <= i < placed@.len() ==> #[trigger] plan.0.pages@[i] == (
                (i * PAGE_SIZE) as u64,
                (placed@[i].1 * PAGE_SIZE) as u64,
                PAGE_SIZE as u64,
            ),
            forall|i: int| 0 <= i < plan.0.table@.len() ==> #[trigger] plan.0.table@[i].0 == upload_pages
                * PAGE_SIZE + i * 4 && plan.0.table@[i].2 == 4,
            forall|i: int| 0 <= i < placed@.len() ==> #[trigger] plan.0.table@[i].1 == placed@[i].0 * 4
                && plan.1@[i] == placed@[i].1,
            forall|i: int| 0 <= i < evicted@.len() ==> #[trigger] plan.0.table@[placed@.len() + i].1
                == evicted@[i] * 4 && plan.1@[placed@.len() + i] == PAGE_NONE,
            forall|i: int| 0 <= i < plan.0.pages@.len() ==> #[trigger] plan.0.pages@[i].0 + plan.0.pages@[i].2
                <= staging_bytes(upload_pages),
            forall|i: int| 0 <= i < plan.0.table@.len() ==> #[trigger] plan.0.table@[i].0 + plan.0.table@[i].2
                <= staging_bytes(upload_pages),
    {
        let page_bytes: u64 = PAGE_SIZE as u64;
        let table_base: u64 = upload_pages as u64 * page_bytes;
        let mut plan = UploadPlan { pages: Vec::new(), table: Vec::new() };
        let mut values: Vec<u32> = Vec::new();
        let mut i: usize = 0;
        while i < placed.len()
            invariant
                i <= placed@.len() <= upload_pages,
                evicted@.len() <= placed@.len(),
                page_bytes == PAGE_SIZE,
                table_base == upload_pages * PAGE_SIZE,
                plan.pages@.len() == i,
                plan.table@.len() == i,
                values@.len() == i,
                forall|k: int| 0 <= k < i ==> #[trigger] plan.pages@[k] == (
                    (k * PAGE_SIZE) as u64,
                    (placed@[k].1 * PAGE_SIZE) as u64,
                    PAGE_SIZE as u64,
                ),
                forall|k: int| 0 <= k < i ==> #[trigger] plan.table@[k] == (
                    (upload_pages * PAGE_SIZE + k * 4) as u64,
                    (placed@[k].0 * 4) as u64,
                    4u64,
                ) && values@[k] == placed@[k].1,
            decreases placed@.len() - i,
        {
            let (page, slot) = placed[i];
            let at = i as u64;
            plan.pages.push((at * page_bytes, slot as u64 * page_bytes, page_bytes));
            plan.table.push((table_base + at * 4, page as u64 * 4, 4));
            values.push(slot);
            i = i + 1;
        }
        let mut j: usize = 0;
        while j < evicted.len()
            invariant
                j <= evicted@.len() <= placed@.len() <= upload_pages,
                table_base == upload_pages * PAGE_SIZE,
                plan.pages@.len() == placed@.len(),
                plan.table@.len() == placed@.len() + j,
                values@.len() == placed@.len() + j,
                forall|k: int| 0 <= k < placed@.len() ==> #[trigger] plan.pages@[k] == (
                    (k * PAGE_SIZE) as u64,
                    (placed@[k].1 * PAGE_SIZE) as u64,
                    PAGE_SIZE as u64,
                ),
                forall|k: int| 0 <= k < placed@.len() ==> #[trigger] plan.table@[k] == (
                    (upload_pages * PAGE_SIZE + k * 4) as u64,
                    (placed@[k].0 * 4) as u64,
                    4u64,
                ) && values@[k] == placed@[k].1,
                forall|k: int| 0 <= k < j ==> #[trigger] plan.table@[placed@.len() + k] == (
                    (upload_pages * PAGE_SIZE + (placed@.len() + k) * 4) as u64,
                    (evicted@[k] * 4) as u64,
                    4u64,
                ) && values@[placed@.len() + k] == PAGE_NONE,
            decreases evicted@.len() - j,
        {
            let at = placed.len() as u64 + j as u64;
            let ghost before = plan.table@;
            let ghost before_values = values@;
            plan.table.push((table_base + at * 4, evicted[j] as u64 * 4, 4));
            values.push(PAGE_NONE);
            j = j + 1;
            proof {
                assert forall|k: int| 0 <= k < placed@.len() implies #[trigger] plan.table@[k] == before[k]
                    && values@[k] == before_values[k] by {}
                assert forall|k: int| 0 <= k < j implies #[trigger] plan.table@[placed@.len() + k] == (
                    (upload_pages * PAGE_SIZE + (placed@.len() + k) * 4) as u64,
                    (evicted@[k] * 4) as u64,
                    4u64,
                ) && values@[placed@.len() + k] == PAGE_NONE by {
                    if k < j - 1 {
                        assert(plan.table@[placed@.len() + k] == before[placed@.len() + k]);
                    }
                }
            }
        }
        proof {
            let up = upload_pages as int;
            assert(staging_bytes(upload_pages) == up * PAGE_SIZE + up * 8) by (nonlinear_arith)
                requires
                    staging_bytes(upload_pages) == up * (PAGE_SIZE as nat + 8),
            ;
            assert forall|i: int| 0 <= i < plan.pages@.len() implies #[trigger] plan.pages@[i].0 + plan.pages@[i].2
                <= staging_bytes(upload_pages) by {
                assert((i + 1) * PAGE_SIZE <= up * PAGE_SIZE) by (nonlinear_arith)
                    requires
                        0 <= i < up,
                ;
                assert(i * PAGE_SIZE + PAGE_SIZE == (i + 1) * PAGE_SIZE) by (nonlinear_arith);
            }
            assert forall|i: int| 0 <= i < plan.table@.len() implies #[trigger] plan.table@[i].0 == upload_pages
                * PAGE_SIZE + i * 4 && plan.table@[i].2 == 4 by {
                if i >= placed@.len() {
                    let k = i - placed@.len();
                    assert(plan.table@[placed@.len() + k].0 == upload_pages * PAGE_SIZE + (placed@.len() + k) * 4);
                }
            }
        }
        (plan, values)
    }
}

/// The need of a page whose float bits are zero: `+0.0`.
pub const NEED_ZERO: u32 = 0x8000_0000;

/// The need of `+inf`, the largest that is not a NaN.
pub const NEED_INF: u32 = 0xff80_0000;

/// The need of `-inf`, the smallest that is not a NaN.
pub const NEED_NEG_INF: u32 = 0x007f_ffff;

/// The need a page's float bits say, as the resident set keeps it: the bits rearranged so
/// that needs order as std's total order of floats (`total_cmp`) orders their floats,
/// negative NaNs first and positive NaNs last.
pub open spec fn need_of_bits(bits: u32) -> u32 {
    if bits & 0x8000_0000u32 != 0 {
        !bits
    } else {
        bits | 0x8000_0000u32
    }
}

/// [`need_of_bits`], computed.
pub fn need_from_bits(bits: u32) -> (need: u32)
    ensures
        need == need_of_bits(bits),
{
    if bits & 0x8000_0000u32 != 0 {
        !bits
    } else {
        bits | 0x8000_0000u32
    }
}

/// Whether need `k` is a NaN's.
pub open spec fn is_nan_need(k: u32) -> bool {
    k > NEED_INF || k < NEED_NEG_INF
}

/// Whether need `k` is a float above zero (a NaN is not): the page is wanted.
pub open spec fn is_wanted(k: u32) -> bool {
    NEED_ZERO < k && k <= NEED_INF
}

/// Need `k` as float comparisons see it: `-0.0` is `+0.0`.
pub open spec fn need_level(k: u32) -> u32 {
    if k == 0x7fff_ffff {
        NEED_ZERO
    } else {
        k
    }
}

/// Whether float need `a` is at least `b` (`a >= b`; false where either is a NaN).
pub open spec fn need_at_least(a: u32, b: u32) -> bool {
    !is_nan_need(a) && !is_nan_need(b) && need_level(a) >= need_level(b)
}

/// Whether float need `a` is below `b` (`a < b`; false where either is a NaN).
pub open spec fn need_below(a: u32, b: u32) -> bool {
    !is_nan_need(a) && !is_nan_need(b) && need_level(a) < need_level(b)
}

/// [`is_wanted`], computed.
pub fn wanted_need(k: u32) -> (r: bool)
    ensures
        r == is_wanted(k),
{
    NEED_ZERO < k && k <= NEED_INF
}

/// [`need_at_least`], computed.
pub fn at_least(a: u32, b: u32) -> (r: bool)
    ensures
        r == need_at_least(a, b),
{
    let nan_a = a > NEED_INF || a < NEED_NEG_INF;
    let nan_b = b > NEED_INF || b < NEED_NEG_INF;
    let la = if a == 0x7fff_ffff { NEED_ZERO } else { a };
    let lb = if b == 0x7fff_ffff { NEED_ZERO } else { b };
    !nan_a && !nan_b && la >= lb
}

} // verus!
