use lib::residency::ResidentSet;
use lib::streamer::StreamerCore;
use lib::streaming::{StreamingConfig, StreamingStats, UploadPlan, PAGE_NONE, PAGE_SIZE};

#[test]
fn budgets_come_in_whole_pages() {
    let config = StreamingConfig::from_mib(256, 4);
    assert_eq!(config.pool_pages, 2048);
    assert_eq!(config.upload_pages, 32);
    assert_eq!(StreamingConfig::from_mib(0, 0).pool_pages, 1);
}

#[test]
fn four_reads_fly_per_page_of_upload_budget() {
    let config = StreamingConfig::from_mib(1, 1);
    assert_eq!(config.pool_pages, 8);
    assert_eq!(config.upload_pages, 8);
    assert_eq!(config.reads_in_flight, 32);
}

#[test]
fn the_line_says_what_moved() {
    let stats = StreamingStats {
        pool_pages: 2048,
        resident: 1024,
        wanted: 30,
        requested: 12,
        reading: 20,
        uploaded: 8,
        evicted: 2,
    };
    assert_eq!(
        stats.line(),
        "streaming: 1024 of 2048 pages resident (128 of 256 MiB), 30 wanted, 12 requested, 20 reading, 8 uploaded (1.0 MiB), 2 evicted"
    );
    assert_eq!(stats.bytes_uploaded(), 8 * 128 * 1024);
}

#[test]
fn the_line_rounds_its_mebibytes_half_to_even() {
    // 4 pages are half a MiB: a tie, to the even 0; 12 pages are 1.5 MiB, to 2; 2 pages are
    // 0.25 MiB, a tie between 0.2 and 0.3, to 0.2; 6 pages 0.75 MiB, to 0.8.
    let stats = StreamingStats {
        pool_pages: 12,
        resident: 4,
        wanted: 0,
        requested: 0,
        reading: 0,
        uploaded: 2,
        evicted: 0,
    };
    assert_eq!(
        stats.line(),
        "streaming: 4 of 12 pages resident (0 of 2 MiB), 0 wanted, 0 requested, 0 reading, 2 uploaded (0.2 MiB), 0 evicted"
    );
    let more = StreamingStats { uploaded: 6, ..stats };
    assert!(more.line().contains("6 uploaded (0.8 MiB)"));
    let one = StreamingStats { uploaded: 1, ..stats };
    assert!(one.line().contains("1 uploaded (0.1 MiB)"));
}

#[test]
fn the_plan_stages_pages_then_table_entries() {
    let placed = vec![(7_u32, 3_u32), (9, 5)];
    let evicted = vec![4_u32];
    let (plan, values) = UploadPlan::for_frame(&placed, &evicted, 4);
    let page = PAGE_SIZE as u64;
    assert_eq!(plan.pages, vec![(0, 3 * page, page), (page, 5 * page, page)]);
    assert_eq!(
        plan.table,
        vec![(4 * page, 28, 4), (4 * page + 4, 36, 4), (4 * page + 8, 16, 4)]
    );
    assert_eq!(values, vec![3, 5, PAGE_NONE]);
    // Everything stays inside the staging buffer of a 4-page budget.
    let staging = 4 * (page + 8);
    assert!(plan.table.iter().all(|&(src, _, n)| src + n <= staging));
}

/// Pages 0 (the root, pinned) → 1, 2 → 3 (needs 1 and 2) → 4; and 5 under 2.
fn small(pool: u32) -> ResidentSet {
    let parents = vec![vec![], vec![0], vec![0], vec![1, 2], vec![3], vec![2]];
    ResidentSet::new(6, pool, parents, &[0])
}

fn needs(values: &[(usize, f32)]) -> Vec<u32> {
    let mut all = vec![0.0_f32; 6];
    for &(p, v) in values {
        all[p] = v;
    }
    all.into_iter().map(f32::to_bits).collect()
}

/// Requests, reads everything asked for and places it; returns what was placed.
fn round(r: &mut ResidentSet, frame: u64, wanted: &[(usize, f32)]) -> Vec<u32> {
    r.set_needs(frame, &needs(wanted));
    let read: Vec<(u32, ())> = r.requests(8).into_iter().map(|p| (p, ())).collect();
    let (placement, later) = r.place(read, 8);
    assert!(later.is_empty());
    placement.placed.iter().map(|&(p, _, ())| p).collect()
}

#[test]
fn a_page_comes_after_all_its_parents_even_unwanted_ones() {
    let mut r = small(8);
    // Page 3 is wanted; page 2 is not wanted for itself but holds parents of 3.
    assert_eq!(round(&mut r, 1, &[(3, 5.0), (1, 2.0)]), vec![1, 2]);
    assert_eq!(round(&mut r, 2, &[(3, 5.0), (1, 2.0)]), vec![3]);
    assert_eq!(r.resident_count(), 4);
}

#[test]
fn a_full_pool_gives_up_the_least_needed_leaf_only() {
    let mut r = small(4); // the root and three more
    round(&mut r, 1, &[(1, 3.0), (2, 3.0)]);
    round(&mut r, 2, &[(1, 3.0), (2, 3.0), (3, 2.0)]);
    assert_eq!(r.resident_count(), 4);
    // Page 5 is wanted more than 3: 3 is the only leaf that may go (1 and 2 have a
    // resident child, 0 is pinned).
    r.set_needs(3, &needs(&[(1, 3.0), (2, 3.0), (3, 1.0), (5, 4.0)]));
    let (placement, _) = r.place(vec![(5, ())], 8);
    assert_eq!(placement.evicted, vec![3]);
    assert_eq!(placement.placed.len(), 1);
    // A page needed less than everything evictable waits.
    r.set_needs(4, &needs(&[(1, 3.0), (2, 3.0), (5, 4.0), (3, 0.5)]));
    let (placement, _) = r.place(vec![(3, ())], 8);
    assert!(placement.placed.is_empty() && placement.evicted.is_empty());
}

#[test]
fn pages_over_the_budget_wait_for_the_next_frame() {
    let mut r = small(8);
    r.set_needs(1, &needs(&[(1, 2.0), (2, 3.0)]));
    let read: Vec<(u32, ())> = r.requests(8).into_iter().map(|p| (p, ())).collect();
    let (placement, later) = r.place(read, 1);
    assert_eq!(placement.placed.len(), 1);
    assert_eq!(placement.placed[0].0, 2, "the neediest first");
    assert_eq!(later.len(), 1);
    assert!(
        r.requests(8).is_empty(),
        "a page waiting to be placed is not read again"
    );
    let (placement, later) = r.place(later, 1);
    assert_eq!(placement.placed[0].0, 1);
    assert!(later.is_empty());
}

#[test]
fn a_wanted_page_lends_its_need_to_its_ancestors() {
    let mut r = small(8);
    // Page 4 is wanted and absent: its parent 3, and 3's parents 1 and 2, take its need and
    // only the pages whose parents are resident (1 and 2) may be asked for.
    let wanted = r.set_needs(1, &needs(&[(4, 6.0)]));
    assert_eq!(wanted, 1);
    let mut asked = r.requests(8);
    asked.sort_unstable();
    assert_eq!(asked, vec![1, 2]);
}

#[test]
fn an_abandoned_read_is_asked_for_again() {
    let mut r = small(8);
    r.set_needs(1, &needs(&[(1, 2.0)]));
    assert_eq!(r.requests(8), vec![1]);
    assert!(r.requests(8).is_empty());
    r.abandon(1);
    assert_eq!(r.requests(8), vec![1]);
}

#[test]
fn requests_take_the_neediest_up_to_the_room() {
    let mut r = small(8);
    r.set_needs(1, &needs(&[(1, 2.0), (2, 3.0)]));
    assert_eq!(r.requests(1), vec![2]);
    assert_eq!(r.requests(0), Vec::<u32>::new());
    assert_eq!(r.requests(1), vec![1]);
}

#[test]
fn a_page_without_its_parents_is_dropped_not_placed() {
    let mut r = small(8);
    r.set_needs(1, &needs(&[(3, 2.0)]));
    // Page 3 arrives although 1 and 2 are absent: it cannot stand.
    let (placement, later) = r.place(vec![(3, ())], 8);
    assert!(placement.placed.is_empty() && later.is_empty());
    assert!(!r.resident(3));
    assert!(r.resident(0) && !r.evictable(0), "the pinned root stays");
}

#[test]
fn a_page_depends_on_the_pages_of_its_clusters_parents() {
    // Page 0's clusters have children in 1, 2 and 5; page 1's and 2's in 3 (twice from 2);
    // page 3 refines within itself and has leaves.
    let links = [(0, 1), (0, 2), (1, 3), (2, 3), (2, 3), (3, 3), (3, PAGE_NONE), (0, 5)];
    let parents = ResidentSet::parents_of(6, &links);
    assert_eq!(
        parents,
        vec![vec![], vec![0], vec![0], vec![1, 2], vec![], vec![0]]
    );
    let unordered = ResidentSet::parents_of(2, &[(1, 0), (0, 1), (1, 0)]);
    assert_eq!(unordered, vec![vec![1], vec![0]]);
}

#[test]
fn a_frame_places_what_arrived_and_asks_for_more() {
    let config = StreamingConfig {
        pool_pages: 8,
        upload_pages: 1,
        reads_in_flight: 2,
    };
    let mut core: StreamerCore<Vec<u8>> = StreamerCore::new(config, small(8));
    // Frame 1: pages 1 (need 2) and 2 (need 3) are wanted; nothing has arrived yet.
    let work = core.begin_frame(1, &needs(&[(1, 2.0), (2, 3.0)]), Vec::new());
    assert_eq!(work.requests, vec![2, 1]);
    assert!(work.placement.placed.is_empty());
    let stats = core.stats();
    assert_eq!((stats.wanted, stats.requested, stats.reading), (2, 2, 2));
    // Frame 2: both arrive; one page of upload budget places the neediest, the other waits.
    let arrived = vec![(2, Some(vec![2_u8])), (1, Some(vec![1_u8]))];
    let work = core.begin_frame(2, &needs(&[(1, 2.0), (2, 3.0)]), arrived);
    assert_eq!(work.placement.placed.len(), 1);
    assert_eq!(work.placement.placed[0].0, 2);
    assert_eq!(work.placement.placed[0].2, vec![2_u8]);
    assert_eq!(work.plan.pages.len(), 1);
    assert_eq!(work.table_values, vec![work.placement.placed[0].1]);
    assert!(work.requests.is_empty());
    let stats = core.stats();
    assert_eq!((stats.uploaded, stats.reading, stats.resident), (1, 0, 2));
    // Frame 3: the waiting page goes in.
    let work = core.begin_frame(3, &needs(&[(1, 2.0), (2, 3.0)]), Vec::new());
    assert_eq!(work.placement.placed[0].0, 1);
    assert_eq!(core.stats().resident, 3);
}

#[test]
fn a_failed_read_is_asked_for_again() {
    let config = StreamingConfig::from_mib(1, 1);
    let mut core: StreamerCore<()> = StreamerCore::new(config, small(8));
    let work = core.begin_frame(1, &needs(&[(1, 2.0)]), Vec::new());
    assert_eq!(work.requests, vec![1]);
    let work = core.begin_frame(2, &needs(&[(1, 2.0)]), vec![(1, None)]);
    assert_eq!(work.requests, vec![1], "the failed read is requested again");
    core.send_failed(1);
    assert_eq!((core.stats().requested, core.stats().reading), (0, 0));
    let work = core.begin_frame(3, &needs(&[(1, 2.0)]), Vec::new());
    assert_eq!(work.requests, vec![1]);
}

#[test]
fn a_page_never_evicts_its_own_parents() {
    let mut r = small(3); // the root and two more
    let mut placed = round(&mut r, 1, &[(1, 2.0), (2, 2.0)]);
    placed.sort_unstable();
    assert_eq!(placed, vec![1, 2]);
    // Page 3 needs both 1 and 2, the only evictable pages: it waits, and nothing leaves.
    r.set_needs(2, &needs(&[(3, 5.0)]));
    let (placement, later) = r.place(vec![(3, ())], 8);
    assert!(placement.placed.is_empty() && placement.evicted.is_empty() && later.is_empty());
    assert_eq!(r.resident_count(), 3);
}

#[test]
fn a_page_needed_as_a_nan_takes_the_slot_of_any_evictable_page() {
    let mut r = small(4);
    round(&mut r, 1, &[(1, 3.0), (2, 3.0)]);
    round(&mut r, 2, &[(1, 3.0), (2, 3.0), (3, 2.0)]);
    // `5.0 >= NaN` fails, so page 3 gives way to page 5 as a float comparison says.
    r.set_needs(3, &needs(&[(1, 3.0), (2, 3.0), (3, 5.0), (5, f32::NAN)]));
    let (placement, _) = r.place(vec![(5, ())], 8);
    assert_eq!(placement.evicted, vec![3]);
    assert_eq!(placement.placed.len(), 1);
}
