use lib::scene::{
    first_short_instance, highest_section, level_offsets, lookback_bytes, max_meshlets, pinned_page_table, pool_fits,
    rebase_pages, root_pages, shortcut_roots, work_bound, SceneCounts,
};
use lib::streaming::PAGE_NONE;

#[test]
fn the_work_bound_is_the_groups_or_the_roots() {
    assert_eq!(work_bound(0, 0), 0);
    assert_eq!(work_bound(1, 0), 1);
    assert_eq!(work_bound(32, 0), 1);
    assert_eq!(work_bound(33, 0), 2);
    assert_eq!(work_bound(64, 3), 3);
    assert_eq!(work_bound(100, 4), 4);
    assert_eq!(work_bound(200, 4), 7);
}

#[test]
fn pages_move_by_the_mesh_base_and_none_stays_none() {
    assert_eq!(rebase_pages(3, 5, 10), (13, 15));
    assert_eq!(rebase_pages(0, PAGE_NONE, 7), (7, PAGE_NONE));
    assert_eq!(root_pages(10, 3), vec![10, 11, 12]);
    assert_eq!(root_pages(4, 0), Vec::<u32>::new());
}

#[test]
fn levels_start_where_the_levels_before_end() {
    assert_eq!(level_offsets(&[8, 4, 2, 1], 6), vec![0, 8, 12, 14, 15, 0, 0]);
    // More levels than the table takes: the first ones count.
    assert_eq!(level_offsets(&[8, 4, 2, 1], 2), vec![0, 8, 12]);
    assert_eq!(level_offsets(&[], 3), vec![0, 0, 0, 0]);
}

#[test]
fn up_to_four_roots_take_the_shortcut() {
    let (roots, count) = shortcut_roots(&[false, true, false, true, true]);
    assert_eq!(roots, [1, 3, 4, 0]);
    assert_eq!(count, 3);
    let (roots, count) = shortcut_roots(&[true, true, true, true]);
    assert_eq!(roots, [0, 1, 2, 3]);
    assert_eq!(count, 4);
    // Five roots: the first four are written, the count says none.
    let (roots, count) = shortcut_roots(&[true, false, true, true, true, true]);
    assert_eq!(roots, [0, 2, 3, 4]);
    assert_eq!(count, 0);
    assert_eq!(shortcut_roots(&[]), ([0, 0, 0, 0], 0));
}

#[test]
fn the_highest_section_reads_both_bytes() {
    assert_eq!(highest_section(&[]), 0);
    assert_eq!(highest_section(&[0x0102, 0x0003]), 3);
    assert_eq!(highest_section(&[0x0500, 0x0102]), 5);
    // Bits above the two bytes do not count.
    assert_eq!(highest_section(&[0x0901_0001]), 1);
}

#[test]
fn instances_add_their_meshes_counts() {
    let mut counts = SceneCounts::new();
    counts.add_instances(100, 10, 4, 40, 1);
    counts.add_instances(7, 1, 1, 2, 3);
    assert_eq!(
        counts,
        SceneCounts { total_triangles: 121, finest_clusters: 13, work_bound: 7, instance_meshlets: 46 }
    );
    counts.add_instances(u32::MAX, 0, 0, 0, u32::MAX);
    assert_eq!(counts.total_triangles, 121 + u64::from(u32::MAX) * u64::from(u32::MAX));
}

#[test]
fn the_pinned_pages_take_the_first_slots() {
    assert_eq!(pinned_page_table(5, &[3, 0]), vec![1, PAGE_NONE, PAGE_NONE, 0, PAGE_NONE]);
    assert_eq!(pinned_page_table(0, &[]), vec![PAGE_NONE]);
    // A page pinned twice keeps its last slot.
    assert_eq!(pinned_page_table(2, &[1, 1]), vec![PAGE_NONE, 1]);
}

#[test]
fn a_pool_must_hold_more_than_the_roots_and_under_four_gib() {
    assert!(pool_fits(10, 9));
    assert!(!pool_fits(10, 10));
    assert!(pool_fits(32767, 0));
    assert!(!pool_fits(32768, 0));
}

#[test]
fn the_first_instance_past_the_table_is_found() {
    let sections = [0, 2];
    assert_eq!(first_short_instance(&[0, 1, 3], &[0, 1, 0], &sections, 4), None);
    assert_eq!(first_short_instance(&[0, 2, 3], &[0, 1, 1], &sections, 4), Some(1));
    assert_eq!(first_short_instance(&[], &[], &sections, 0), None);
}

#[test]
fn the_largest_mesh_and_the_lookback_size() {
    assert_eq!(max_meshlets(&[]), 0);
    assert_eq!(max_meshlets(&[3, 9, 2]), 9);
    assert_eq!(lookback_bytes(0), 8);
    assert_eq!(lookback_bytes(64), 8);
    assert_eq!(lookback_bytes(65), 16);
}

#[test]
fn an_all_resident_pool_stays_under_four_gib() {
    assert!(lib::scene::all_resident_fits(0));
    assert!(lib::scene::all_resident_fits(32767));
    assert!(!lib::scene::all_resident_fits(32768));
}
