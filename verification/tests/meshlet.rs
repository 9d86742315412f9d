use lib::meshlet::{
    cull_plan, frame_flags, software_raster, CullPlan, FLAG_PREV_PYRAMID, FLAG_STREAMING,
    FLAG_SW_RASTER, PASS_PREVIOUSLY_VISIBLE, PASS_REMAINDER, PASS_SINGLE,
    cull_groups_for, grown_capacity, software_worth_it, vis64_bytes, CullFlags, FrameStats,
    GeometryPath, ListSizing, MeshId, SwRaster, SW_RASTER_AUTO_OFF, SW_RASTER_AUTO_ON,
    VISIBLE_INITIAL_CAPACITY, VISIBLE_MAX_CAPACITY, WORK_INITIAL_CAPACITY, WORK_MAX_CAPACITY,
    WORK_RESERVE_MAX,
};

#[test]
fn a_full_work_list_says_so_too() {
    let capped = FrameStats {
        visible_overflow: 1_500,
        work_overflow: 20_000,
        ..FrameStats::default()
    };
    assert_eq!(
        capped.overflow_note(),
        ", 2 k dropped (visible list full), 20 k work items or roots dropped (work list full)"
    );
}

#[test]
fn a_capped_frame_says_how_much_it_dropped() {
    assert_eq!(FrameStats::default().overflow_note(), "");
    let capped = FrameStats {
        visible_overflow: 92_400,
        ..FrameStats::default()
    };
    assert_eq!(capped.overflow_note(), ", 92 k dropped (visible list full)");
}

#[test]
fn the_note_rounds_thousands_half_to_even() {
    let tie = FrameStats {
        visible_overflow: 2_500,
        ..FrameStats::default()
    };
    assert_eq!(tie.overflow_note(), ", 2 k dropped (visible list full)");
    let few = FrameStats {
        work_overflow: 499,
        ..FrameStats::default()
    };
    assert_eq!(
        few.overflow_note(),
        ", 0 k work items or roots dropped (work list full)"
    );
    let over = FrameStats {
        visible_overflow: 3_501,
        ..FrameStats::default()
    };
    assert_eq!(over.overflow_note(), ", 4 k dropped (visible list full)");
}

#[test]
fn the_list_grows_past_the_demand_and_never_shrinks() {
    let max = VISIBLE_MAX_CAPACITY;
    // Fits: unchanged, including a later frame that wants less.
    assert_eq!(grown_capacity(1 << 16, 15_000, max), 1 << 16);
    assert_eq!(grown_capacity(1 << 21, 10, max), 1 << 21);
    assert_eq!(grown_capacity(1 << 16, 1 << 16, max), 1 << 16);
    // Dropped: the power of two above 1.5 × the demand (1.14 M wanted → 2 M slots).
    assert_eq!(grown_capacity(1 << 16, 1_140_000, max), 1 << 21);
    assert_eq!(grown_capacity(1 << 16, (1 << 16) + 1, max), 1 << 17);
    // Capped by the id's slot bits, or by a lower fallback limit.
    assert_eq!(grown_capacity(1 << 16, 40_000_000, max), max);
    assert_eq!(grown_capacity(1 << 16, 1_000_000, 500_000), 500_000);
}

#[test]
fn a_cap_below_the_current_size_keeps_the_size() {
    assert_eq!(grown_capacity(1 << 20, 1 << 21, 1 << 18), 1 << 20);
    assert_eq!(grown_capacity(0, 1, 100), 2);
    assert_eq!(grown_capacity(0, 3, 100), 8);
    assert_eq!(grown_capacity(2, 3, 100), 8);
}

#[test]
fn every_list_slot_fits_the_visibility_id() {
    // The id keeps 7 bits for the triangle (124 per cluster): the slot has the other 25.
    assert!(u64::from(VISIBLE_MAX_CAPACITY) <= 1 << (32 - 7));
    assert!(VISIBLE_INITIAL_CAPACITY <= VISIBLE_MAX_CAPACITY);
}

#[test]
fn the_software_raster_modes_parse_and_cycle() {
    for mode in SwRaster::ALL {
        assert_eq!(mode.name().parse::<SwRaster>(), Ok(mode));
        assert_eq!(mode.name().to_uppercase().parse::<SwRaster>(), Ok(mode));
    }
    assert!("sometimes".parse::<SwRaster>().is_err());
    assert_eq!(SwRaster::default(), SwRaster::Auto);
    let mut mode = SwRaster::Off;
    for _ in 0..SwRaster::ALL.len() {
        mode = mode.next();
    }
    assert_eq!(mode, SwRaster::Off, "R comes back to where it started");
}

#[test]
fn an_unknown_mode_names_the_known_ones() {
    assert_eq!(
        "sometimes".parse::<SwRaster>(),
        Err("unknown software raster mode \"sometimes\": off, auto or on".to_string())
    );
    assert_eq!(SwRaster::from_name("AuTo"), Some(SwRaster::Auto));
    assert_eq!(SwRaster::from_name("of"), None);
}

#[test]
fn auto_mode_switches_with_a_gap_between_its_thresholds() {
    const _: () = assert!(SW_RASTER_AUTO_OFF < SW_RASTER_AUTO_ON);
    let between = (SW_RASTER_AUTO_OFF + SW_RASTER_AUTO_ON) / 2;
    assert!(!software_worth_it(false, between), "stays off between");
    assert!(
        software_worth_it(false, SW_RASTER_AUTO_ON),
        "turns on at the upper one"
    );
    assert!(software_worth_it(true, between), "stays on between");
    assert!(
        !software_worth_it(true, SW_RASTER_AUTO_OFF - 1),
        "turns off below the lower one"
    );
}

#[test]
fn the_software_samples_take_eight_bytes_a_pixel() {
    assert_eq!(vis64_bytes(1600, 900), 1600 * 900 * 8);
    assert_eq!(vis64_bytes(0, 0), 8);
}

#[test]
fn flags_toggle_back_and_forth() {
    let mut flags = CullFlags::default();
    assert!(flags.has(CullFlags::CONE) && flags.has(CullFlags::FRUSTUM));
    assert!(flags.has(CullFlags::OCCLUSION) && flags.has(CullFlags::LOD));
    assert!(!flags.has(CullFlags::FREEZE));
    flags.toggle(CullFlags::FREEZE);
    assert!(flags.has(CullFlags::FREEZE));
    flags.toggle(CullFlags::FREEZE);
    assert_eq!(flags, CullFlags::default());
}

#[test]
fn names_for_the_overlay() {
    assert_eq!(GeometryPath::MeshShader.name(), "mesh shaders");
    assert_eq!(GeometryPath::IndirectCount.name(), "indirect-count fallback");
    assert_eq!(MeshId::from_index(7).index(), 7);
}

#[test]
fn the_frame_counters_come_in_shader_order() {
    let raw: [u32; 13] = [1, 2, 3, 4, 5, 6, 7, 8, 9, 10, 11, 12, 13];
    let s = FrameStats::from_counters(&raw);
    assert_eq!((s.meshlets_pass1, s.meshlets_pass2, s.triangles), (1, 2, 3));
    assert_eq!((s.visible_overflow, s.dense_triangles), (7, 10));
    assert_eq!((s.work_items, s.work_overflow, s.root_entries), (11, 12, 13));
}

#[test]
fn the_lists_grow_from_what_the_frames_dropped() {
    let mut sizing = ListSizing::new(u32::MAX);
    assert_eq!(sizing.visible_max, VISIBLE_MAX_CAPACITY);
    assert_eq!(sizing.visible_target, VISIBLE_INITIAL_CAPACITY);
    assert_eq!(sizing.work_target, WORK_INITIAL_CAPACITY);
    // A scene whose bound is small is reserved up front; a frame before the counters come.
    sizing.after_frame(50_000, None);
    assert_eq!(sizing.work_target, 50_000);
    assert!(!sizing.software_wanted(SwRaster::Auto) && sizing.software_wanted(SwRaster::On));
    // A frame that listed 100 k clusters and dropped 40 k, with many dense triangles.
    let stats = FrameStats {
        meshlets_pass1: 60_000,
        meshlets_pass2: 40_000,
        visible_overflow: 40_000,
        work_items: 70_000,
        root_entries: 10,
        dense_triangles: SW_RASTER_AUTO_ON,
        ..FrameStats::default()
    };
    sizing.after_frame(50_000, Some(stats));
    assert_eq!(sizing.visible_target, 1 << 18);
    assert_eq!(sizing.work_target, 1 << 17);
    assert!(sizing.software_wanted(SwRaster::Auto));
    // A huge bound is reserved only up to its cap; reservations never shrink.
    sizing.after_frame(u64::MAX, None);
    assert_eq!(sizing.work_target, WORK_RESERVE_MAX);
    sizing.reserve_visible(10);
    assert_eq!(sizing.visible_target, 1 << 18);
    sizing.reserve_visible(u64::MAX);
    assert_eq!(sizing.visible_target, VISIBLE_MAX_CAPACITY);
    assert!(sizing.work_target <= WORK_MAX_CAPACITY);
    // A device that draws fewer clusters caps the list lower.
    let small = ListSizing::new(1000);
    assert_eq!((small.visible_max, small.visible_target), (1000, 1000));
}

#[test]
fn the_culls_take_the_items_and_the_roots() {
    // 16 384 items and as many roots at 32 to an item: 16 896 items, 2 112 groups of 8.
    assert_eq!(cull_groups_for(16_384), 2_112);
    assert_eq!(cull_groups_for(1), 1);
    assert_eq!(cull_groups_for(0), 0);
}

#[test]
fn the_depth_pyramid_rounds_down_to_powers_of_two() {
    assert_eq!(lib::meshlet::pyramid_extent(1920, 1080), (1024, 1024, 11));
    assert_eq!(lib::meshlet::pyramid_extent(4096, 100), (4096, 64, 13));
    assert_eq!(lib::meshlet::pyramid_extent(1, 1), (1, 1, 1));
    assert_eq!(lib::meshlet::pyramid_extent(0, 0), (1, 1, 1));
    assert_eq!(lib::meshlet::pyramid_extent(u32::MAX, 3), (1 << 31, 2, 32));
}

#[test]
fn a_device_takes_mesh_shaders_else_the_fallback_with_8_bit_indices() {
    assert_eq!(GeometryPath::for_device(true, false), Some(GeometryPath::MeshShader));
    assert_eq!(GeometryPath::for_device(false, true), Some(GeometryPath::IndirectCount));
    assert_eq!(GeometryPath::for_device(false, false), None);
    assert_eq!(GeometryPath::MeshShader.visible_max(Some(1 << 22), 0), 1 << 22);
    assert_eq!(GeometryPath::MeshShader.visible_max(None, 0), VISIBLE_MAX_CAPACITY);
    assert_eq!(GeometryPath::IndirectCount.visible_max(Some(5), u32::MAX), VISIBLE_MAX_CAPACITY);
    assert_eq!(GeometryPath::IndirectCount.visible_max(None, 1000), 1000);
}

#[test]
fn software_raster_needs_the_mode_the_pipeline_and_a_live_camera() {
    let live = CullFlags::DEFAULT_BITS;
    assert!(software_raster(SwRaster::On, false, true, live, false));
    assert!(software_raster(SwRaster::Auto, true, true, live, false));
    assert!(!software_raster(SwRaster::Auto, false, true, live, false));
    assert!(!software_raster(SwRaster::Off, true, true, live, false));
    assert!(!software_raster(SwRaster::On, false, false, live, false));
    assert!(!software_raster(SwRaster::On, false, true, live | CullFlags::FREEZE, false));
    assert!(!software_raster(SwRaster::On, false, true, live, true));
}

#[test]
fn the_frame_flags_set_the_pass_bits_and_keep_the_rest() {
    let flags = CullFlags::DEFAULT_BITS | FLAG_SW_RASTER | FLAG_STREAMING;
    assert_eq!(
        frame_flags(flags, PASS_PREVIOUSLY_VISIBLE, true, true, false),
        CullFlags::DEFAULT_BITS | FLAG_SW_RASTER | FLAG_PREV_PYRAMID
    );
    assert_eq!(frame_flags(flags, PASS_REMAINDER, true, false, true), CullFlags::DEFAULT_BITS | FLAG_STREAMING);
    assert_eq!(frame_flags(0, PASS_SINGLE, true, false, false), FLAG_SW_RASTER);
}

#[test]
fn occlusion_tests_the_last_pyramid_and_builds_the_other() {
    let occ = CullFlags::OCCLUSION;
    assert_eq!(
        cull_plan(occ, Some(0)),
        CullPlan { first_pass: PASS_PREVIOUSLY_VISIBLE, prev_pyramid: Some(0), build: true, pyramid: 1 }
    );
    assert_eq!(
        cull_plan(occ | CullFlags::FREEZE, Some(1)),
        CullPlan { first_pass: PASS_PREVIOUSLY_VISIBLE, prev_pyramid: Some(1), build: false, pyramid: 1 }
    );
    assert_eq!(
        cull_plan(occ | CullFlags::FREEZE, None),
        CullPlan { first_pass: PASS_PREVIOUSLY_VISIBLE, prev_pyramid: None, build: true, pyramid: 0 }
    );
    assert_eq!(
        cull_plan(0, Some(1)),
        CullPlan { first_pass: PASS_SINGLE, prev_pyramid: None, build: false, pyramid: 0 }
    );
}
