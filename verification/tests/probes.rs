use lib::probes::{probe_count, probe_dispatches, ProbeDispatches};

#[test]
fn the_city_cascades_hold_their_probes() {
    assert_eq!(probe_count([24, 12, 24], 5), 34_560);
    assert_eq!(probe_count([24, 0, 24], 5), 0);
}

#[test]
fn the_probe_passes_spread_over_two_dimensions() {
    assert_eq!(
        probe_dispatches(34_560, 128),
        ProbeDispatches { trace: [2, 34_560, 1], state: 540, blend: [34_560, 1] }
    );
    assert_eq!(
        probe_dispatches(70_000, 130),
        ProbeDispatches { trace: [3, 65_535, 2], state: 1_094, blend: [65_535, 2] }
    );
}
