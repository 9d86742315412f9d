use lib::aces2::{cycle_corners, lut_texels};
use lib::atmosphere::lut_push;
use lib::erosion::StepTimings;
use lib::hydrology::Mouth;
use std::time::Duration;

#[test]
fn the_lowest_hue_comes_first_and_the_cycle_closes() {
    let temp = [10, 11, 12, 13, 14, 15];
    let mut out = [0; 8];
    cycle_corners(&temp, 2, &mut out);
    assert_eq!(out, [11, 12, 13, 14, 15, 10, 11, 12]);
    cycle_corners(&temp, 0, &mut out);
    assert_eq!(out, [15, 10, 11, 12, 13, 14, 15, 10]);
}

#[test]
fn the_table_pass_gets_its_sizes() {
    let push = lut_push(0xABCD, 3, 4, [256, 64]);
    assert_eq!((push.planet, push.output, push.transmittance), (0xABCD, 3, 4));
    assert_eq!((push.width, push.height), (256, 64));
}

#[test]
fn step_timings_add_up() {
    let mut total = StepTimings::default();
    let step = StepTimings {
        uplift: Duration::from_millis(1),
        drain: Duration::from_millis(2),
        incise: Duration::from_millis(3),
        diffuse: Duration::from_millis(4),
    };
    total += step;
    total += step;
    assert_eq!(total.drain, Duration::from_millis(4));
    assert_eq!(total.diffuse, Duration::from_millis(8));
    assert_ne!(Mouth::Outlet(3), Mouth::Junction { river: 0, point: 3 });
}

fn f32_to_f16(v: f32) -> u16 {
    lib::aces2::half_from_bits(v.to_bits())
}

#[test]
fn half_floats_round_to_nearest() {
    assert_eq!(f32_to_f16(0.0), 0);
    assert_eq!(f32_to_f16(1.0), 0x3c00);
    assert_eq!(f32_to_f16(-2.0), 0xc000);
    assert_eq!(f32_to_f16(0.5), 0x3800);
    assert_eq!(f32_to_f16(65504.0), 0x7bff);
    assert_eq!(f32_to_f16(1.0e6), 0x7c00);
    assert_eq!(
        f32_to_f16(1.0 + 1.0 / 2048.0),
        0x3c00,
        "a tie rounds to even"
    );
    assert_eq!(
        f32_to_f16(1.0 + 3.0 / 2048.0),
        0x3c02,
        "a tie rounds to even"
    );
    assert_eq!(f32_to_f16(6.0e-8), 0x0001, "the smallest subnormal");
}

#[test]
fn halves_keep_infinities_and_quiet_nans_and_carry_into_the_exponent() {
    assert_eq!(f32_to_f16(f32::INFINITY), 0x7c00);
    assert_eq!(f32_to_f16(f32::NEG_INFINITY), 0xfc00);
    assert_eq!(f32_to_f16(f32::NAN) & 0x7e00, 0x7e00);
    // Just under 2: the significand rounds up into the next binade.
    assert_eq!(f32_to_f16(2.0 - 1.0 / 4096.0), 0x4000);
    // 65520 is the tie between the largest half and infinity: to even, infinity.
    assert_eq!(f32_to_f16(65520.0), 0x7c00);
    assert_eq!(f32_to_f16(65519.0), 0x7bff);
    // Below half the smallest subnormal: zero, with its sign.
    assert_eq!(f32_to_f16(-1.0e-9), 0x8000);
    // The largest subnormal and the smallest normal.
    assert_eq!(f32_to_f16(6.097555e-5), 0x03ff);
    assert_eq!(f32_to_f16(6.1035156e-5), 0x0400);
}

#[test]
fn the_lut_texels_lay_the_blue_slices_side_by_side() {
    // A 2³ table: red holds the entry's index, green 0.5, blue -1.
    let table: Vec<[u32; 3]> = (0..8).map(|k| [(k as f32).to_bits(), 0.5f32.to_bits(), (-1.0f32).to_bits()]).collect();
    let bytes = lut_texels(&table, 2);
    assert_eq!(bytes.len(), 64);
    let half = |t: usize, c: usize| u16::from_le_bytes([bytes[8 * t + 2 * c], bytes[8 * t + 2 * c + 1]]);
    // Texels row by row (green), each row blue slice by slice, red fastest within a slice.
    let reds: Vec<u16> = (0..8).map(|t| half(t, 0)).collect();
    assert_eq!(reds, vec![0x0000, 0x3c00, 0x4400, 0x4500, 0x4000, 0x4200, 0x4600, 0x4700]);
    for t in 0..8 {
        assert_eq!(half(t, 1), 0x3800);
        assert_eq!(half(t, 2), 0xbc00);
        assert_eq!(half(t, 3), 0x3c00);
    }
    // A longer table is read only as far as the image reaches.
    let mut longer = table.clone();
    longer.push([0, 0, 0]);
    assert_eq!(lut_texels(&longer, 2), bytes);
    assert_eq!(lut_texels(&Vec::new(), 0), Vec::<u8>::new());
}
