use lib::material::{instance_hash, is_ice};

#[test]
fn about_a_fifth_of_the_rocks_are_ice() {
    let ice = (0..10_000).filter(|&id| is_ice(id)).count();
    assert!((1_800..2_200).contains(&ice), "{ice}");
    // The byte rule: 51 / 255 is 0.2 exactly, so byte 50 is ice and byte 51 is not.
    assert!(f32::from(50_u8) / 255.0 < 0.2);
    assert!(f32::from(51_u8) / 255.0 >= 0.2);
}

#[test]
fn ice_follows_the_second_byte_of_the_hash() {
    for id in [0_u32, 1, 7, 1234, 99_999, u32::MAX] {
        let byte = instance_hash(id)[1];
        assert_eq!(is_ice(id), f32::from(byte) / 255.0 < 0.2);
    }
}

#[test]
fn the_hash_mixes_the_id() {
    // Id 0: 1 013 904 223 after the LCG step, then the three xor-shift-multiply rounds.
    let mut n: u32 = 1_013_904_223;
    n ^= n >> 16;
    n = n.wrapping_mul(0x7feb_352d);
    n ^= n >> 15;
    n = n.wrapping_mul(0x846c_a68b);
    n ^= n >> 16;
    assert_eq!(instance_hash(0), [n as u8, (n >> 8) as u8, (n >> 16) as u8]);
    assert_ne!(instance_hash(0), instance_hash(1));
}
