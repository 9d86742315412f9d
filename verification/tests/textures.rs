use lib::textures::{downsample, mip_chain, mip_ramp};

fn to_byte(x: f32) -> u8 {
    (x.clamp(0.0, 1.0) * 255.0 + 0.5) as u8
}

#[test]
fn the_ramp_holds_its_level_in_every_level() {
    let ramp = mip_ramp(16);
    for (k, level) in ramp.levels.iter().enumerate() {
        assert_eq!(level[0], to_byte(k as f32 / 16.0));
    }
}

#[test]
fn every_texture_has_its_full_mip_chain() {
    let texture = mip_ramp(64);
    assert_eq!(texture.levels.len(), 7, "{}", texture.name);
    for (k, level) in texture.levels.iter().enumerate() {
        let side = 64 >> k;
        assert_eq!(level.len(), side * side * 4, "{} level {k}", texture.name);
    }
}

#[test]
fn the_ramp_is_opaque_grey() {
    let ramp = mip_ramp(4);
    assert_eq!(ramp.levels.len(), 3);
    assert_eq!(ramp.levels[1], vec![16, 16, 16, 255, 16, 16, 16, 255, 16, 16, 16, 255, 16, 16, 16, 255]);
    assert_eq!(ramp.levels[2], vec![32, 32, 32, 255]);
    assert!(!ramp.srgb && ramp.size == 4);
}

#[test]
fn a_level_halves_by_its_blocks() {
    let level: Vec<u32> = (0..16).collect();
    let half = downsample(&level, 4, |a, b, c, d| a + b + c + d);
    assert_eq!(half, vec![10, 18, 42, 50]);
    let chain = mip_chain(level, 4, |a, b, c, d| a.max(b).max(c).max(d));
    assert_eq!(chain.len(), 3);
    assert_eq!(chain[1], vec![5, 7, 13, 15]);
    assert_eq!(chain[2], vec![15]);
}
