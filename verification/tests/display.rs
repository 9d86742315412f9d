use lib::display::{Tonemap, ToneTablesPush};

#[test]
fn curves_parse_and_cycle() {
    assert_eq!("AgX".parse::<Tonemap>(), Ok(Tonemap::AgX));
    assert_eq!("neutral".parse::<Tonemap>(), Ok(Tonemap::PbrNeutral));
    assert!("filmic".parse::<Tonemap>().is_err());
    let mut t = Tonemap::default();
    for _ in 0..Tonemap::ALL.len() {
        t = t.next();
    }
    assert_eq!(t, Tonemap::default());
}

#[test]
fn every_curve_has_its_index_name_and_label() {
    let all = [
        Tonemap::AgX,
        Tonemap::Aces,
        Tonemap::PbrNeutral,
        Tonemap::Aces2,
        Tonemap::Aces2Analytic,
    ];
    for (i, t) in all.into_iter().enumerate() {
        assert_eq!(t.index(), i as u32);
        assert_eq!(t.name().parse::<Tonemap>(), Ok(t));
        assert_eq!(t.name().to_uppercase().parse::<Tonemap>(), Ok(t));
    }
    assert_eq!(Tonemap::Aces.label(), "ACES (Hill fit)");
    assert_eq!(Tonemap::Aces2Analytic.label(), "ACES 2.0 (SDR, per pixel)");
    assert_eq!(Tonemap::Aces2Analytic.next(), Tonemap::Aces);
    assert_eq!(Tonemap::Aces2.next(), Tonemap::AgX);
    assert_eq!(
        "filmic".parse::<Tonemap>(),
        Err("unknown tone curve \"filmic\": agx, aces, neutral, aces2 or aces2-analytic".to_string())
    );
    let _ = ToneTablesPush::new(3, 0x1000);
}
