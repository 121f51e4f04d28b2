use fractal_farm::generation::{
    attempt_seed, kind_for_seed, kind_from_name, kind_to_generate, FractalKind,
};

#[test]
fn seeds_cycle_through_the_kinds() {
    assert_eq!(kind_for_seed(0), FractalKind::MobiusFlame);
    assert_eq!(kind_for_seed(1), FractalKind::FractalFlame);
    assert_eq!(kind_for_seed(2), FractalKind::RandomLSystem);
    assert_eq!(kind_for_seed(3), FractalKind::Mandelbrot);
    assert_eq!(kind_for_seed(4), FractalKind::Newton);
    assert_eq!(kind_for_seed(5), FractalKind::QuadraticMap);
    assert_eq!(kind_for_seed(6), FractalKind::MobiusFlame);
    assert_eq!(kind_for_seed(usize::MAX), kind_for_seed(usize::MAX % 6));
}

#[test]
fn names_pick_kinds() {
    assert_eq!(kind_from_name(Some("newton")), Some(FractalKind::Newton));
    assert_eq!(kind_from_name(Some("mobius")), Some(FractalKind::MobiusFlame));
    assert_eq!(kind_from_name(Some("flame")), Some(FractalKind::FractalFlame));
    assert_eq!(kind_from_name(Some("qmap")), Some(FractalKind::QuadraticMap));
    assert_eq!(kind_from_name(Some("lsys")), Some(FractalKind::RandomLSystem));
    assert_eq!(kind_from_name(Some("mandelbrot")), Some(FractalKind::Mandelbrot));
    assert_eq!(kind_from_name(Some("random")), None);
    assert_eq!(kind_from_name(Some("Newton")), None);
    assert_eq!(kind_from_name(Some("")), None);
    assert_eq!(kind_from_name(None), None);
}

#[test]
fn asked_kind_wins_over_seed() {
    assert_eq!(kind_to_generate(4, Some(FractalKind::Mandelbrot)), FractalKind::Mandelbrot);
    assert_eq!(kind_to_generate(4, None), FractalKind::Newton);
}

#[test]
fn attempts_count_up_from_the_seed() {
    assert_eq!(attempt_seed(1000, 0), 1000);
    assert_eq!(attempt_seed(1000, 3), 1003);
}
