use fractal_farm::elo::update;

#[test]
fn even_match_moves_ten_points() {
    assert_eq!(update(1500, 1500), (1510, 1490));
    assert_eq!(update(0, 0), (10, -10));
}

#[test]
fn favourite_winning_gains_more() {
    assert_eq!(update(1600, 1400), (1615, 1384));
    assert_eq!(update(1200, 1000), (1215, 984));
    assert_eq!(update(2000, 1000), (2020, 980));
}

#[test]
fn underdog_winning_gains_less() {
    assert_eq!(update(1400, 1600), (1405, 1595));
    assert_eq!(update(1000, 2000), (1000, 2000));
    assert_eq!(update(-100, 50), (-94, 44));
}

#[test]
fn rounding_steps_near_threshold() {
    assert_eq!(update(1517, 1500), (1527, 1489));
    assert_eq!(update(1518, 1500), (1529, 1489));
}

#[test]
fn points_are_nearly_conserved() {
    for (w, l) in [(1500i64, 1500i64), (1600, 1400), (1400, 1600), (3, 900), (-50, -700)] {
        let (w2, l2) = update(w, l);
        assert!(w2 + l2 == w + l || w2 + l2 == w + l - 1);
        assert!(w2 >= w && w2 <= w + 20);
        assert!(l2 <= l && l2 >= l - 20);
    }
}

#[test]
fn loser_is_scored_against_the_raised_winner() {
    let mut last = 0;
    for gap in -1000i64..1000 {
        let (w2, l2) = update(gap, 0);
        let gain = w2 - gap;
        let loss = -l2;
        assert!(loss == gain || loss == gain + 1);
        assert!(loss >= last);
        last = loss;
    }
    assert_eq!(update(1000, 992), (1010, 981));
}

#[test]
fn gain_grows_with_the_gap() {
    let mut last = 0;
    for gap in -1000i64..1000 {
        let (w2, _) = update(gap, 0);
        let gain = w2 - gap;
        assert!(gain >= last);
        last = gain;
    }
    assert_eq!(last, 20);
}

#[test]
fn ratings_saturate_at_the_limits() {
    assert_eq!(update(i64::MAX, i64::MAX), (i64::MAX, i64::MAX - 10));
    assert_eq!(update(i64::MIN, i64::MIN), (i64::MIN + 10, i64::MIN));
    assert_eq!(update(i64::MAX, i64::MIN), (i64::MAX, i64::MIN));
}
