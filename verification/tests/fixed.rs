use nanogbm::fixed::{Fixed, SCALE};
use nanogbm::loss::sigmoid;
use nanogbm::number::Rounded;
use nanogbm::text::show_rounded;
use nanogbm::{Config, Datum, FeatureBuilder, GbdtTrainer, Real, Wide};

fn fixed(num: i64, den: u64) -> Fixed {
    let size = Fixed::ratio(num.unsigned_abs(), den);
    if num < 0 { size.negate() } else { size }
}

#[test]
fn fixed_point_arithmetic() {
    assert_eq!(fixed(3, 2).units, SCALE + SCALE / 2);
    assert_eq!(fixed(3, 2).plus(fixed(-1, 2)), fixed(1, 1));
    assert_eq!(fixed(3, 2).minus(fixed(5, 2)), fixed(-1, 1));
    assert_eq!(fixed(-3, 2).times(fixed(5, 2)), fixed(-15, 4));
    assert_eq!(fixed(7, 1).over(fixed(-2, 1)), fixed(-7, 2));
    assert_eq!(fixed(-7, 2).magnitude(), fixed(7, 2));
    assert_eq!(fixed(-7, 2).floor(), fixed(-4, 1));
    assert_eq!(fixed(7, 2).floor(), fixed(3, 1));
    assert_eq!(fixed(-7, 2).to_i32(), -3);
    assert_eq!(Fixed::two_to(-1), fixed(1, 2));
    assert_eq!(Fixed::two_to(10), fixed(1024, 1));
    assert_eq!(Fixed::two_to(-40), fixed(0, 1));
    assert_eq!(Fixed::two_to(40).units, i64::MAX);
    assert_eq!(fixed(5, 2).ceil_count(), 3);
    assert_eq!(fixed(-5, 2).ceil_count(), 0);
}

#[test]
fn fixed_point_saturates() {
    let top = Fixed::infinity();
    assert_eq!(top.plus(fixed(1, 1)), top);
    assert_eq!(top.times(fixed(-2, 1)).units, i64::MIN);
    assert_eq!(fixed(1, 1).over(fixed(0, 1)), top);
    assert_eq!(fixed(-1, 1).over(fixed(0, 1)).units, i64::MIN);
    assert_eq!(fixed(0, 1).over(fixed(0, 1)), fixed(0, 1));
    assert!(!top.is_finite());
    assert!(fixed(1, 1).is_finite());
}

#[test]
fn fixed_point_exponential_and_logarithm() {
    let one = fixed(1, 1);
    let e = one.exp();
    // (1 + 1/1024)^1024 = 2.71695...
    assert!(fixed(2716, 1000).units < e.units && e.units < fixed(2719, 1000).units);
    assert_eq!(fixed(0, 1).exp(), one);
    assert_eq!(fixed(-30, 1).exp(), fixed(0, 1));
    let back = e.ln().minus(one).magnitude();
    assert!(back.units < fixed(1, 100_000).units);
}

#[test]
fn fixed_point_bits_and_text() {
    for x in [fixed(5, 2), fixed(-5, 2), fixed(0, 1)] {
        assert_eq!(Fixed::from_bits(x.to_bits()), x);
        assert_eq!(x.rank(), Some(x.units));
        assert_eq!(Fixed::widen(x.narrow()), x);
    }
    assert_eq!(show_rounded(&fixed(-5, 2).rounded(3)), "-2.500");
    assert_eq!(show_rounded(&fixed(493, 4).rounded(1)), "123.2");
    assert_eq!(show_rounded(&fixed(7, 1).rounded(0)), "7");
    assert_eq!(show_rounded(&fixed(1, 16).rounded(3)), "0.062");
    assert_eq!(show_rounded(&Rounded::NotANumber), "NaN");
    assert_eq!(show_rounded(&Rounded::Infinite { negative: true }), "-inf");
}

#[test]
fn trains_without_floating_point() {
    let cfg: Config<Fixed> = Config {
        num_iterations: 10,
        num_leaves: 4,
        min_data_in_leaf: 2,
        ..Config::default()
    };
    let fb = FeatureBuilder::new().add_continuous("x", |r: &i64| Datum::Number(fixed(*r, 1)));
    let rows: Vec<i64> = (0..60).map(|i| i % 20).collect();
    let labels: Vec<Fixed> =
        rows.iter().map(|&r| fixed(if r >= 12 { 1 } else { 0 }, 1)).collect();
    let model = match GbdtTrainer::new(&cfg, &fb).fit(&rows, &labels, None) {
        Ok(model) => model,
        Err(e) => panic!("{}", e.message()),
    };
    let probs = model.predict_proba(&fb, &[0, 11, 12, 19]);
    assert!(probs[0].units < SCALE / 2 && probs[1].units < SCALE / 2);
    assert!(probs[2].units > SCALE / 2 && probs[3].units > SCALE / 2);
}

#[test]
fn fixed_point_probabilities_lie_between_zero_and_one() {
    for n in [-4_000_000_000i64, -1000, -23, -1, 0, 1, 5, 23, 1000, 2_000_000_000] {
        let p = sigmoid(Fixed { units: n.saturating_mul(SCALE) });
        assert!(0 <= p.units && p.units <= SCALE, "{n}");
    }
    assert_eq!(sigmoid(fixed(0, 1)), fixed(1, 2));
}
