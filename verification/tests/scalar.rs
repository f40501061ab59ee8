use taffy::scalar::Scalar;

fn s(x: f32) -> Scalar {
    Scalar::from_bits(x.to_bits())
}

fn f(x: Scalar) -> f32 {
    f32::from_bits(x.to_bits())
}

fn samples() -> Vec<f32> {
    vec![
        0.0,
        -0.0,
        1.0,
        -1.0,
        0.5,
        -0.5,
        1.5,
        100.3,
        963.3333,
        -41.0,
        f32::MIN_POSITIVE,
        -f32::MIN_POSITIVE,
        f32::from_bits(1),
        f32::from_bits(0x8000_0001),
        f32::MAX,
        f32::MIN,
        f32::EPSILON,
        f32::INFINITY,
        f32::NEG_INFINITY,
        f32::NAN,
        f32::from_bits(0xffc0_0001),
    ]
}

#[test]
fn classification_agrees_with_the_hardware() {
    for x in samples() {
        assert_eq!(s(x).is_nan(), x.is_nan(), "{x}");
        assert_eq!(s(x).is_infinite(), x.is_infinite(), "{x}");
        assert_eq!(s(x).is_finite(), x.is_finite(), "{x}");
        assert_eq!(s(x).is_zero(), x == 0.0, "{x}");
        assert_eq!(s(x).is_sign_negative(), x.is_sign_negative(), "{x}");
        assert_eq!(s(x).is_sign_positive(), x.is_sign_positive(), "{x}");
    }
}

#[test]
fn comparison_agrees_with_the_hardware() {
    for a in samples() {
        for b in samples() {
            assert_eq!(s(a).lt(s(b)), a < b, "{a} < {b}");
            assert_eq!(s(a).le(s(b)), a <= b, "{a} <= {b}");
            assert_eq!(s(a).gt(s(b)), a > b, "{a} > {b}");
            assert_eq!(s(a).ge(s(b)), a >= b, "{a} >= {b}");
            assert_eq!(s(a).num_eq(s(b)), a == b, "{a} == {b}");
        }
    }
}

#[test]
fn larger_and_smaller_agree_with_the_hardware() {
    for a in samples() {
        for b in samples() {
            let max = f(s(a).max(s(b)));
            let min = f(s(a).min(s(b)));
            if a.is_nan() && b.is_nan() {
                assert!(max.is_nan() && min.is_nan());
            } else {
                assert!(max == a.max(b), "max({a}, {b}) = {max}");
                assert!(min == a.min(b), "min({a}, {b}) = {min}");
            }
        }
    }
}

#[test]
fn of_the_two_zeros_the_larger_is_positive_and_the_smaller_negative() {
    assert_eq!(s(0.0).max(s(-0.0)).to_bits(), 0);
    assert_eq!(s(-0.0).max(s(0.0)).to_bits(), 0);
    assert_eq!(s(0.0).min(s(-0.0)).to_bits(), 0x8000_0000);
    assert_eq!(s(-0.0).min(s(0.0)).to_bits(), 0x8000_0000);
}

#[test]
fn the_other_operand_wins_over_what_is_not_a_number() {
    assert_eq!(s(f32::NAN).max(s(3.0)), s(3.0));
    assert_eq!(s(3.0).max(s(f32::NAN)), s(3.0));
    assert_eq!(s(f32::NAN).min(s(3.0)), s(3.0));
    assert_eq!(s(3.0).min(s(f32::NAN)), s(3.0));
}

#[test]
fn negation_and_absolute_value_agree_with_the_hardware() {
    for x in samples() {
        assert_eq!(s(x).neg().to_bits(), (-x).to_bits(), "{x}");
        assert_eq!(s(x).abs().to_bits(), x.abs().to_bits(), "{x}");
    }
}

#[test]
fn constants_have_their_values() {
    assert_eq!(f(Scalar::zero_scalar()), 0.0);
    assert_eq!(f(Scalar::infinity()), f32::INFINITY);
    assert_eq!(f(Scalar::neg_infinity()), f32::NEG_INFINITY);
    assert!(f(Scalar::not_a_number()).is_nan());
    assert_eq!(Scalar::from_bits(0x3f80_0000).to_bits(), 1.0f32.to_bits());
}
