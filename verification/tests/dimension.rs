use taffy::geometry::{Rect, Size};
use taffy::scalar::Scalar;
use taffy::style::dimension::{
    AvailableSpace, Calc, CalcNode, Dimension, LengthPercentage, LengthPercentageAuto, RoundingStrategy,
};

fn s(x: f32) -> Scalar {
    Scalar::from_bits(x.to_bits())
}

fn f(x: Scalar) -> f32 {
    f32::from_bits(x.to_bits())
}

#[test]
fn lengths_convert_between_the_three_types() {
    assert_eq!(
        LengthPercentageAuto::from_length_percentage(LengthPercentage::Length(s(3.0))),
        LengthPercentageAuto::Length(s(3.0))
    );
    assert_eq!(
        LengthPercentageAuto::from_length_percentage(LengthPercentage::Percent(s(0.5))),
        LengthPercentageAuto::Percent(s(0.5))
    );
    assert_eq!(Dimension::from_length_percentage(LengthPercentage::Length(s(3.0))), Dimension::Length(s(3.0)));
    assert_eq!(Dimension::from_length_percentage_auto(LengthPercentageAuto::Auto), Dimension::Auto);
    assert_eq!(
        Dimension::from_length_percentage_auto(LengthPercentageAuto::Percent(s(0.25))),
        Dimension::Percent(s(0.25))
    );
    let calc = CalcNode::Leaf(LengthPercentage::Length(s(1.0))).into_calc();
    assert_eq!(
        Dimension::from_length_percentage(LengthPercentage::Calculation(calc.clone())),
        Dimension::Calculation(calc)
    );
}

#[test]
fn constructors_state_what_they_are_given() {
    assert_eq!(LengthPercentage::from_length(s(2.0)), LengthPercentage::Length(s(2.0)));
    assert_eq!(LengthPercentage::from_percent(s(0.2)), LengthPercentage::Percent(s(0.2)));
    assert_eq!(LengthPercentage::zero(), LengthPercentage::Length(s(0.0)));
    assert_eq!(LengthPercentageAuto::from_length(s(2.0)), LengthPercentageAuto::Length(s(2.0)));
    assert_eq!(LengthPercentageAuto::from_percent(s(0.2)), LengthPercentageAuto::Percent(s(0.2)));
    assert_eq!(LengthPercentageAuto::auto(), LengthPercentageAuto::Auto);
    assert_eq!(Dimension::from_length(s(2.0)), Dimension::Length(s(2.0)));
    assert_eq!(Dimension::from_percent(s(0.2)), Dimension::Percent(s(0.2)));
    assert_eq!(Dimension::auto(), Dimension::Auto);
    assert_eq!(Dimension::zero(), Dimension::Length(s(0.0)));
}

#[test]
fn only_auto_is_auto() {
    assert!(LengthPercentageAuto::Auto.is_auto());
    assert!(!LengthPercentageAuto::Length(s(0.0)).is_auto());
    assert!(!LengthPercentageAuto::Percent(s(1.0)).is_auto());
    assert!(Dimension::Auto.is_auto());
    assert!(!Dimension::Length(s(0.0)).is_auto());
}

#[test]
fn only_a_length_has_a_length_whatever_the_context() {
    assert_eq!(Dimension::Length(s(7.5)).into_option(), Some(s(7.5)));
    assert_eq!(Dimension::Percent(s(0.5)).into_option(), None);
    assert_eq!(Dimension::Auto.into_option(), None);
    assert_eq!(LengthPercentageAuto::Length(s(7.5)).definite_length(), Some(s(7.5)));
    assert_eq!(LengthPercentageAuto::Auto.definite_length(), None);
}

#[test]
fn rects_of_dimensions() {
    let r = Rect::<Dimension>::from_length(s(1.0), s(2.0), s(3.0), s(4.0));
    assert_eq!(r.left, Dimension::Length(s(1.0)));
    assert_eq!(r.right, Dimension::Length(s(2.0)));
    assert_eq!(r.top, Dimension::Length(s(3.0)));
    assert_eq!(r.bottom, Dimension::Length(s(4.0)));
    let r = Rect::<Dimension>::from_percent(s(0.1), s(0.2), s(0.3), s(0.4));
    assert_eq!(r.left, Dimension::Percent(s(0.1)));
    assert_eq!(r.right, Dimension::Percent(s(0.2)));
    assert_eq!(r.top, Dimension::Percent(s(0.3)));
    assert_eq!(r.bottom, Dimension::Percent(s(0.4)));
}

#[test]
fn available_space_as_an_option() {
    let definite = AvailableSpace::Definite(s(10.0));
    assert!(definite.is_definite());
    assert!(!AvailableSpace::MinContent.is_definite());
    assert!(!AvailableSpace::MaxContent.is_definite());
    assert_eq!(definite.into_option(), Some(s(10.0)));
    assert_eq!(AvailableSpace::MinContent.into_option(), None);
    assert_eq!(AvailableSpace::MaxContent.into_option(), None);
    assert_eq!(definite.unwrap_or(s(1.0)), s(10.0));
    assert_eq!(AvailableSpace::MaxContent.unwrap_or(s(1.0)), s(1.0));
    assert_eq!(definite.unwrap(), s(10.0));
    assert_eq!(definite.or(AvailableSpace::MinContent), definite);
    assert_eq!(AvailableSpace::MaxContent.or(AvailableSpace::MinContent), AvailableSpace::MinContent);
    assert_eq!(definite.or_else(|| AvailableSpace::MinContent), definite);
    assert_eq!(AvailableSpace::MaxContent.or_else(|| AvailableSpace::MinContent), AvailableSpace::MinContent);
    assert_eq!(definite.unwrap_or_else(|| s(2.0)), s(10.0));
    assert_eq!(AvailableSpace::MinContent.unwrap_or_else(|| s(2.0)), s(2.0));
    assert_eq!(AvailableSpace::MinContent.maybe_set(Some(s(4.0))), AvailableSpace::Definite(s(4.0)));
    assert_eq!(AvailableSpace::MinContent.maybe_set(None), AvailableSpace::MinContent);
    assert_eq!(definite.map_definite_value(|v| s(f(v) * 2.0)), AvailableSpace::Definite(s(20.0)));
    assert_eq!(AvailableSpace::MaxContent.map_definite_value(|v| s(f(v) * 2.0)), AvailableSpace::MaxContent);
    assert_eq!(AvailableSpace::from_length(s(3.0)), AvailableSpace::Definite(s(3.0)));
    assert_eq!(AvailableSpace::from_option(Some(s(3.0))), AvailableSpace::Definite(s(3.0)));
    assert_eq!(AvailableSpace::from_option(None), AvailableSpace::MaxContent);
    assert_eq!(AvailableSpace::zero(), AvailableSpace::Definite(s(0.0)));
}

#[test]
fn callbacks_are_not_called_without_need() {
    let definite = AvailableSpace::Definite(s(10.0));
    assert_eq!(definite.or_else(|| panic!("called")), definite);
    assert_eq!(definite.unwrap_or_else(|| panic!("called")), s(10.0));
    assert_eq!(AvailableSpace::MinContent.map_definite_value(|_| panic!("called")), AvailableSpace::MinContent);
}

#[test]
fn free_space_of_each_kind_of_space() {
    assert_eq!(f(AvailableSpace::MaxContent.compute_free_space(s(3.0))), f32::INFINITY);
    assert_eq!(f(AvailableSpace::MinContent.compute_free_space(s(3.0))), 0.0);
    assert_eq!(f(AvailableSpace::Definite(s(5.0)).compute_free_space(s(3.0))), 2.0);
    assert_eq!(f(AvailableSpace::Definite(s(5.0)).compute_free_space(s(7.5))), -2.5);
}

#[test]
fn conversions_by_from() {
    assert_eq!(LengthPercentageAuto::from(LengthPercentage::Length(s(3.0))), LengthPercentageAuto::Length(s(3.0)));
    assert_eq!(Dimension::from(LengthPercentage::Percent(s(0.5))), Dimension::Percent(s(0.5)));
    assert_eq!(Dimension::from(LengthPercentageAuto::Auto), Dimension::Auto);
    assert_eq!(AvailableSpace::from(s(2.0)), AvailableSpace::Definite(s(2.0)));
    assert_eq!(AvailableSpace::from(Some(s(2.0))), AvailableSpace::Definite(s(2.0)));
    assert_eq!(AvailableSpace::from(None), AvailableSpace::MaxContent);
}

#[test]
fn sizes_of_available_space() {
    let size = Size { width: AvailableSpace::Definite(s(5.0)), height: AvailableSpace::MinContent };
    assert_eq!(size.into_options(), Size { width: Some(s(5.0)), height: None });
    assert_eq!(
        size.maybe_set(Size { width: None, height: Some(s(9.0)) }),
        Size { width: AvailableSpace::Definite(s(5.0)), height: AvailableSpace::Definite(s(9.0)) }
    );
    assert_eq!(
        Size::<AvailableSpace>::max_content(),
        Size { width: AvailableSpace::MaxContent, height: AvailableSpace::MaxContent }
    );
    assert_eq!(
        Size::<AvailableSpace>::min_content(),
        Size { width: AvailableSpace::MinContent, height: AvailableSpace::MinContent }
    );
}

#[test]
fn an_expression_is_shared_as_it_is() {
    let calc: Calc = CalcNode::Negate(Box::new(CalcNode::Leaf(LengthPercentage::Length(s(4.0))))).into_calc();
    assert_eq!(*calc.0, CalcNode::Negate(Box::new(CalcNode::Leaf(LengthPercentage::Length(s(4.0))))));
}

#[test]
fn the_default_rounding_is_to_the_nearest() {
    assert_eq!(RoundingStrategy::default(), RoundingStrategy::Nearest);
}

#[test]
fn least_and_greatest_of_operands() {
    let values = vec![s(3.0), s(-1.0), s(7.0)];
    assert_eq!(CalcNode::min_of(&values), s(-1.0));
    assert_eq!(CalcNode::max_of(&values), s(7.0));
    assert_eq!(CalcNode::min_of(&vec![]), s(0.0));
    assert_eq!(CalcNode::max_of(&vec![]), s(0.0));
    assert_eq!(CalcNode::min_of(&vec![s(5.0)]), s(5.0));
    assert_eq!(CalcNode::negate(s(2.0)), s(-2.0));
}

#[test]
fn clamp_takes_the_smaller_of_min_and_the_larger_of_the_rest() {
    for (lo, v, hi) in [(1.0f32, 2.0f32, 3.0f32), (5.0, 2.0, 3.0), (1.0, 9.0, 3.0), (4.0, 2.0, 1.0)] {
        assert_eq!(f(CalcNode::clamp_of(s(lo), s(v), s(hi))), lo.min(v.max(hi)));
    }
}

#[test]
fn rounding_to_a_zero_interval_is_not_a_number() {
    for strategy in [RoundingStrategy::Up, RoundingStrategy::Down, RoundingStrategy::Nearest, RoundingStrategy::ToZero] {
        let out = CalcNode::round_without_arithmetic(strategy, s(5.0), s(0.0)).unwrap();
        assert!(f(out).is_nan());
        let out = CalcNode::round_without_arithmetic(strategy, s(5.0), s(-0.0)).unwrap();
        assert!(f(out).is_nan());
    }
}

#[test]
fn rounding_an_infinite_value() {
    let out = CalcNode::round_without_arithmetic(RoundingStrategy::Up, s(f32::INFINITY), s(f32::INFINITY));
    assert_eq!(out.map(f), Some(f32::INFINITY));
    let out = CalcNode::round_without_arithmetic(RoundingStrategy::Down, s(f32::NEG_INFINITY), s(f32::INFINITY));
    assert_eq!(out.map(f), Some(f32::NEG_INFINITY));
    let out = CalcNode::round_without_arithmetic(RoundingStrategy::Nearest, s(f32::INFINITY), s(2.0)).unwrap();
    assert!(f(out).is_nan());
}

#[test]
fn rounding_to_an_infinite_interval() {
    let inf = s(f32::INFINITY);
    let bits = |strategy, value: f32| CalcNode::round_without_arithmetic(strategy, s(value), inf).unwrap().to_bits();
    assert_eq!(bits(RoundingStrategy::Up, 5.0), f32::INFINITY.to_bits());
    assert_eq!(bits(RoundingStrategy::Up, 0.0), 0.0f32.to_bits());
    assert_eq!(bits(RoundingStrategy::Up, -0.0), (-0.0f32).to_bits());
    assert_eq!(bits(RoundingStrategy::Up, -5.0), (-0.0f32).to_bits());
    assert_eq!(bits(RoundingStrategy::Down, -5.0), f32::NEG_INFINITY.to_bits());
    assert_eq!(bits(RoundingStrategy::Down, -0.0), (-0.0f32).to_bits());
    assert_eq!(bits(RoundingStrategy::Down, 0.0), 0.0f32.to_bits());
    assert_eq!(bits(RoundingStrategy::Down, 5.0), 0.0f32.to_bits());
    assert_eq!(bits(RoundingStrategy::Nearest, 5.0), 0.0f32.to_bits());
    assert_eq!(bits(RoundingStrategy::Nearest, -5.0), (-0.0f32).to_bits());
    assert_eq!(bits(RoundingStrategy::ToZero, 5.0), 0.0f32.to_bits());
    assert_eq!(bits(RoundingStrategy::ToZero, -5.0), (-0.0f32).to_bits());
}

#[test]
fn rounding_finite_values_takes_arithmetic() {
    assert_eq!(CalcNode::round_without_arithmetic(RoundingStrategy::Up, s(5.0), s(2.0)), None);
}

#[test]
fn rounding_picks_between_the_two_multiples() {
    // 5 between the multiples 4 and 6 of 2; 4.5 between 4 and 6; -5 between -6 and -4.
    let pick = |strategy, value: f32, lower: f32, upper: f32| {
        f(CalcNode::round_to(strategy, s(lower), s(upper), s(value - lower), s(upper - value)))
    };
    assert_eq!(pick(RoundingStrategy::Up, 4.5, 4.0, 6.0), 6.0);
    assert_eq!(pick(RoundingStrategy::Down, 4.5, 4.0, 6.0), 4.0);
    assert_eq!(pick(RoundingStrategy::Nearest, 4.5, 4.0, 6.0), 4.0);
    assert_eq!(pick(RoundingStrategy::Nearest, 5.5, 4.0, 6.0), 6.0);
    assert_eq!(pick(RoundingStrategy::Nearest, 5.0, 4.0, 6.0), 6.0);
    assert_eq!(pick(RoundingStrategy::ToZero, 5.0, 4.0, 6.0), 4.0);
    assert_eq!(pick(RoundingStrategy::ToZero, -5.0, -6.0, -4.0), -4.0);
}
