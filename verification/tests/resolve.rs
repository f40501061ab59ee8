use taffy::geometry::{Point, Rect, Size};
use taffy::math::{maybe_add, maybe_sub, sub_where_set};
use taffy::scalar::Scalar;
use taffy::style::dimension::{
    AvailableSpace, CalcNode, Dimension, LengthPercentage, LengthPercentageAuto, RoundingStrategy,
};
use taffy::tree::CollapsibleMarginSet;

fn s(x: f32) -> Scalar {
    Scalar::from_bits(x.to_bits())
}

fn f(x: Scalar) -> f32 {
    f32::from_bits(x.to_bits())
}

fn o(x: f32) -> Option<Scalar> {
    Some(s(x))
}

fn leaf(x: f32) -> Box<CalcNode> {
    Box::new(CalcNode::Leaf(LengthPercentage::Length(s(x))))
}

fn percent(x: f32) -> Box<CalcNode> {
    Box::new(CalcNode::Leaf(LengthPercentage::Percent(s(x))))
}

#[test]
fn lengths_and_fractions_resolve() {
    assert_eq!(LengthPercentage::Length(s(7.0)).resolve(s(40.0)), s(7.0));
    assert_eq!(LengthPercentage::Percent(s(0.3)).resolve(s(40.0)), s(0.3f32 * 40.0));
    assert_eq!(LengthPercentage::Length(s(7.0)).maybe_resolve(None), o(7.0));
    assert_eq!(LengthPercentage::Percent(s(0.5)).maybe_resolve(None), None);
    assert_eq!(LengthPercentage::Percent(s(0.5)).maybe_resolve(o(9.0)), o(4.5));
    assert_eq!(LengthPercentage::Percent(s(0.5)).resolve_or_zero(None), s(0.0));
    assert_eq!(LengthPercentage::Percent(s(0.5)).resolve_or_zero(o(9.0)), s(4.5));

    assert_eq!(LengthPercentageAuto::Length(s(7.0)).resolve_to_option(s(40.0)), o(7.0));
    assert_eq!(LengthPercentageAuto::Percent(s(0.3)).resolve_to_option(s(40.0)), o(40.0f32 * 0.3));
    assert_eq!(LengthPercentageAuto::Auto.resolve_to_option(s(40.0)), None);
    assert_eq!(LengthPercentageAuto::Auto.maybe_resolve(o(40.0)), None);
    assert_eq!(LengthPercentageAuto::Percent(s(0.25)).maybe_resolve(o(40.0)), o(10.0));
    assert_eq!(LengthPercentageAuto::Percent(s(0.25)).maybe_resolve(None), None);
    assert_eq!(LengthPercentageAuto::Auto.resolve_or_zero(o(40.0)), s(0.0));
    assert_eq!(LengthPercentageAuto::Length(s(-3.0)).resolve_or_zero(None), s(-3.0));

    assert_eq!(Dimension::Length(s(7.0)).maybe_resolve(None), o(7.0));
    assert_eq!(Dimension::Percent(s(0.25)).maybe_resolve(o(40.0)), o(10.0));
    assert_eq!(Dimension::Percent(s(0.25)).maybe_resolve(None), None);
    assert_eq!(Dimension::Auto.maybe_resolve(o(40.0)), None);
}

#[test]
fn an_invalid_size_is_clamped_to_zero() {
    assert_eq!(Dimension::Length(s(-7.0)).maybe_resolve(None), o(0.0));
    assert_eq!(Dimension::Length(s(f32::NAN)).maybe_resolve(None), o(0.0));
    assert_eq!(Dimension::Percent(s(-0.5)).maybe_resolve(o(10.0)), o(0.0));
    assert_eq!(Dimension::Percent(s(0.5)).maybe_resolve(o(-10.0)), o(0.0));
    let size = Size { width: Dimension::Length(s(-1.0)), height: Dimension::Percent(s(0.5)) };
    assert_eq!(size.maybe_resolve(Size { width: None, height: o(8.0) }), Size { width: o(0.0), height: o(4.0) });
}

#[test]
fn edges_resolve_against_one_length() {
    let padding = Rect {
        left: LengthPercentage::Length(s(1.0)),
        right: LengthPercentage::Percent(s(0.1)),
        top: LengthPercentage::Percent(s(0.5)),
        bottom: LengthPercentage::Length(s(4.0)),
    };
    assert_eq!(padding.resolve_or_zero(o(20.0)), Rect { left: s(1.0), right: s(2.0), top: s(10.0), bottom: s(4.0) });
    assert_eq!(padding.resolve_or_zero(None), Rect { left: s(1.0), right: s(0.0), top: s(0.0), bottom: s(4.0) });
    let margin = Rect {
        left: LengthPercentageAuto::Auto,
        right: LengthPercentageAuto::Percent(s(0.5)),
        top: LengthPercentageAuto::Length(s(-2.0)),
        bottom: LengthPercentageAuto::Auto,
    };
    assert_eq!(margin.resolve_or_zero(o(20.0)), Rect { left: s(0.0), right: s(10.0), top: s(-2.0), bottom: s(0.0) });
    assert_eq!(margin.resolve_to_option(s(20.0)), Rect { left: None, right: o(10.0), top: o(-2.0), bottom: None });
}

#[test]
fn sums_over_edges_and_sizes() {
    let a = Rect { left: s(1.0), right: s(2.5), top: s(4.0), bottom: s(8.0) };
    let b = Rect { left: s(0.5), right: s(0.25), top: s(-4.0), bottom: s(1e10) };
    assert_eq!(a.horizontal_axis_sum(), s(3.5));
    assert_eq!(a.vertical_axis_sum(), s(12.0));
    assert_eq!(a.sum_axes(), Size { width: s(3.5), height: s(12.0) });
    assert_eq!(a.plus(&b), Rect { left: s(1.5), right: s(2.75), top: s(0.0), bottom: s(8.0 + 1e10) });
    let size = Size { width: s(10.0), height: s(0.1) };
    assert_eq!(size.minus(Size { width: s(4.0), height: s(0.3) }), Size { width: s(6.0), height: s(0.1f32 - 0.3) });
    assert_eq!(size.plus(Size { width: s(4.0), height: s(0.2) }), Size { width: s(14.0), height: s(0.1f32 + 0.2) });
    assert_eq!(Point { x: s(1.0), y: s(2.0) }.plus(Point { x: s(0.5), y: s(-2.0) }), Point { x: s(1.5), y: s(0.0) });
    assert_eq!(maybe_sub(o(5.0), s(1.5)), o(3.5));
    assert_eq!(maybe_sub(None, s(1.5)), None);
    assert_eq!(maybe_add(o(5.0), s(1.5)), o(6.5));
    assert_eq!(maybe_add(None, s(1.5)), None);
    assert_eq!(sub_where_set(s(5.0), o(1.5)), s(3.5));
    assert_eq!(sub_where_set(s(5.0), None), s(5.0));
    let known = Size { width: o(5.0), height: None };
    assert_eq!(known.maybe_sub(Size { width: s(7.0), height: s(1.0) }), Size { width: o(-2.0), height: None });
    assert_eq!(AvailableSpace::Definite(s(5.0)).maybe_sub(s(7.0)), AvailableSpace::Definite(s(-2.0)));
    assert_eq!(AvailableSpace::MinContent.maybe_sub(s(7.0)), AvailableSpace::MinContent);
    assert_eq!(AvailableSpace::MaxContent.maybe_sub(s(7.0)), AvailableSpace::MaxContent);
}

#[test]
fn a_margin_set_resolves_to_the_sum_of_its_extremes() {
    assert_eq!(CollapsibleMarginSet::zero().resolve(), s(0.0));
    let set = CollapsibleMarginSet::from_margin(s(10.0)).collapse_with_margin(s(-4.0)).collapse_with_margin(s(6.0));
    assert_eq!(set.resolve(), s(6.0));
    assert_eq!(CollapsibleMarginSet::from_margin(s(-0.3)).collapse_with_margin(s(0.1)).resolve(), s(0.1f32 + -0.3));
}

fn reference(node: &CalcNode, basis: f32) -> f32 {
    match node {
        CalcNode::Leaf(LengthPercentage::Length(length)) => f(*length),
        CalcNode::Leaf(LengthPercentage::Percent(fraction)) => f(*fraction) * basis,
        CalcNode::Leaf(LengthPercentage::Calculation(calc)) => reference(&calc.0, basis),
        CalcNode::Sum(a, b) => reference(a, basis) + reference(b, basis),
        CalcNode::Difference(a, b) => reference(a, basis) - reference(b, basis),
        CalcNode::Product(a, b) => reference(a, basis) * reference(b, basis),
        CalcNode::Quotient(a, b) => reference(a, basis) / reference(b, basis),
        CalcNode::Negate(a) => -reference(a, basis),
        CalcNode::Min(nodes) => nodes.iter().map(|n| reference(n, basis)).reduce(f32::min).unwrap_or(0.0),
        CalcNode::Max(nodes) => nodes.iter().map(|n| reference(n, basis)).reduce(f32::max).unwrap_or(0.0),
        CalcNode::Clamp { min, center, max } => {
            let (min, value, max) = (reference(min, basis), reference(center, basis), reference(max, basis));
            min.min(value.max(max))
        }
        CalcNode::Round { strategy, value, interval } => {
            let value = reference(value, basis);
            let interval = reference(interval, basis);
            if interval == 0.0 {
                return f32::NAN;
            }
            if value.is_infinite() {
                return if interval.is_infinite() { value } else { f32::NAN };
            }
            if interval.is_infinite() {
                let zero = if value.is_sign_negative() { -0.0 } else { 0.0 };
                return match strategy {
                    RoundingStrategy::Up if value > 0.0 => f32::INFINITY,
                    RoundingStrategy::Down if value < 0.0 => f32::NEG_INFINITY,
                    _ => zero,
                };
            }
            let div = value / interval;
            let lower = div.floor() * interval;
            let upper = div.ceil() * interval;
            match strategy {
                RoundingStrategy::Up => upper,
                RoundingStrategy::Down => lower,
                RoundingStrategy::Nearest => {
                    if value - lower < upper - value {
                        lower
                    } else {
                        upper
                    }
                }
                RoundingStrategy::ToZero => {
                    if lower.abs() < upper.abs() {
                        lower
                    } else {
                        upper
                    }
                }
            }
        }
    }
}

// Which of two zeros the smaller or larger of them is, the hardware leaves open.
fn same(a: f32, b: f32) -> bool {
    a.to_bits() == b.to_bits() || (a.is_nan() && b.is_nan()) || (a == 0.0 && b == 0.0)
}

#[test]
fn expressions_have_the_value_that_the_hardware_gives() {
    let values = [0.0f32, -0.0, 1.0, -1.0, 0.1, 2.5, 3.0, 7.0, -7.25, 100.0, 1e-3, 33.333, 1e20, f32::INFINITY];
    for &a in &values {
        for &b in &values {
            let nodes = vec![
                CalcNode::Sum(leaf(a), percent(b)),
                CalcNode::Difference(percent(a), leaf(b)),
                CalcNode::Product(leaf(a), leaf(b)),
                CalcNode::Quotient(leaf(a), leaf(b)),
                CalcNode::Negate(Box::new(CalcNode::Sum(leaf(a), leaf(b)))),
                CalcNode::Min(vec![*leaf(a), *percent(b), *leaf(2.0)]),
                CalcNode::Max(vec![*leaf(a), *percent(b), *leaf(2.0)]),
                CalcNode::Clamp { min: leaf(a), center: percent(0.5), max: leaf(b) },
                CalcNode::Round { strategy: RoundingStrategy::Up, value: leaf(a), interval: leaf(b) },
                CalcNode::Round { strategy: RoundingStrategy::Down, value: leaf(a), interval: leaf(b) },
                CalcNode::Round { strategy: RoundingStrategy::Nearest, value: leaf(a), interval: leaf(b) },
                CalcNode::Round { strategy: RoundingStrategy::ToZero, value: leaf(a), interval: leaf(b) },
            ];
            for node in &nodes {
                for basis in [0.0f32, 1.0, 12.0, 0.3] {
                    let got = f(node.resolve(s(basis)));
                    let want = reference(node, basis);
                    assert!(same(got, want), "{:?} with basis {}: {} against {}", node, basis, got, want);
                }
            }
        }
    }
}

#[test]
fn rounding_to_a_multiple() {
    let round = |strategy, value: f32, interval: f32| {
        f(CalcNode::Round { strategy, value: leaf(value), interval: leaf(interval) }.resolve(s(0.0)))
    };
    assert_eq!(round(RoundingStrategy::Up, 7.0, 5.0), 10.0);
    assert_eq!(round(RoundingStrategy::Down, 7.0, 5.0), 5.0);
    assert_eq!(round(RoundingStrategy::Nearest, 7.0, 5.0), 5.0);
    assert_eq!(round(RoundingStrategy::Nearest, 7.5, 5.0), 10.0);
    assert_eq!(round(RoundingStrategy::Nearest, 8.0, 5.0), 10.0);
    assert_eq!(round(RoundingStrategy::ToZero, 7.0, 5.0), 5.0);
    assert_eq!(round(RoundingStrategy::ToZero, -7.0, 5.0), -5.0);
    assert_eq!(round(RoundingStrategy::Up, -7.0, 5.0), -5.0);
    assert_eq!(round(RoundingStrategy::Down, -7.0, 5.0), -10.0);
    assert!(round(RoundingStrategy::Up, 7.0, 0.0).is_nan());
    assert!(round(RoundingStrategy::Nearest, f32::INFINITY, 5.0).is_nan());
    assert_eq!(round(RoundingStrategy::Up, 7.0, f32::INFINITY), f32::INFINITY);
    assert_eq!(round(RoundingStrategy::Down, 7.0, f32::INFINITY), 0.0);
    assert_eq!(round(RoundingStrategy::Down, -7.0, f32::INFINITY), f32::NEG_INFINITY);
}

#[test]
fn a_calculation_stands_where_a_length_stands() {
    let calc = CalcNode::Sum(leaf(5.0), percent(0.5)).into_calc();
    assert_eq!(calc.resolve(s(20.0)), s(15.0));
    assert_eq!(LengthPercentage::Calculation(calc.clone()).resolve(s(20.0)), s(15.0));
    assert_eq!(LengthPercentage::Calculation(calc.clone()).maybe_resolve(None), None);
    assert_eq!(LengthPercentageAuto::Calculation(calc.clone()).resolve_to_option(s(20.0)), o(15.0));
    assert_eq!(Dimension::Calculation(calc.clone()).maybe_resolve(o(20.0)), o(15.0));
    assert_eq!(Dimension::Calculation(calc).maybe_resolve(None), None);
}
