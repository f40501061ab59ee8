use taffy::geometry::Size;
use taffy::math::{clamp_value, maybe_clamp, maybe_max, maybe_min, non_negative};
use taffy::scalar::Scalar;

fn s(x: f32) -> Scalar {
    Scalar::from_bits(x.to_bits())
}

fn o(x: f32) -> Option<Scalar> {
    Some(s(x))
}

#[test]
fn unset_values_stay_unset() {
    assert_eq!(maybe_min(None, o(1.0)), None);
    assert_eq!(maybe_max(None, o(1.0)), None);
    assert_eq!(maybe_clamp(None, o(1.0), o(2.0)), None);
}

#[test]
fn unset_bounds_bound_nothing() {
    assert_eq!(maybe_min(o(5.0), None), o(5.0));
    assert_eq!(maybe_max(o(5.0), None), o(5.0));
    assert_eq!(maybe_clamp(o(5.0), None, None), o(5.0));
    assert_eq!(clamp_value(s(5.0), None, None), s(5.0));
}

#[test]
fn bounds_apply() {
    assert_eq!(maybe_min(o(5.0), o(3.0)), o(3.0));
    assert_eq!(maybe_min(o(5.0), o(7.0)), o(5.0));
    assert_eq!(maybe_max(o(5.0), o(3.0)), o(5.0));
    assert_eq!(maybe_max(o(5.0), o(7.0)), o(7.0));
    assert_eq!(maybe_clamp(o(5.0), o(1.0), o(3.0)), o(3.0));
    assert_eq!(maybe_clamp(o(0.5), o(1.0), o(3.0)), o(1.0));
    assert_eq!(maybe_clamp(o(2.0), o(1.0), o(3.0)), o(2.0));
    assert_eq!(maybe_clamp(o(5.0), None, o(3.0)), o(3.0));
    assert_eq!(maybe_clamp(o(0.5), o(1.0), None), o(1.0));
}

#[test]
fn the_minimum_decides_where_the_maximum_lies_below_it() {
    for x in [-10.0f32, 0.0, 5.0, 50.0, 75.0, 100.0, 1000.0] {
        assert_eq!(maybe_clamp(o(x), o(100.0), o(50.0)), o(100.0), "{x}");
        assert_eq!(clamp_value(s(x), o(100.0), o(50.0)), s(100.0), "{x}");
    }
}

#[test]
fn sizes_are_bounded_axis_by_axis() {
    let size = Size { width: o(50.0), height: None };
    let min = Size { width: o(100.0), height: o(100.0) };
    let max = Size { width: None, height: None };
    assert_eq!(size.maybe_clamp(min, max), Size { width: o(100.0), height: None });
    let size = Size { width: s(50.0), height: s(150.0) };
    let max = Size { width: None, height: o(120.0) };
    assert_eq!(size.maybe_clamp(min, max), Size { width: s(100.0), height: s(120.0) });
    let floor = Size { width: o(60.0), height: o(10.0) };
    assert_eq!(
        Size { width: o(50.0), height: o(50.0) }.maybe_max(floor),
        Size { width: o(60.0), height: o(50.0) }
    );
    assert_eq!(Size::<Scalar>::zero(), Size { width: s(0.0), height: s(0.0) });
}

#[test]
fn sizes_fall_back_axis_by_axis() {
    let a: Size<Option<Scalar>> = Size { width: o(1.0), height: None };
    let b = Size { width: o(2.0), height: o(3.0) };
    assert_eq!(a.or(b), Size { width: o(1.0), height: o(3.0) });
    assert_eq!(a.unwrap_or(Size { width: s(7.0), height: s(8.0) }), Size { width: s(1.0), height: s(8.0) });
    assert!(!a.both_axis_defined());
    assert!(b.both_axis_defined());
    assert_eq!(Size::<Option<Scalar>>::none(), Size { width: None, height: None });
    assert_eq!(Size { width: s(1.0), height: s(2.0) }.map_some(), Size { width: o(1.0), height: o(2.0) });
}

#[test]
fn invalid_lengths_count_as_zero() {
    assert_eq!(non_negative(s(5.0)), s(5.0));
    assert_eq!(non_negative(s(-5.0)), s(0.0));
    assert_eq!(non_negative(s(-0.0)), s(0.0));
    assert_eq!(non_negative(s(f32::NAN)), s(0.0));
    assert_eq!(non_negative(s(f32::INFINITY)), s(f32::INFINITY));
}
