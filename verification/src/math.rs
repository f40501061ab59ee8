//! Bounding a length that may be unset by bounds that may be unset.

use crate::geometry::{Point, Rect, Size};
use crate::scalar::Scalar;
use vstd::prelude::*;

verus! {

/// `value` bounded from above by `bound`, where each may be unset: an unset
/// value stays unset, an unset bound bounds nothing.
pub open spec fn min_of(value: Option<Scalar>, bound: Option<Scalar>) -> Option<Scalar> {
    match (value, bound) {
        (Some(v), Some(b)) => Some(v.smaller(b)),
        (Some(v), None) => Some(v),
        (None, _) => None,
    }
}

/// `value` bounded from below by `bound`, where each may be unset.
pub open spec fn max_of(value: Option<Scalar>, bound: Option<Scalar>) -> Option<Scalar> {
    match (value, bound) {
        (Some(v), Some(b)) => Some(v.larger(b)),
        (Some(v), None) => Some(v),
        (None, _) => None,
    }
}

/// `value` bounded by `max` from above and then by `min` from below, so that
/// the lower bound decides where the two conflict.
pub open spec fn clamp_of(value: Option<Scalar>, min: Option<Scalar>, max: Option<Scalar>) -> Option<
    Scalar,
> {
    max_of(min_of(value, max), min)
}

/// A set length bounded by `max` from above and then by `min` from below.
pub open spec fn clamp_value_of(value: Scalar, min: Option<Scalar>, max: Option<Scalar>) -> Scalar {
    clamp_of(Some(value), min, max)->0
}

/// `value` bounded from above by `bound`.
pub fn maybe_min(value: Option<Scalar>, bound: Option<Scalar>) -> (out: Option<Scalar>)
    ensures
        out == min_of(value, bound),
{
    match (value, bound) {
        (Some(v), Some(b)) => Some(v.min(b)),
        (Some(v), None) => Some(v),
        (None, _) => None,
    }
}

/// `value` bounded from below by `bound`.
pub fn maybe_max(value: Option<Scalar>, bound: Option<Scalar>) -> (out: Option<Scalar>)
    ensures
        out == max_of(value, bound),
{
    match (value, bound) {
        (Some(v), Some(b)) => Some(v.max(b)),
        (Some(v), None) => Some(v),
        (None, _) => None,
    }
}

/// `value` bounded by `max` and then by `min`: where `max` is below `min`,
/// `min` decides.
pub fn maybe_clamp(value: Option<Scalar>, min: Option<Scalar>, max: Option<Scalar>) -> (out: Option<
    Scalar,
>)
    ensures
        out == clamp_of(value, min, max),
{
    maybe_max(maybe_min(value, max), min)
}

/// A set length bounded by `max` and then by `min`.
pub fn clamp_value(value: Scalar, min: Option<Scalar>, max: Option<Scalar>) -> (out: Scalar)
    ensures
        out == clamp_value_of(value, min, max),
{
    match maybe_clamp(Some(value), min, max) {
        Some(v) => v,
        None => value,
    }
}

impl Size<Option<Scalar>> {
    /// Each axis bounded by the same axis of `min` and `max`.
    pub open spec fn clamped(self, min: Size<Option<Scalar>>, max: Size<Option<Scalar>>) -> Size<
        Option<Scalar>,
    > {
        Size {
            width: clamp_of(self.width, min.width, max.width),
            height: clamp_of(self.height, min.height, max.height),
        }
    }

    /// Each axis bounded by the same axis of `min` and `max`.
    pub fn maybe_clamp(self, min: Size<Option<Scalar>>, max: Size<Option<Scalar>>) -> (out: Size<
        Option<Scalar>,
    >)
        ensures
            out == self.clamped(min, max),
    {
        Size {
            width: maybe_clamp(self.width, min.width, max.width),
            height: maybe_clamp(self.height, min.height, max.height),
        }
    }

    /// Each axis bounded from below by the same axis of `bound`.
    pub fn maybe_max(self, bound: Size<Option<Scalar>>) -> (out: Size<Option<Scalar>>)
        ensures
            out.width == max_of(self.width, bound.width),
            out.height == max_of(self.height, bound.height),
    {
        Size {
            width: maybe_max(self.width, bound.width),
            height: maybe_max(self.height, bound.height),
        }
    }
}

impl Size<Scalar> {
    /// Each axis bounded by the same axis of `min` and `max`.
    pub fn maybe_clamp(self, min: Size<Option<Scalar>>, max: Size<Option<Scalar>>) -> (out: Size<
        Scalar,
    >)
        ensures
            out.width == clamp_value_of(self.width, min.width, max.width),
            out.height == clamp_value_of(self.height, min.height, max.height),
    {
        Size {
            width: clamp_value(self.width, min.width, max.width),
            height: clamp_value(self.height, min.height, max.height),
        }
    }

    /// Zero on both axes.
    pub fn zero() -> (size: Size<Scalar>)
        ensures
            size.width == Scalar::zero_value(),
            size.height == Scalar::zero_value(),
    {
        Size { width: Scalar(0), height: Scalar(0) }
    }
}

/// A length as far as it is valid: a length that is negative or not a
/// number counts as zero.
pub open spec fn valid_length_of(value: Scalar) -> Scalar {
    if Scalar::zero_value().less(value) {
        value
    } else {
        Scalar::zero_value()
    }
}

/// A length as far as it is valid: a length that is negative or not a
/// number counts as zero.
pub fn non_negative(value: Scalar) -> (out: Scalar)
    ensures
        out == valid_length_of(value),
        Scalar::zero_value().less_eq(out),
        value.finite() ==> out.finite(),
{
    if value.gt(Scalar(0)) {
        value
    } else {
        Scalar(0)
    }
}

/// A length bounded by a minimum and a maximum lies between them, where the
/// minimum does not exceed the maximum.
pub proof fn lemma_clamp_within_bounds(value: Scalar, min: Scalar, max: Scalar)
    requires
        !value.nan(),
        min.less_eq(max),
    ensures
        min.less_eq(clamp_value_of(value, Some(min), Some(max))),
        clamp_value_of(value, Some(min), Some(max)).less_eq(max),
{
}

/// Where the maximum lies below the minimum, the minimum decides: every
/// length is bounded to it.
pub proof fn lemma_min_overrides_max(value: Scalar, min: Scalar, max: Scalar)
    requires
        !value.nan(),
        max.less(min),
    ensures
        clamp_value_of(value, Some(min), Some(max)) == min,
        clamp_of(Some(value), Some(min), Some(max)) == Some(min),
{
}

/// Without bounds a length stays what it is.
pub proof fn lemma_clamp_without_bounds(value: Option<Scalar>)
    ensures
        clamp_of(value, None, None) == value,
{
}

/// A length that lies within its bounds keeps its value (a zero may change
/// its sign where a bound is the other zero).
pub proof fn lemma_clamp_inside_keeps_value(value: Scalar, min: Scalar, max: Scalar)
    requires
        min.less_eq(value),
        value.less_eq(max),
    ensures
        clamp_value_of(value, Some(min), Some(max)).same(value),
        min.less(value) && value.less(max) ==> clamp_value_of(value, Some(min), Some(max)) == value,
{
}

/// `value - amount` where the value is set.
pub open spec fn less_of(value: Option<Scalar>, amount: Scalar) -> Option<Scalar> {
    match value {
        Some(v) => Some(v.difference(amount)),
        None => None,
    }
}

/// `value - amount` where the value is set.
pub fn maybe_sub(value: Option<Scalar>, amount: Scalar) -> (out: Option<Scalar>)
    ensures
        out == less_of(value, amount),
{
    match value {
        Some(v) => Some(v.minus(amount)),
        None => None,
    }
}

/// `value + amount` where the value is set.
pub fn maybe_add(value: Option<Scalar>, amount: Scalar) -> (out: Option<Scalar>)
    ensures
        out == (match value {
            Some(v) => Some(v.sum(amount)),
            None => None,
        }),
{
    match value {
        Some(v) => Some(v.plus(amount)),
        None => None,
    }
}

/// `value - amount` where the amount is set, `value` where it is not.
pub open spec fn less_where_set(value: Scalar, amount: Option<Scalar>) -> Scalar {
    match amount {
        Some(a) => value.difference(a),
        None => value,
    }
}

/// `value - amount` where the amount is set, `value` where it is not.
pub fn sub_where_set(value: Scalar, amount: Option<Scalar>) -> (out: Scalar)
    ensures
        out == less_where_set(value, amount),
{
    match amount {
        Some(a) => value.minus(a),
        None => value,
    }
}

impl Rect<Scalar> {
    /// Left and right together.
    pub open spec fn horizontal_sum(self) -> Scalar {
        self.left.sum(self.right)
    }

    /// Top and bottom together.
    pub open spec fn vertical_sum(self) -> Scalar {
        self.top.sum(self.bottom)
    }

    /// Edge by edge, the sum of the two.
    pub open spec fn added(self, other: Rect<Scalar>) -> Rect<Scalar> {
        Rect {
            left: self.left.sum(other.left),
            right: self.right.sum(other.right),
            top: self.top.sum(other.top),
            bottom: self.bottom.sum(other.bottom),
        }
    }

    /// What the edges take along the two axes.
    pub open spec fn axis_sums(self) -> Size<Scalar> {
        Size { width: self.horizontal_sum(), height: self.vertical_sum() }
    }

    /// Left and right together.
    pub fn horizontal_axis_sum(&self) -> (sum: Scalar)
        ensures
            sum == self.horizontal_sum(),
    {
        self.left.plus(self.right)
    }

    /// Top and bottom together.
    pub fn vertical_axis_sum(&self) -> (sum: Scalar)
        ensures
            sum == self.vertical_sum(),
    {
        self.top.plus(self.bottom)
    }

    /// What the edges take along the two axes.
    pub fn sum_axes(&self) -> (sums: Size<Scalar>)
        ensures
            sums == self.axis_sums(),
    {
        Size { width: self.horizontal_axis_sum(), height: self.vertical_axis_sum() }
    }

    /// Edge by edge, the sum of the two.
    pub fn plus(&self, other: &Rect<Scalar>) -> (sum: Rect<Scalar>)
        ensures
            sum == self.added(*other),
    {
        Rect {
            left: self.left.plus(other.left),
            right: self.right.plus(other.right),
            top: self.top.plus(other.top),
            bottom: self.bottom.plus(other.bottom),
        }
    }

    /// Zero on all edges.
    pub fn zero() -> (rect: Rect<Scalar>)
        ensures
            rect == (Rect {
                left: Scalar::zero_value(),
                right: Scalar::zero_value(),
                top: Scalar::zero_value(),
                bottom: Scalar::zero_value(),
            }),
    {
        Rect { left: Scalar(0), right: Scalar(0), top: Scalar(0), bottom: Scalar(0) }
    }
}

impl Size<Scalar> {
    /// Axis by axis, this size less the other.
    pub open spec fn reduced_by(self, other: Size<Scalar>) -> Size<Scalar> {
        Size {
            width: self.width.difference(other.width),
            height: self.height.difference(other.height),
        }
    }

    /// Axis by axis, this size less the other.
    pub fn minus(self, other: Size<Scalar>) -> (out: Size<Scalar>)
        ensures
            out == self.reduced_by(other),
    {
        Size { width: self.width.minus(other.width), height: self.height.minus(other.height) }
    }

    /// Axis by axis, the sum of the two.
    pub fn plus(self, other: Size<Scalar>) -> (out: Size<Scalar>)
        ensures
            out.width == self.width.sum(other.width),
            out.height == self.height.sum(other.height),
    {
        Size { width: self.width.plus(other.width), height: self.height.plus(other.height) }
    }
}

impl Size<Option<Scalar>> {
    /// Axis by axis, this size less the other where it is set.
    pub open spec fn reduced_by(self, other: Size<Scalar>) -> Size<Option<Scalar>> {
        Size { width: less_of(self.width, other.width), height: less_of(self.height, other.height) }
    }

    /// Axis by axis, this size less the other where it is set.
    pub fn maybe_sub(self, other: Size<Scalar>) -> (out: Size<Option<Scalar>>)
        ensures
            out == self.reduced_by(other),
    {
        Size {
            width: maybe_sub(self.width, other.width),
            height: maybe_sub(self.height, other.height),
        }
    }
}

impl Point<Scalar> {
    /// Axis by axis, the sum of the two.
    pub fn plus(self, other: Point<Scalar>) -> (out: Point<Scalar>)
        ensures
            out.x == self.x.sum(other.x),
            out.y == self.y.sum(other.y),
    {
        Point { x: self.x.plus(other.x), y: self.y.plus(other.y) }
    }
}

} // verus!
