//! Lengths as a style states them, and the space that a node is offered.

use crate::geometry::{Rect, Size};
use crate::scalar::Scalar;
use std::sync::Arc;
use vstd::prelude::*;
use vstd::std_specs::convert::FromSpecImpl;

verus! {

/// A length, stated outright, as a fraction of the parent's, or as an expression.
#[derive(Clone, PartialEq, Debug)]
pub enum LengthPercentage {
    /// A length in the caller's units.
    Length(Scalar),
    /// A fraction of the length that the context supplies.
    Percent(Scalar),
    /// An expression over lengths and fractions.
    Calculation(Calc),
}

/// A length that may also be left to the algorithm.
#[derive(Clone, PartialEq, Debug)]
pub enum LengthPercentageAuto {
    /// A length in the caller's units.
    Length(Scalar),
    /// A fraction of the length that the context supplies.
    Percent(Scalar),
    /// An expression over lengths and fractions.
    Calculation(Calc),
    /// Left to the layout algorithm.
    Auto,
}

/// The size of a box along one axis.
#[derive(Clone, PartialEq, Debug)]
pub enum Dimension {
    /// A length in the caller's units.
    Length(Scalar),
    /// A fraction of the length that the context supplies.
    Percent(Scalar),
    /// An expression over lengths and fractions.
    Calculation(Calc),
    /// Left to the layout algorithm.
    Auto,
}

/// A shared, immutable expression over lengths.
#[derive(Clone, Debug, PartialEq)]
pub struct Calc(pub Arc<CalcNode>);

/// A node of an expression over lengths.
#[derive(Debug, PartialEq)]
pub enum CalcNode {
    /// A length or a fraction.
    Leaf(LengthPercentage),
    /// The sum of two expressions.
    Sum(Box<CalcNode>, Box<CalcNode>),
    /// The first expression less the second.
    Difference(Box<CalcNode>, Box<CalcNode>),
    /// The product of two expressions.
    Product(Box<CalcNode>, Box<CalcNode>),
    /// The first expression divided by the second.
    Quotient(Box<CalcNode>, Box<CalcNode>),
    /// The expression with the opposite sign.
    Negate(Box<CalcNode>),
    /// The smallest of the expressions.
    Min(Vec<CalcNode>),
    /// The largest of the expressions.
    Max(Vec<CalcNode>),
    /// The middle expression, kept at or above `min` and, where that allows, at or below `max`.
    Clamp { min: Box<CalcNode>, center: Box<CalcNode>, max: Box<CalcNode> },
    /// `value` rounded to a multiple of `interval`.
    Round { strategy: RoundingStrategy, value: Box<CalcNode>, interval: Box<CalcNode> },
}

/// Which multiple of the interval a rounding picks.
#[derive(Debug, Copy, Clone, PartialEq, Eq, Structural, Default)]
pub enum RoundingStrategy {
    /// The nearest multiple at or above the value.
    Up,
    /// The nearest multiple at or below the value.
    Down,
    /// The nearest multiple; the upper one where both are as near.
    #[default]
    Nearest,
    /// The nearest multiple between the value and zero.
    ToZero,
}

/// The space that a node is offered along one axis.
#[derive(Copy, Clone, Debug, PartialEq, Eq, Structural)]
pub enum AvailableSpace {
    /// This much space.
    Definite(Scalar),
    /// No fixed amount: the node is to take as little as its content allows.
    MinContent,
    /// No fixed amount: the node is to take as much as its content asks for.
    MaxContent,
}

impl LengthPercentage {
    /// The length zero.
    pub fn zero() -> (v: LengthPercentage)
        ensures
            v == LengthPercentage::Length(Scalar::zero_value()),
    {
        LengthPercentage::Length(Scalar(0))
    }

    /// A length in the caller's units.
    pub fn from_length(value: Scalar) -> (v: LengthPercentage)
        ensures
            v == LengthPercentage::Length(value),
    {
        LengthPercentage::Length(value)
    }

    /// A fraction of the context's length.
    pub fn from_percent(percent: Scalar) -> (v: LengthPercentage)
        ensures
            v == LengthPercentage::Percent(percent),
    {
        LengthPercentage::Percent(percent)
    }
}

impl LengthPercentageAuto {
    /// The length zero.
    pub fn zero() -> (v: LengthPercentageAuto)
        ensures
            v == LengthPercentageAuto::Length(Scalar::zero_value()),
    {
        LengthPercentageAuto::Length(Scalar(0))
    }

    /// The value that leaves the length to the algorithm.
    pub fn auto() -> (v: LengthPercentageAuto)
        ensures
            v == LengthPercentageAuto::Auto,
    {
        LengthPercentageAuto::Auto
    }

    /// A length in the caller's units.
    pub fn from_length(value: Scalar) -> (v: LengthPercentageAuto)
        ensures
            v == LengthPercentageAuto::Length(value),
    {
        LengthPercentageAuto::Length(value)
    }

    /// A fraction of the context's length.
    pub fn from_percent(percent: Scalar) -> (v: LengthPercentageAuto)
        ensures
            v == LengthPercentageAuto::Percent(percent),
    {
        LengthPercentageAuto::Percent(percent)
    }

    /// The same length, in the type that may also be `Auto`.
    pub open spec fn of_length_percentage(input: LengthPercentage) -> LengthPercentageAuto {
        match input {
            LengthPercentage::Length(value) => LengthPercentageAuto::Length(value),
            LengthPercentage::Percent(value) => LengthPercentageAuto::Percent(value),
            LengthPercentage::Calculation(calc) => LengthPercentageAuto::Calculation(calc),
        }
    }

    /// The same length, in the type that may also be `Auto`.
    pub fn from_length_percentage(input: LengthPercentage) -> (v: LengthPercentageAuto)
        ensures
            v == LengthPercentageAuto::of_length_percentage(input),
    {
        match input {
            LengthPercentage::Length(value) => LengthPercentageAuto::Length(value),
            LengthPercentage::Percent(value) => LengthPercentageAuto::Percent(value),
            LengthPercentage::Calculation(calc) => LengthPercentageAuto::Calculation(calc),
        }
    }

    /// Whether the length is left to the algorithm.
    pub fn is_auto(&self) -> (auto: bool)
        ensures
            auto == (*self is Auto),
    {
        matches!(self, LengthPercentageAuto::Auto)
    }

    /// The length where it is stated outright, whatever the context.
    pub fn definite_length(&self) -> (length: Option<Scalar>)
        ensures
            length == (match *self {
                LengthPercentageAuto::Length(value) => Some(value),
                _ => None,
            }),
    {
        match self {
            LengthPercentageAuto::Length(value) => Some(*value),
            _ => None,
        }
    }
}

impl Dimension {
    /// The length zero.
    pub fn zero() -> (v: Dimension)
        ensures
            v == Dimension::Length(Scalar::zero_value()),
    {
        Dimension::Length(Scalar(0))
    }

    /// The value that leaves the size to the algorithm.
    pub fn auto() -> (v: Dimension)
        ensures
            v == Dimension::Auto,
    {
        Dimension::Auto
    }

    /// A length in the caller's units.
    pub fn from_length(value: Scalar) -> (v: Dimension)
        ensures
            v == Dimension::Length(value),
    {
        Dimension::Length(value)
    }

    /// A fraction of the context's length.
    pub fn from_percent(percent: Scalar) -> (v: Dimension)
        ensures
            v == Dimension::Percent(percent),
    {
        Dimension::Percent(percent)
    }

    /// The same length as a size.
    pub open spec fn of_length_percentage(input: LengthPercentage) -> Dimension {
        match input {
            LengthPercentage::Length(value) => Dimension::Length(value),
            LengthPercentage::Percent(value) => Dimension::Percent(value),
            LengthPercentage::Calculation(calc) => Dimension::Calculation(calc),
        }
    }

    /// The same length as a size.
    pub fn from_length_percentage(input: LengthPercentage) -> (v: Dimension)
        ensures
            v == Dimension::of_length_percentage(input),
    {
        match input {
            LengthPercentage::Length(value) => Dimension::Length(value),
            LengthPercentage::Percent(value) => Dimension::Percent(value),
            LengthPercentage::Calculation(calc) => Dimension::Calculation(calc),
        }
    }

    /// The same length as a size; `Auto` stays `Auto`.
    pub open spec fn of_length_percentage_auto(input: LengthPercentageAuto) -> Dimension {
        match input {
            LengthPercentageAuto::Length(value) => Dimension::Length(value),
            LengthPercentageAuto::Percent(value) => Dimension::Percent(value),
            LengthPercentageAuto::Calculation(calc) => Dimension::Calculation(calc),
            LengthPercentageAuto::Auto => Dimension::Auto,
        }
    }

    /// The same length as a size; `Auto` stays `Auto`.
    pub fn from_length_percentage_auto(input: LengthPercentageAuto) -> (v: Dimension)
        ensures
            v == Dimension::of_length_percentage_auto(input),
    {
        match input {
            LengthPercentageAuto::Length(value) => Dimension::Length(value),
            LengthPercentageAuto::Percent(value) => Dimension::Percent(value),
            LengthPercentageAuto::Calculation(calc) => Dimension::Calculation(calc),
            LengthPercentageAuto::Auto => Dimension::Auto,
        }
    }

    /// The length where the size is stated outright, and nothing otherwise.
    pub open spec fn length_of(self) -> Option<Scalar> {
        match self {
            Dimension::Length(value) => Some(value),
            _ => None,
        }
    }

    /// The length where the size is stated outright, and nothing otherwise.
    pub fn into_option(&self) -> (length: Option<Scalar>)
        ensures
            length == self.length_of(),
    {
        match self {
            Dimension::Length(value) => Some(*value),
            _ => None,
        }
    }

    /// Whether the size is left to the algorithm.
    pub fn is_auto(&self) -> (auto: bool)
        ensures
            auto == (*self is Auto),
    {
        matches!(self, Dimension::Auto)
    }
}

impl From<LengthPercentage> for LengthPercentageAuto {
    fn from(input: LengthPercentage) -> (v: LengthPercentageAuto) {
        LengthPercentageAuto::from_length_percentage(input)
    }
}

impl FromSpecImpl<LengthPercentage> for LengthPercentageAuto {
    open spec fn obeys_from_spec() -> bool {
        true
    }

    open spec fn from_spec(input: LengthPercentage) -> LengthPercentageAuto {
        LengthPercentageAuto::of_length_percentage(input)
    }
}

impl From<LengthPercentage> for Dimension {
    fn from(input: LengthPercentage) -> (v: Dimension) {
        Dimension::from_length_percentage(input)
    }
}

impl FromSpecImpl<LengthPercentage> for Dimension {
    open spec fn obeys_from_spec() -> bool {
        true
    }

    open spec fn from_spec(input: LengthPercentage) -> Dimension {
        Dimension::of_length_percentage(input)
    }
}

impl From<LengthPercentageAuto> for Dimension {
    fn from(input: LengthPercentageAuto) -> (v: Dimension) {
        Dimension::from_length_percentage_auto(input)
    }
}

impl FromSpecImpl<LengthPercentageAuto> for Dimension {
    open spec fn obeys_from_spec() -> bool {
        true
    }

    open spec fn from_spec(input: LengthPercentageAuto) -> Dimension {
        Dimension::of_length_percentage_auto(input)
    }
}

impl From<Scalar> for AvailableSpace {
    fn from(value: Scalar) -> (space: AvailableSpace) {
        AvailableSpace::Definite(value)
    }
}

impl FromSpecImpl<Scalar> for AvailableSpace {
    open spec fn obeys_from_spec() -> bool {
        true
    }

    open spec fn from_spec(value: Scalar) -> AvailableSpace {
        AvailableSpace::Definite(value)
    }
}

impl From<Option<Scalar>> for AvailableSpace {
    fn from(option: Option<Scalar>) -> (space: AvailableSpace) {
        AvailableSpace::from_option(option)
    }
}

impl FromSpecImpl<Option<Scalar>> for AvailableSpace {
    open spec fn obeys_from_spec() -> bool {
        true
    }

    open spec fn from_spec(option: Option<Scalar>) -> AvailableSpace {
        AvailableSpace::of_option(option)
    }
}

impl Rect<Dimension> {
    /// The four edges as lengths.
    pub fn from_length(start: Scalar, end: Scalar, top: Scalar, bottom: Scalar) -> (rect: Rect<
        Dimension,
    >)
        ensures
            rect.left == Dimension::Length(start),
            rect.right == Dimension::Length(end),
            rect.top == Dimension::Length(top),
            rect.bottom == Dimension::Length(bottom),
    {
        Rect {
            left: Dimension::Length(start),
            right: Dimension::Length(end),
            top: Dimension::Length(top),
            bottom: Dimension::Length(bottom),
        }
    }

    /// The four edges as fractions.
    pub fn from_percent(start: Scalar, end: Scalar, top: Scalar, bottom: Scalar) -> (rect: Rect<
        Dimension,
    >)
        ensures
            rect.left == Dimension::Percent(start),
            rect.right == Dimension::Percent(end),
            rect.top == Dimension::Percent(top),
            rect.bottom == Dimension::Percent(bottom),
    {
        Rect {
            left: Dimension::Percent(start),
            right: Dimension::Percent(end),
            top: Dimension::Percent(top),
            bottom: Dimension::Percent(bottom),
        }
    }
}

impl CalcNode {
    /// The expression, shared.
    pub fn into_calc(self) -> (calc: Calc)
        ensures
            *calc.0 == self,
    {
        Calc(Arc::new(self))
    }
}

impl AvailableSpace {
    /// No space at all.
    pub fn zero() -> (space: AvailableSpace)
        ensures
            space == AvailableSpace::Definite(Scalar::zero_value()),
    {
        AvailableSpace::Definite(Scalar(0))
    }

    /// This much space.
    pub fn from_length(value: Scalar) -> (space: AvailableSpace)
        ensures
            space == AvailableSpace::Definite(value),
    {
        AvailableSpace::Definite(value)
    }

    /// The space that a length which may be unset stands for: unset means
    /// as much as the content asks for.
    pub open spec fn of_option(option: Option<Scalar>) -> AvailableSpace {
        match option {
            Some(value) => AvailableSpace::Definite(value),
            None => AvailableSpace::MaxContent,
        }
    }

    /// The space that a length which may be unset stands for.
    pub fn from_option(option: Option<Scalar>) -> (space: AvailableSpace)
        ensures
            space == AvailableSpace::of_option(option),
    {
        match option {
            Some(value) => AvailableSpace::Definite(value),
            None => AvailableSpace::MaxContent,
        }
    }

    /// The amount where there is one.
    pub open spec fn amount(self) -> Option<Scalar> {
        match self {
            AvailableSpace::Definite(value) => Some(value),
            _ => None,
        }
    }

    /// Whether there is a fixed amount.
    pub fn is_definite(self) -> (definite: bool)
        ensures
            definite == (self is Definite),
    {
        matches!(self, AvailableSpace::Definite(_))
    }

    /// The amount where there is one.
    pub fn into_option(self) -> (amount: Option<Scalar>)
        ensures
            amount == self.amount(),
    {
        match self {
            AvailableSpace::Definite(value) => Some(value),
            _ => None,
        }
    }

    /// The amount, or `default` where there is none.
    pub fn unwrap_or(self, default: Scalar) -> (amount: Scalar)
        ensures
            amount == (match self {
                AvailableSpace::Definite(value) => value,
                _ => default,
            }),
    {
        match self {
            AvailableSpace::Definite(value) => value,
            _ => default,
        }
    }

    /// The amount of a definite space.
    pub fn unwrap(self) -> (amount: Scalar)
        requires
            self is Definite,
        ensures
            self == AvailableSpace::Definite(amount),
    {
        match self {
            AvailableSpace::Definite(value) => value,
            _ => Scalar(0),
        }
    }

    /// This space where it is definite, else `default`.
    pub fn or(self, default: AvailableSpace) -> (space: AvailableSpace)
        ensures
            space == (if self is Definite { self } else { default }),
    {
        match self {
            AvailableSpace::Definite(_) => self,
            _ => default,
        }
    }

    /// This space where it is definite, else what `default_cb` gives; the
    /// callback is called only in the second case.
    pub fn or_else<F: FnOnce() -> AvailableSpace>(self, default_cb: F) -> (space: AvailableSpace)
        requires
            !(self is Definite) ==> call_requires(default_cb, ()),
        ensures
            self is Definite ==> space == self,
            !(self is Definite) ==> call_ensures(default_cb, (), space),
    {
        match self {
            AvailableSpace::Definite(_) => self,
            _ => default_cb(),
        }
    }

    /// The amount, or what `default_cb` gives where there is none; the
    /// callback is called only in the second case.
    pub fn unwrap_or_else<F: FnOnce() -> Scalar>(self, default_cb: F) -> (amount: Scalar)
        requires
            !(self is Definite) ==> call_requires(default_cb, ()),
        ensures
            self is Definite ==> self == AvailableSpace::Definite(amount),
            !(self is Definite) ==> call_ensures(default_cb, (), amount),
    {
        match self {
            AvailableSpace::Definite(value) => value,
            _ => default_cb(),
        }
    }

    /// The definite space `value` where one is given, else this space.
    pub open spec fn set_to(self, value: Option<Scalar>) -> AvailableSpace {
        match value {
            Some(value) => AvailableSpace::Definite(value),
            None => self,
        }
    }

    /// The definite space `value` where one is given, else this space.
    pub fn maybe_set(self, value: Option<Scalar>) -> (space: AvailableSpace)
        ensures
            space == self.set_to(value),
    {
        match value {
            Some(value) => AvailableSpace::Definite(value),
            None => self,
        }
    }

    /// A definite space with `map_function` applied to its amount; an
    /// indefinite one unchanged, and the function not called.
    pub fn map_definite_value<F: FnOnce(Scalar) -> Scalar>(self, map_function: F) -> (space:
        AvailableSpace)
        requires
            self is Definite ==> call_requires(map_function, (self->Definite_0,)),
        ensures
            self is Definite ==> space is Definite && call_ensures(
                map_function,
                (self->Definite_0,),
                space->Definite_0,
            ),
            !(self is Definite) ==> space == self,
    {
        match self {
            AvailableSpace::Definite(value) => AvailableSpace::Definite(map_function(value)),
            _ => self,
        }
    }

    /// Whether the two spaces are equal, two definite ones counting as
    /// equal where their amounts differ by less than the machine epsilon.
    pub open spec fn roughly_equal(self, other: AvailableSpace) -> bool {
        match (self, other) {
            (AvailableSpace::Definite(a), AvailableSpace::Definite(b)) => a.roughly(b),
            (AvailableSpace::MinContent, AvailableSpace::MinContent) => true,
            (AvailableSpace::MaxContent, AvailableSpace::MaxContent) => true,
            _ => false,
        }
    }

    /// Whether the two spaces are equal, two definite ones counting as
    /// equal where their amounts differ by less than the machine epsilon.
    pub fn is_roughly_equal(self, other: AvailableSpace) -> (equal: bool)
        ensures
            equal == self.roughly_equal(other),
    {
        match (self, other) {
            (AvailableSpace::Definite(a), AvailableSpace::Definite(b)) => a.is_roughly(b),
            (AvailableSpace::MinContent, AvailableSpace::MinContent) => true,
            (AvailableSpace::MaxContent, AvailableSpace::MaxContent) => true,
            _ => false,
        }
    }
}

impl Size<AvailableSpace> {
    /// The amounts of the two axes, where there are any.
    pub fn into_options(self) -> (size: Size<Option<Scalar>>)
        ensures
            size.width == self.width.amount(),
            size.height == self.height.amount(),
    {
        Size { width: self.width.into_option(), height: self.height.into_option() }
    }

    /// Each axis made definite where `value` gives an amount for it.
    pub fn maybe_set(self, value: Size<Option<Scalar>>) -> (size: Size<AvailableSpace>)
        ensures
            size.width == self.width.set_to(value.width),
            size.height == self.height.set_to(value.height),
    {
        Size { width: self.width.maybe_set(value.width), height: self.height.maybe_set(value.height) }
    }

    /// As much as the content asks for, on both axes.
    pub fn max_content() -> (size: Size<AvailableSpace>)
        ensures
            size.width is MaxContent,
            size.height is MaxContent,
    {
        Size { width: AvailableSpace::MaxContent, height: AvailableSpace::MaxContent }
    }

    /// As little as the content allows, on both axes.
    pub fn min_content() -> (size: Size<AvailableSpace>)
        ensures
            size.width is MinContent,
            size.height is MinContent,
    {
        Size { width: AvailableSpace::MinContent, height: AvailableSpace::MinContent }
    }
}

/// The smallest of `values`, taken from the first on; zero if there are none.
pub open spec fn smallest_of(values: Seq<Scalar>) -> Scalar
    decreases values.len(),
{
    if values.len() == 0 {
        Scalar::zero_value()
    } else if values.len() == 1 {
        values[0]
    } else {
        smallest_of(values.drop_last()).smaller(values.last())
    }
}

/// The largest of `values`, taken from the first on; zero if there are none.
pub open spec fn largest_of(values: Seq<Scalar>) -> Scalar
    decreases values.len(),
{
    if values.len() == 0 {
        Scalar::zero_value()
    } else if values.len() == 1 {
        values[0]
    } else {
        largest_of(values.drop_last()).larger(values.last())
    }
}

/// What rounding `value` to a multiple of `interval` gives where no
/// arithmetic is needed to tell, and nothing where it is:
///
/// - an interval of zero gives what is not a number;
/// - an infinite value stays what it is if the interval is infinite too,
///   and else gives what is not a number;
/// - an infinite interval has the multiples zero and infinity only:
///   rounding up gives infinity for a value with positive sign that is not
///   zero, rounding down negative infinity for a value with negative sign
///   that is not zero, and everything else the zero with the sign of the
///   value.
pub open spec fn rounded_without_arithmetic(
    strategy: RoundingStrategy,
    value: Scalar,
    interval: Scalar,
) -> Option<Scalar> {
    if interval.same(Scalar::zero_value()) {
        Some(Scalar(0x7fc0_0000))
    } else if value.infinite() {
        if interval.infinite() {
            Some(value)
        } else {
            Some(Scalar(0x7fc0_0000))
        }
    } else if interval.infinite() {
        let signed_zero = if value.sign_negative() {
            Scalar(crate::scalar::SIGN_BIT)
        } else {
            Scalar(0)
        };
        Some(
            match strategy {
                RoundingStrategy::Up => if !value.sign_negative() && !value.same(
                    Scalar::zero_value(),
                ) {
                    Scalar(crate::scalar::INFINITY_BITS)
                } else {
                    signed_zero
                },
                RoundingStrategy::Down => if value.sign_negative() && !value.same(
                    Scalar::zero_value(),
                ) {
                    Scalar(0xff80_0000)
                } else {
                    signed_zero
                },
                _ => signed_zero,
            },
        )
    } else {
        None
    }
}

/// Which of the two multiples next to a value a rounding picks: `lower`,
/// at or below the value, or `upper`, at or above it. `to_lower` and
/// `to_upper` are the distances from the value to them. Rounding to the
/// nearest picks the lower one only where it is nearer; rounding towards
/// zero picks the one of smaller magnitude, and the upper one where both
/// are alike.
pub open spec fn rounded_to(
    strategy: RoundingStrategy,
    lower: Scalar,
    upper: Scalar,
    to_lower: Scalar,
    to_upper: Scalar,
) -> Scalar {
    match strategy {
        RoundingStrategy::Up => upper,
        RoundingStrategy::Down => lower,
        RoundingStrategy::Nearest => if to_lower.less(to_upper) {
            lower
        } else {
            upper
        },
        RoundingStrategy::ToZero => if lower.absolute().less(upper.absolute()) {
            lower
        } else {
            upper
        },
    }
}

impl CalcNode {
    /// The value of a `Negate` node, given that of its operand.
    pub fn negate(value: Scalar) -> (out: Scalar)
        ensures
            out == value.negated(),
    {
        value.neg()
    }

    /// The value of a `Min` node, given those of its operands.
    pub fn min_of(values: &Vec<Scalar>) -> (out: Scalar)
        ensures
            out == smallest_of(values@),
    {
        if values.len() == 0 {
            return Scalar(0);
        }
        let mut out = values[0];
        let mut i: usize = 1;
        assert(values@.take(1) =~= seq![values@[0]]);
        while i < values.len()
            invariant
                1 <= i <= values.len(),
                out == smallest_of(values@.take(i as int)),
            decreases values.len() - i,
        {
            assert(values@.take(i + 1).drop_last() =~= values@.take(i as int));
            out = out.min(values[i]);
            i += 1;
        }
        assert(values@.take(values@.len() as int) =~= values@);
        out
    }

    /// The value of a `Max` node, given those of its operands.
    pub fn max_of(values: &Vec<Scalar>) -> (out: Scalar)
        ensures
            out == largest_of(values@),
    {
        if values.len() == 0 {
            return Scalar(0);
        }
        let mut out = values[0];
        let mut i: usize = 1;
        assert(values@.take(1) =~= seq![values@[0]]);
        while i < values.len()
            invariant
                1 <= i <= values.len(),
                out == largest_of(values@.take(i as int)),
            decreases values.len() - i,
        {
            assert(values@.take(i + 1).drop_last() =~= values@.take(i as int));
            out = out.max(values[i]);
            i += 1;
        }
        assert(values@.take(values@.len() as int) =~= values@);
        out
    }

    /// The value of a `Clamp` node, given those of its operands: the
    /// smaller of `min` and the larger of `center` and `max`.
    pub fn clamp_of(min: Scalar, center: Scalar, max: Scalar) -> (out: Scalar)
        ensures
            out == min.smaller(center.larger(max)),
    {
        let max = center.max(max);
        min.min(max)
    }

    /// The value of a `Round` node where no arithmetic is needed to tell
    /// it, and nothing where the caller has to divide.
    pub fn round_without_arithmetic(strategy: RoundingStrategy, value: Scalar, interval: Scalar) -> (out:
        Option<Scalar>)
        ensures
            out == rounded_without_arithmetic(strategy, value, interval),
    {
        if interval.is_zero() && !interval.is_nan() {
            return Some(Scalar::not_a_number());
        }
        if value.is_infinite() {
            if interval.is_infinite() {
                return Some(value);
            }
            return Some(Scalar::not_a_number());
        }
        if interval.is_infinite() {
            let is_zero = value.is_zero();
            let signed_zero = if value.is_sign_negative() {
                Scalar(crate::scalar::SIGN_BIT)
            } else {
                Scalar(0)
            };
            return Some(
                match strategy {
                    RoundingStrategy::Up => if value.is_sign_positive() && !is_zero {
                        Scalar::infinity()
                    } else {
                        signed_zero
                    },
                    RoundingStrategy::Down => if value.is_sign_negative() && !is_zero {
                        Scalar::neg_infinity()
                    } else {
                        signed_zero
                    },
                    _ => signed_zero,
                },
            );
        }
        None
    }

    /// The value of a `Round` node, given the two multiples of the
    /// interval next to the value and the distances from the value to them.
    pub fn round_to(
        strategy: RoundingStrategy,
        lower: Scalar,
        upper: Scalar,
        to_lower: Scalar,
        to_upper: Scalar,
    ) -> (out: Scalar)
        ensures
            out == rounded_to(strategy, lower, upper, to_lower, to_upper),
    {
        match strategy {
            RoundingStrategy::Up => upper,
            RoundingStrategy::Down => lower,
            RoundingStrategy::Nearest => if to_lower.lt(to_upper) {
                lower
            } else {
                upper
            },
            RoundingStrategy::ToZero => if lower.abs().lt(upper.abs()) {
                lower
            } else {
                upper
            },
        }
    }
}

/// The values of the operands `nodes`, given the length that fractions refer to.
pub open spec fn values_of(nodes: Seq<CalcNode>, basis: Scalar) -> Seq<Scalar>
    decreases nodes, 0nat,
{
    if nodes.len() == 0 {
        Seq::empty()
    } else {
        values_of(nodes.drop_last(), basis).push(nodes.last().value(basis))
    }
}

impl LengthPercentage {
    /// The length that the value stands for, given the length that
    /// fractions refer to: a length itself, a fraction times the basis, an
    /// expression its value.
    pub open spec fn resolved(self, basis: Scalar) -> Scalar
        decreases self, 0nat,
    {
        match self {
            LengthPercentage::Length(length) => length,
            LengthPercentage::Percent(fraction) => fraction.product(basis),
            LengthPercentage::Calculation(calc) => calc.0.value(basis),
        }
    }

    /// The length that the value stands for, given the length that fractions refer to.
    pub fn resolve(&self, percentage_length: Scalar) -> (length: Scalar)
        ensures
            length == self.resolved(percentage_length),
        decreases self, 0nat,
    {
        match self {
            LengthPercentage::Length(length) => *length,
            LengthPercentage::Percent(fraction) => fraction.times(percentage_length),
            LengthPercentage::Calculation(calc) => calc.0.resolve(percentage_length),
        }
    }
}

impl Calc {
    /// The value of the expression, given the length that fractions refer to.
    pub fn resolve(&self, percentage_length: Scalar) -> (value: Scalar)
        ensures
            value == self.0.value(percentage_length),
    {
        self.0.resolve(percentage_length)
    }
}

impl CalcNode {
    /// The value of the expression, given the length that fractions refer
    /// to. Sums, differences, products and quotients are those of binary32
    /// arithmetic; `Min` and `Max` take the least and greatest operand;
    /// `Clamp` takes the smaller of its minimum and the larger of the rest;
    /// `Round` takes the multiple of the interval next to the value in the
    /// direction of the strategy.
    pub open spec fn value(self, basis: Scalar) -> Scalar
        decreases self, 1nat,
    {
        match self {
            CalcNode::Leaf(leaf) => leaf.resolved(basis),
            CalcNode::Sum(lhs, rhs) => lhs.value(basis).sum(rhs.value(basis)),
            CalcNode::Difference(lhs, rhs) => lhs.value(basis).difference(rhs.value(basis)),
            CalcNode::Product(lhs, rhs) => lhs.value(basis).product(rhs.value(basis)),
            CalcNode::Quotient(lhs, rhs) => lhs.value(basis).quotient(rhs.value(basis)),
            CalcNode::Negate(node) => node.value(basis).negated(),
            CalcNode::Min(nodes) => smallest_of(values_of(nodes@, basis)),
            CalcNode::Max(nodes) => largest_of(values_of(nodes@, basis)),
            CalcNode::Clamp { min, center, max } => min.value(basis).smaller(
                center.value(basis).larger(max.value(basis)),
            ),
            CalcNode::Round { strategy, value, interval } => rounded_value(
                strategy,
                value.value(basis),
                interval.value(basis),
            ),
        }
    }
}

impl CalcNode {
    /// The value of the expression, given the length that fractions refer to.
    pub fn resolve(&self, percentage_length: Scalar) -> (value: Scalar)
        ensures
            value == self.value(percentage_length),
        decreases self, 1nat,
    {
        match self {
            CalcNode::Leaf(leaf) => leaf.resolve(percentage_length),
            CalcNode::Sum(lhs, rhs) => lhs.resolve(percentage_length).plus(
                rhs.resolve(percentage_length),
            ),
            CalcNode::Difference(lhs, rhs) => lhs.resolve(percentage_length).minus(
                rhs.resolve(percentage_length),
            ),
            CalcNode::Product(lhs, rhs) => lhs.resolve(percentage_length).times(
                rhs.resolve(percentage_length),
            ),
            CalcNode::Quotient(lhs, rhs) => lhs.resolve(percentage_length).over(
                rhs.resolve(percentage_length),
            ),
            CalcNode::Negate(node) => node.resolve(percentage_length).neg(),
            CalcNode::Min(nodes) => {
                let values = CalcNode::resolve_all(nodes, percentage_length);
                CalcNode::min_of(&values)
            },
            CalcNode::Max(nodes) => {
                let values = CalcNode::resolve_all(nodes, percentage_length);
                CalcNode::max_of(&values)
            },
            CalcNode::Clamp { min, center, max } => {
                let min = min.resolve(percentage_length);
                let center = center.resolve(percentage_length);
                let max = max.resolve(percentage_length);
                CalcNode::clamp_of(min, center, max)
            },
            CalcNode::Round { strategy, value, interval } => {
                let value = value.resolve(percentage_length);
                let interval = interval.resolve(percentage_length);
                match CalcNode::round_without_arithmetic(*strategy, value, interval) {
                    Some(rounded) => rounded,
                    None => {
                        let quotient = value.over(interval);
                        let lower_bound = quotient.floor().times(interval);
                        let upper_bound = quotient.ceil().times(interval);
                        CalcNode::round_to(
                            *strategy,
                            lower_bound,
                            upper_bound,
                            value.minus(lower_bound),
                            upper_bound.minus(value),
                        )
                    },
                }
            },
        }
    }

    fn resolve_all(nodes: &Vec<CalcNode>, percentage_length: Scalar) -> (values: Vec<Scalar>)
        ensures
            values@ == values_of(nodes@, percentage_length),
        decreases nodes, 0nat,
    {
        let mut values: Vec<Scalar> = Vec::new();
        let mut i: usize = 0;
        assert(nodes@.take(0) =~= Seq::empty());
        while i < nodes.len()
            invariant
                i <= nodes.len(),
                values@ == values_of(nodes@.take(i as int), percentage_length),
            decreases nodes.len() - i,
        {
            assert(nodes@.take(i + 1).drop_last() =~= nodes@.take(i as int));
            assert(nodes@.take(i + 1).last() == nodes@[i as int]);
            values.push(nodes[i].resolve(percentage_length));
            i += 1;
        }
        assert(nodes@.take(nodes@.len() as int) =~= nodes@);
        values
    }
}

/// `value` rounded to a multiple of `interval`: what needs no arithmetic
/// where that applies; else the multiple of the interval at or below the
/// value, or the one at or above it, as the strategy picks between them.
pub open spec fn rounded_value(strategy: RoundingStrategy, value: Scalar, interval: Scalar) -> Scalar {
    match rounded_without_arithmetic(strategy, value, interval) {
        Some(rounded) => rounded,
        None => {
            let quotient = value.quotient(interval);
            let lower = quotient.floored().product(interval);
            let upper = quotient.ceiled().product(interval);
            rounded_to(strategy, lower, upper, value.difference(lower), upper.difference(value))
        },
    }
}

impl LengthPercentageAuto {
    /// The length that the value stands for, given the length that
    /// fractions refer to; nothing for `Auto`.
    pub open spec fn resolved(self, context: Scalar) -> Option<Scalar> {
        match self {
            LengthPercentageAuto::Length(length) => Some(length),
            LengthPercentageAuto::Percent(percent) => Some(context.product(percent)),
            LengthPercentageAuto::Calculation(calc) => Some(calc.0.value(context)),
            LengthPercentageAuto::Auto => None,
        }
    }

    /// The length that the value stands for, given the length that
    /// fractions refer to; nothing for `Auto`.
    pub fn resolve_to_option(&self, context: Scalar) -> (length: Option<Scalar>)
        ensures
            length == self.resolved(context),
    {
        match self {
            LengthPercentageAuto::Length(length) => Some(*length),
            LengthPercentageAuto::Percent(percent) => Some(context.times(*percent)),
            LengthPercentageAuto::Calculation(calc) => Some(calc.resolve(context)),
            LengthPercentageAuto::Auto => None,
        }
    }

    /// The length that the value stands for where it can be told: a
    /// length always, a fraction or an expression where the context is
    /// known, `Auto` never.
    pub open spec fn resolved_against(self, context: Option<Scalar>) -> Option<Scalar> {
        match self {
            LengthPercentageAuto::Length(length) => Some(length),
            LengthPercentageAuto::Auto => None,
            _ => match context {
                Some(basis) => self.resolved(basis),
                None => None,
            },
        }
    }

    /// The length that the value stands for where it can be told.
    pub fn maybe_resolve(&self, context: Option<Scalar>) -> (length: Option<Scalar>)
        ensures
            length == self.resolved_against(context),
    {
        match self {
            LengthPercentageAuto::Length(length) => Some(*length),
            LengthPercentageAuto::Auto => None,
            _ => match context {
                Some(basis) => self.resolve_to_option(basis),
                None => None,
            },
        }
    }

    /// The length that the value stands for, and zero where it cannot be told.
    pub open spec fn resolved_or_zero(self, context: Option<Scalar>) -> Scalar {
        match self.resolved_against(context) {
            Some(length) => length,
            None => Scalar::zero_value(),
        }
    }

    /// The length that the value stands for, and zero where it cannot be told.
    pub fn resolve_or_zero(&self, context: Option<Scalar>) -> (length: Scalar)
        ensures
            length == self.resolved_or_zero(context),
    {
        match self.maybe_resolve(context) {
            Some(length) => length,
            None => Scalar(0),
        }
    }
}

impl LengthPercentage {
    /// The length that the value stands for where it can be told: a
    /// length always, a fraction or an expression where the context is known.
    pub open spec fn resolved_against(self, context: Option<Scalar>) -> Option<Scalar> {
        match self {
            LengthPercentage::Length(length) => Some(length),
            _ => match context {
                Some(basis) => Some(self.resolved(basis)),
                None => None,
            },
        }
    }

    /// The length that the value stands for where it can be told.
    pub fn maybe_resolve(&self, context: Option<Scalar>) -> (length: Option<Scalar>)
        ensures
            length == self.resolved_against(context),
    {
        match self {
            LengthPercentage::Length(length) => Some(*length),
            _ => match context {
                Some(basis) => Some(self.resolve(basis)),
                None => None,
            },
        }
    }

    /// The length that the value stands for as far as it is valid: zero
    /// where it cannot be told, is negative, or is no number.
    pub open spec fn resolved_or_zero(self, context: Option<Scalar>) -> Scalar {
        match self.resolved_against(context) {
            Some(length) => crate::math::valid_length_of(length),
            None => Scalar::zero_value(),
        }
    }

    /// The length that the value stands for as far as it is valid.
    pub fn resolve_or_zero(&self, context: Option<Scalar>) -> (length: Scalar)
        ensures
            length == self.resolved_or_zero(context),
            Scalar::zero_value().less_eq(length),
    {
        match self.maybe_resolve(context) {
            Some(length) => crate::math::non_negative(length),
            None => Scalar(0),
        }
    }
}

impl Dimension {
    /// The length that the size stands for where it can be told, as far
    /// as it is valid: a length always, a fraction or an expression where
    /// the context is known, `Auto` never; a length that is negative or no
    /// number counts as zero.
    pub open spec fn resolved_against(self, context: Option<Scalar>) -> Option<Scalar> {
        match self {
            Dimension::Length(length) => Some(crate::math::valid_length_of(length)),
            Dimension::Percent(percent) => match context {
                Some(basis) => Some(crate::math::valid_length_of(basis.product(percent))),
                None => None,
            },
            Dimension::Calculation(calc) => match context {
                Some(basis) => Some(crate::math::valid_length_of(calc.0.value(basis))),
                None => None,
            },
            Dimension::Auto => None,
        }
    }

    /// The length that the size stands for where it can be told, as far as it is valid.
    pub fn maybe_resolve(&self, context: Option<Scalar>) -> (length: Option<Scalar>)
        ensures
            length == self.resolved_against(context),
    {
        match self {
            Dimension::Length(length) => Some(crate::math::non_negative(*length)),
            Dimension::Percent(percent) => match context {
                Some(basis) => Some(crate::math::non_negative(basis.times(*percent))),
                None => None,
            },
            Dimension::Calculation(calc) => match context {
                Some(basis) => Some(crate::math::non_negative(calc.resolve(basis))),
                None => None,
            },
            Dimension::Auto => None,
        }
    }
}

impl Size<Dimension> {
    /// Both axes resolved, each against its own context.
    pub open spec fn resolved_against(self, context: Size<Option<Scalar>>) -> Size<Option<Scalar>> {
        Size {
            width: self.width.resolved_against(context.width),
            height: self.height.resolved_against(context.height),
        }
    }

    /// Both axes resolved, each against its own context.
    pub fn maybe_resolve(&self, context: Size<Option<Scalar>>) -> (size: Size<Option<Scalar>>)
        ensures
            size == self.resolved_against(context),
    {
        Size {
            width: self.width.maybe_resolve(context.width),
            height: self.height.maybe_resolve(context.height),
        }
    }
}

impl Rect<LengthPercentage> {
    /// The four edges resolved against one context, as far as they are valid.
    pub open spec fn resolved_or_zero(self, context: Option<Scalar>) -> Rect<Scalar> {
        Rect {
            left: self.left.resolved_or_zero(context),
            right: self.right.resolved_or_zero(context),
            top: self.top.resolved_or_zero(context),
            bottom: self.bottom.resolved_or_zero(context),
        }
    }

    /// The four edges resolved against one context, as far as they are valid.
    pub fn resolve_or_zero(&self, context: Option<Scalar>) -> (rect: Rect<Scalar>)
        ensures
            rect == self.resolved_or_zero(context),
    {
        Rect {
            left: self.left.resolve_or_zero(context),
            right: self.right.resolve_or_zero(context),
            top: self.top.resolve_or_zero(context),
            bottom: self.bottom.resolve_or_zero(context),
        }
    }
}

impl Rect<LengthPercentageAuto> {
    /// The four edges resolved against one context; zero where an edge
    /// is `Auto` or cannot be told.
    pub open spec fn resolved_or_zero(self, context: Option<Scalar>) -> Rect<Scalar> {
        Rect {
            left: self.left.resolved_or_zero(context),
            right: self.right.resolved_or_zero(context),
            top: self.top.resolved_or_zero(context),
            bottom: self.bottom.resolved_or_zero(context),
        }
    }

    /// The four edges resolved against one context; zero where an edge
    /// is `Auto` or cannot be told.
    pub fn resolve_or_zero(&self, context: Option<Scalar>) -> (rect: Rect<Scalar>)
        ensures
            rect == self.resolved_or_zero(context),
    {
        Rect {
            left: self.left.resolve_or_zero(context),
            right: self.right.resolve_or_zero(context),
            top: self.top.resolve_or_zero(context),
            bottom: self.bottom.resolve_or_zero(context),
        }
    }

    /// The four edges resolved against one length; nothing where an edge is `Auto`.
    pub open spec fn resolved(self, context: Scalar) -> Rect<Option<Scalar>> {
        Rect {
            left: self.left.resolved(context),
            right: self.right.resolved(context),
            top: self.top.resolved(context),
            bottom: self.bottom.resolved(context),
        }
    }

    /// The four edges resolved against one length; nothing where an edge is `Auto`.
    pub fn resolve_to_option(&self, context: Scalar) -> (rect: Rect<Option<Scalar>>)
        ensures
            rect == self.resolved(context),
    {
        Rect {
            left: self.left.resolve_to_option(context),
            right: self.right.resolve_to_option(context),
            top: self.top.resolve_to_option(context),
            bottom: self.bottom.resolve_to_option(context),
        }
    }
}

impl AvailableSpace {
    /// What is left of the space once `used` is taken: the difference for
    /// a definite space, nothing under a min-content constraint, and no
    /// end of it under a max-content constraint.
    pub open spec fn free_space(self, used: Scalar) -> Scalar {
        match self {
            AvailableSpace::MaxContent => Scalar(crate::scalar::INFINITY_BITS),
            AvailableSpace::MinContent => Scalar::zero_value(),
            AvailableSpace::Definite(available) => available.difference(used),
        }
    }

    /// What is left of the space once `used_space` is taken.
    pub fn compute_free_space(&self, used_space: Scalar) -> (free: Scalar)
        ensures
            free == self.free_space(used_space),
    {
        match self {
            AvailableSpace::MaxContent => Scalar::infinity(),
            AvailableSpace::MinContent => Scalar(0),
            AvailableSpace::Definite(available) => available.minus(used_space),
        }
    }

    /// The space less `amount` where it is definite.
    pub open spec fn reduced_by(self, amount: Scalar) -> AvailableSpace {
        match self {
            AvailableSpace::Definite(available) => AvailableSpace::Definite(
                available.difference(amount),
            ),
            _ => self,
        }
    }

    /// The space less `amount` where it is definite.
    pub fn maybe_sub(self, amount: Scalar) -> (space: AvailableSpace)
        ensures
            space == self.reduced_by(amount),
    {
        match self {
            AvailableSpace::Definite(available) => AvailableSpace::Definite(available.minus(amount)),
            _ => self,
        }
    }
}

} // verus!
