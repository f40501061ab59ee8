//! Pairs and quadruples of values along the two axes of a box.

use vstd::prelude::*;

verus! {

/// A width and a height.
#[derive(Clone, Copy, Debug, PartialEq, Eq, Structural)]
pub struct Size<T> {
    /// Along the horizontal axis.
    pub width: T,
    /// Along the vertical axis.
    pub height: T,
}

/// A position, or one value for each axis.
#[derive(Clone, Copy, Debug, PartialEq, Eq, Structural)]
pub struct Point<T> {
    /// Along the horizontal axis.
    pub x: T,
    /// Along the vertical axis.
    pub y: T,
}

/// One value for each edge of a box.
#[derive(Clone, Copy, Debug, PartialEq, Eq, Structural)]
pub struct Rect<T> {
    /// The left edge.
    pub left: T,
    /// The right edge.
    pub right: T,
    /// The top edge.
    pub top: T,
    /// The bottom edge.
    pub bottom: T,
}

/// One value for the start and one for the end of an axis.
#[derive(Clone, Copy, Debug, PartialEq, Eq, Structural)]
pub struct Line<T> {
    /// At the start of the axis.
    pub start: T,
    /// At the end of the axis.
    pub end: T,
}

impl<T> Size<Option<T>> {
    /// The size with neither axis set.
    pub fn none() -> (size: Size<Option<T>>)
        ensures
            size.width is None,
            size.height is None,
    {
        Size { width: None, height: None }
    }

    /// Whether both axes are set.
    pub fn both_axis_defined(&self) -> (both: bool)
        ensures
            both == (self.width is Some && self.height is Some),
    {
        self.width.is_some() && self.height.is_some()
    }
}

impl<T: Copy> Size<Option<T>> {
    /// Axis by axis, this value where it is set and `alt` where it is not.
    pub open spec fn or_else_of(self, alt: Size<Option<T>>) -> Size<Option<T>> {
        Size {
            width: if self.width is Some { self.width } else { alt.width },
            height: if self.height is Some { self.height } else { alt.height },
        }
    }

    /// Axis by axis, this value where it is set and `alt` where it is not.
    pub fn or(self, alt: Size<Option<T>>) -> (size: Size<Option<T>>)
        ensures
            size == self.or_else_of(alt),
    {
        Size {
            width: if self.width.is_some() { self.width } else { alt.width },
            height: if self.height.is_some() { self.height } else { alt.height },
        }
    }

    /// Axis by axis, the value that is set, or that of `alt`.
    pub fn unwrap_or(self, alt: Size<T>) -> (size: Size<T>)
        ensures
            size.width == (if self.width is Some { self.width->0 } else { alt.width }),
            size.height == (if self.height is Some { self.height->0 } else { alt.height }),
    {
        Size {
            width: match self.width {
                Some(w) => w,
                None => alt.width,
            },
            height: match self.height {
                Some(h) => h,
                None => alt.height,
            },
        }
    }
}

impl<T: Copy> Size<T> {
    /// The same size with both axes set.
    pub fn map_some(self) -> (size: Size<Option<T>>)
        ensures
            size.width == Some(self.width),
            size.height == Some(self.height),
    {
        Size { width: Some(self.width), height: Some(self.height) }
    }
}

impl Line<bool> {
    /// True at both ends.
    pub fn both_true() -> (line: Line<bool>)
        ensures
            line.start,
            line.end,
    {
        Line { start: true, end: true }
    }

    /// False at both ends.
    pub fn both_false() -> (line: Line<bool>)
        ensures
            !line.start,
            !line.end,
    {
        Line { start: false, end: false }
    }
}

impl<T: Copy> Point<T> {
    /// The point with the two axes exchanged.
    pub fn transpose(self) -> (point: Point<T>)
        ensures
            point.x == self.y,
            point.y == self.x,
    {
        Point { x: self.y, y: self.x }
    }
}

} // verus!
