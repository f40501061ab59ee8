//! The two coordinate systems that name grid lines.
//!
//! A grid line is the boundary between two tracks. Style sheets name lines in
//! "grid line" coordinates, where line 1 is the start edge of the explicit
//! grid, line -1 is its end edge, and 0 names no line. The engine works in
//! "origin-zero" coordinates, where the start edge of the explicit grid is
//! line 0 and lines count up towards the end and down (negative) before the
//! start.

use core::ops::{Add, Sub};
use vstd::prelude::*;
use vstd::std_specs::convert::FromSpecImpl;
use vstd::std_specs::ops::{AddSpecImpl, SubSpecImpl};

verus! {

/// A line in grid-line coordinates: 1 is the first line, -1 the last, 0 is invalid.
#[derive(Debug, Clone, Copy, PartialEq, Eq, Structural)]
pub struct GridLine(pub i16);

/// A line in origin-zero coordinates.
#[derive(Debug, Clone, Copy, PartialEq, Eq, Structural, PartialOrd, Ord)]
pub struct OriginZeroLine(pub i16);

/// How many tracks a grid axis holds before, inside and after the explicit grid.
#[derive(Debug, Clone, Copy, PartialEq, Eq, Structural)]
pub struct TrackCounts {
    /// Implicit tracks before the explicit grid.
    pub negative_implicit: u16,
    /// Tracks of the explicit grid.
    pub explicit: u16,
    /// Implicit tracks after the explicit grid.
    pub positive_implicit: u16,
}

/// Marks the types that name a grid line.
pub trait GridCoordinate: Copy {

}

impl From<i16> for GridLine {
    fn from(value: i16) -> (line: GridLine) {
        GridLine(value)
    }
}

impl FromSpecImpl<i16> for GridLine {
    open spec fn obeys_from_spec() -> bool {
        true
    }

    open spec fn from_spec(value: i16) -> GridLine {
        GridLine(value)
    }
}

impl GridCoordinate for GridLine {

}

impl GridCoordinate for OriginZeroLine {

}

impl GridLine {
    /// The line number as written in the style.
    pub fn as_i16(self) -> (value: i16)
        ensures
            value == self.0,
    {
        self.0
    }

    /// The line with the given number.
    pub fn from_i16(value: i16) -> (line: GridLine)
        ensures
            line.0 == value,
    {
        GridLine(value)
    }

    /// The origin-zero number of this line in a grid of `explicit_track_count` explicit tracks.
    pub open spec fn origin_zero(self, explicit_track_count: u16) -> int {
        if self.0 > 0 {
            self.0 - 1
        } else {
            self.0 + explicit_track_count + 1
        }
    }

    /// Converts to origin-zero coordinates. A positive line counts from the
    /// start edge of the explicit grid, a negative one back from its end edge,
    /// which is line `explicit_track_count` in origin-zero coordinates.
    pub fn into_origin_zero_line(self, explicit_track_count: u16) -> (line: OriginZeroLine)
        requires
            self.0 != 0,
            explicit_track_count < i16::MAX,
        ensures
            line.0 == self.origin_zero(explicit_track_count),
    {
        let explicit_line_count: u16 = explicit_track_count + 1;
        if self.0 > 0 {
            OriginZeroLine(self.0 - 1)
        } else {
            OriginZeroLine(self.0 + explicit_line_count as i16)
        }
    }
}

impl TrackCounts {
    /// Track counts from the three numbers.
    pub fn from_raw(negative_implicit: u16, explicit: u16, positive_implicit: u16) -> (counts:
        TrackCounts)
        ensures
            counts.negative_implicit == negative_implicit,
            counts.explicit == explicit,
            counts.positive_implicit == positive_implicit,
    {
        TrackCounts { negative_implicit, explicit, positive_implicit }
    }

    /// The number of tracks on the axis.
    pub open spec fn total(self) -> int {
        self.negative_implicit + self.explicit + self.positive_implicit
    }

    /// The number of tracks on the axis.
    pub fn len(&self) -> (n: usize)
        ensures
            n == self.total(),
    {
        self.negative_implicit as usize + self.explicit as usize + self.positive_implicit as usize
    }

    /// Whether `line` lies on the axis: not before its first line nor after its last.
    pub open spec fn holds_line(self, line: OriginZeroLine) -> bool {
        -self.negative_implicit <= line.0 <= self.explicit + self.positive_implicit
    }

    /// The first line of the axis, in origin-zero coordinates.
    pub fn implicit_start_line(&self) -> (line: OriginZeroLine)
        requires
            self.negative_implicit <= i16::MAX,
        ensures
            line.0 == -self.negative_implicit,
            self.holds_line(line),
    {
        OriginZeroLine(-(self.negative_implicit as i16))
    }

    /// The last line of the axis, in origin-zero coordinates.
    pub fn implicit_end_line(&self) -> (line: OriginZeroLine)
        requires
            self.explicit + self.positive_implicit <= i16::MAX,
        ensures
            line.0 == self.explicit + self.positive_implicit,
            self.holds_line(line),
    {
        OriginZeroLine((self.explicit + self.positive_implicit) as i16)
    }

    /// The number of tracks that lie before `line`.
    pub fn oz_line_to_next_track(&self, line: OriginZeroLine) -> (track: i16)
        requires
            i16::MIN <= line.0 + self.negative_implicit <= i16::MAX,
        ensures
            track == line.0 + self.negative_implicit,
    {
        let shifted: i32 = line.0 as i32 + self.negative_implicit as i32;
        shifted as i16
    }

    /// The place of `line` in the axis' vector of tracks, where lines and
    /// tracks alternate and the first line stands at index 0.
    pub fn oz_line_to_grid_track_vec_index(&self, line: OriginZeroLine) -> (index: u16)
        requires
            self.holds_line(line),
            2 * (line.0 + self.negative_implicit) <= u16::MAX,
        ensures
            index == 2 * (line.0 + self.negative_implicit),
    {
        let shifted: i32 = line.0 as i32 + self.negative_implicit as i32;
        (2 * shifted) as u16
    }
}

impl OriginZeroLine {
    /// The place of this line in the axis' vector of tracks, where lines and
    /// tracks alternate: the first line of the axis stands at index 0, the
    /// first track at index 1, and so on.
    pub fn into_track_vec_index(self, track_counts: TrackCounts) -> (index: usize)
        requires
            track_counts.holds_line(self),
        ensures
            index == 2 * (self.0 + track_counts.negative_implicit),
            index <= 2 * track_counts.total(),
            index % 2 == 0,
    {
        let shifted: i32 = self.0 as i32 + track_counts.negative_implicit as i32;
        2 * (shifted as usize)
    }

    /// Moves the line `tracks` tracks towards the end of the axis.
    pub fn add_assign(&mut self, tracks: u16)
        requires
            old(self).0 + tracks <= i16::MAX,
        ensures
            final(self).0 == old(self).0 + tracks,
    {
        let wide: i32 = self.0 as i32 + tracks as i32;
        self.0 = wide as i16;
    }
}

impl Add<OriginZeroLine> for OriginZeroLine {
    type Output = OriginZeroLine;

    fn add(self, rhs: OriginZeroLine) -> (sum: OriginZeroLine) {
        OriginZeroLine(self.0 + rhs.0)
    }
}

impl AddSpecImpl<OriginZeroLine> for OriginZeroLine {
    open spec fn obeys_add_spec() -> bool {
        true
    }

    open spec fn add_req(self, rhs: OriginZeroLine) -> bool {
        i16::MIN <= self.0 + rhs.0 <= i16::MAX
    }

    open spec fn add_spec(self, rhs: OriginZeroLine) -> OriginZeroLine {
        OriginZeroLine((self.0 + rhs.0) as i16)
    }
}

impl Sub<OriginZeroLine> for OriginZeroLine {
    type Output = OriginZeroLine;

    fn sub(self, rhs: OriginZeroLine) -> (difference: OriginZeroLine) {
        OriginZeroLine(self.0 - rhs.0)
    }
}

impl SubSpecImpl<OriginZeroLine> for OriginZeroLine {
    open spec fn obeys_sub_spec() -> bool {
        true
    }

    open spec fn sub_req(self, rhs: OriginZeroLine) -> bool {
        i16::MIN <= self.0 - rhs.0 <= i16::MAX
    }

    open spec fn sub_spec(self, rhs: OriginZeroLine) -> OriginZeroLine {
        OriginZeroLine((self.0 - rhs.0) as i16)
    }
}

impl Add<u16> for OriginZeroLine {
    type Output = OriginZeroLine;

    fn add(self, rhs: u16) -> (sum: OriginZeroLine) {
        let wide: i32 = self.0 as i32 + rhs as i32;
        OriginZeroLine(wide as i16)
    }
}

impl AddSpecImpl<u16> for OriginZeroLine {
    open spec fn obeys_add_spec() -> bool {
        true
    }

    open spec fn add_req(self, rhs: u16) -> bool {
        self.0 + rhs <= i16::MAX
    }

    open spec fn add_spec(self, rhs: u16) -> OriginZeroLine {
        OriginZeroLine((self.0 + rhs) as i16)
    }
}

impl Sub<u16> for OriginZeroLine {
    type Output = OriginZeroLine;

    fn sub(self, rhs: u16) -> (difference: OriginZeroLine) {
        let wide: i32 = self.0 as i32 - rhs as i32;
        OriginZeroLine(wide as i16)
    }
}

impl SubSpecImpl<u16> for OriginZeroLine {
    open spec fn obeys_sub_spec() -> bool {
        true
    }

    open spec fn sub_req(self, rhs: u16) -> bool {
        i16::MIN <= self.0 - rhs
    }

    open spec fn sub_spec(self, rhs: u16) -> OriginZeroLine {
        OriginZeroLine((self.0 - rhs) as i16)
    }
}

} // verus!
