//! The items and tracks that grid layout works on.

use crate::compute::grid::coordinates::OriginZeroLine;
use crate::geometry::Line;
use crate::scalar::Scalar;
use crate::style::{MaxTrackSizingFunction, MinTrackSizingFunction};
use crate::tree::NodeId;
use vstd::prelude::*;

verus! {

/// One of the two axes of a grid.
#[derive(Copy, Clone, Debug, PartialEq, Eq, Structural)]
pub enum GridAxis {
    /// The axis along which columns are laid out.
    Inline,
    /// The axis along which rows are laid out.
    Block,
}

/// A node that is placed on the grid.
#[derive(Copy, Clone, Debug, PartialEq, Eq, Structural)]
pub struct GridItem {
    /// The node.
    pub node: NodeId,
    /// The row lines that bound the item, in origin-zero coordinates.
    pub row: Line<OriginZeroLine>,
    /// The column lines that bound the item, in origin-zero coordinates.
    pub column: Line<OriginZeroLine>,
    /// The places of the row lines in the vector of row tracks.
    pub row_indexes: Line<u16>,
    /// The places of the column lines in the vector of column tracks.
    pub column_indexes: Line<u16>,
    /// Whether a flexible row lies between the item's row lines.
    pub crosses_flexible_row: bool,
    /// Whether a flexible column lies between the item's column lines.
    pub crosses_flexible_column: bool,
}

/// Whether an entry of a track vector is a track or the gutter at a line.
#[derive(Copy, Clone, Debug, PartialEq, Eq, Structural)]
pub enum GridTrackKind {
    /// A row or a column.
    Track,
    /// The gap at a grid line, sized like a track.
    Gutter,
}

/// A row, a column, or a gutter, with what track sizing knows of it.
#[derive(Clone, PartialEq, Debug)]
pub struct GridTrack {
    /// Track or gutter.
    pub kind: GridTrackKind,
    /// The least size that the style allows.
    pub min_track_sizing_function: MinTrackSizingFunction,
    /// The greatest size that the style allows.
    pub max_track_sizing_function: MaxTrackSizingFunction,
    /// The distance from the start of the grid.
    pub offset: Scalar,
    /// The size that the track has for certain.
    pub base_size: Scalar,
    /// The size up to which the track may grow; infinity where nothing limits it.
    pub growth_limit: Scalar,
    /// What an item wants to add to the base size.
    pub base_size_planned_increase: Scalar,
    /// What an item wants to add to the growth limit.
    pub growth_limit_planned_increase: Scalar,
    /// Whether the growth limit may grow further while items are accommodated.
    pub infinitely_growable: bool,
}

impl GridAxis {
    /// The other axis.
    pub fn other(self) -> (axis: GridAxis)
        ensures
            axis != self,
    {
        match self {
            GridAxis::Inline => GridAxis::Block,
            GridAxis::Block => GridAxis::Inline,
        }
    }
}

/// The number of tracks between two lines; none where the end does not
/// lie after the start.
pub open spec fn span_between(placement: Line<OriginZeroLine>) -> int {
    if placement.end.0 > placement.start.0 {
        placement.end.0 - placement.start.0
    } else {
        0
    }
}

/// The number of tracks between two lines.
pub fn span_of(placement: Line<OriginZeroLine>) -> (span: u16)
    ensures
        span == span_between(placement),
{
    if placement.end.0 > placement.start.0 {
        (placement.end.0 as i32 - placement.start.0 as i32) as u16
    } else {
        0
    }
}

impl GridItem {
    /// An item between the given lines, its places in the track vectors
    /// still to be resolved.
    pub fn new(node: NodeId, row: Line<OriginZeroLine>, column: Line<OriginZeroLine>) -> (item:
        GridItem)
        ensures
            item == (GridItem {
                node,
                row,
                column,
                row_indexes: Line { start: 0, end: 0 },
                column_indexes: Line { start: 0, end: 0 },
                crosses_flexible_row: false,
                crosses_flexible_column: false,
            }),
    {
        GridItem {
            node,
            row,
            column,
            row_indexes: Line { start: 0, end: 0 },
            column_indexes: Line { start: 0, end: 0 },
            crosses_flexible_row: false,
            crosses_flexible_column: false,
        }
    }

    /// The lines that bound the item along `axis`.
    pub open spec fn lines(self, axis: GridAxis) -> Line<OriginZeroLine> {
        match axis {
            GridAxis::Block => self.row,
            GridAxis::Inline => self.column,
        }
    }

    /// Whether a flexible track lies between the item's lines along `axis`.
    pub open spec fn crosses_flexible(self, axis: GridAxis) -> bool {
        match axis {
            GridAxis::Block => self.crosses_flexible_row,
            GridAxis::Inline => self.crosses_flexible_column,
        }
    }

    /// The lines that bound the item along `axis`.
    pub fn placement(&self, axis: GridAxis) -> (lines: Line<OriginZeroLine>)
        ensures
            lines == self.lines(axis),
    {
        match axis {
            GridAxis::Block => self.row,
            GridAxis::Inline => self.column,
        }
    }

    /// The places of the item's lines along `axis` in the track vector.
    pub fn placement_indexes(&self, axis: GridAxis) -> (indexes: Line<u16>)
        ensures
            indexes == (match axis {
                GridAxis::Block => self.row_indexes,
                GridAxis::Inline => self.column_indexes,
            }),
    {
        match axis {
            GridAxis::Block => self.row_indexes,
            GridAxis::Inline => self.column_indexes,
        }
    }

    /// The number of tracks that the item spans along `axis`.
    pub fn span(&self, axis: GridAxis) -> (span: u16)
        ensures
            span == span_between(self.lines(axis)),
    {
        span_of(self.placement(axis))
    }

    /// Whether a flexible track lies between the item's lines along `axis`.
    pub fn crosses_flexible_track(&self, axis: GridAxis) -> (crosses: bool)
        ensures
            crosses == self.crosses_flexible(axis),
    {
        match axis {
            GridAxis::Block => self.crosses_flexible_row,
            GridAxis::Inline => self.crosses_flexible_column,
        }
    }
}

impl GridTrack {
    /// Whether the track takes a share of the space that is left.
    pub open spec fn flexible(self) -> bool {
        self.max_track_sizing_function.flexible()
    }

    /// A track or gutter with the given sizing functions and no size yet.
    pub fn new(
        kind: GridTrackKind,
        min_track_sizing_function: MinTrackSizingFunction,
        max_track_sizing_function: MaxTrackSizingFunction,
    ) -> (track: GridTrack)
        ensures
            track.kind == kind,
            track.min_track_sizing_function == min_track_sizing_function,
            track.max_track_sizing_function == max_track_sizing_function,
            track.offset == Scalar::zero_value(),
            track.base_size == Scalar::zero_value(),
            track.growth_limit == Scalar::zero_value(),
            track.base_size_planned_increase == Scalar::zero_value(),
            track.growth_limit_planned_increase == Scalar::zero_value(),
            !track.infinitely_growable,
    {
        GridTrack {
            kind,
            min_track_sizing_function,
            max_track_sizing_function,
            offset: Scalar(0),
            base_size: Scalar(0),
            growth_limit: Scalar(0),
            base_size_planned_increase: Scalar(0),
            growth_limit_planned_increase: Scalar(0),
            infinitely_growable: false,
        }
    }

    /// Whether the track takes a share of the space that is left.
    pub fn is_flexible(&self) -> (flexible: bool)
        ensures
            flexible == self.flexible(),
    {
        self.max_track_sizing_function.is_flexible()
    }
}

} // verus!
