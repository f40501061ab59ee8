//! What a node's style declares.

pub mod dimension;

use crate::compute::grid::coordinates::GridLine;
use crate::geometry::{Line, Point, Rect, Size};
use crate::scalar::Scalar;
use crate::style::dimension::{AvailableSpace, Dimension, LengthPercentage, LengthPercentageAuto};
use vstd::prelude::*;

verus! {

/// The bits of the number one: the initial shrink factor.
pub const ONE_BITS: u32 = 0x3f80_0000;

/// Which algorithm lays out a node's children, if the node makes a box at all.
#[derive(Copy, Clone, PartialEq, Eq, Debug, Structural)]
pub enum Display {
    /// The children are laid out as blocks, one below the other.
    Block,
    /// The children are laid out as flex items.
    Flex,
    /// The children are laid out on a grid.
    Grid,
    /// The node makes no box; its children stand in its place.
    Contents,
    /// Neither the node nor anything below it makes a box.
    Hidden,
}

/// Which box the sizes of a style measure.
#[derive(Copy, Clone, PartialEq, Eq, Debug, Structural)]
pub enum BoxSizing {
    /// Content, padding and border.
    BorderBox,
    /// The content alone.
    ContentBox,
}

/// Whether a node takes part in the flow of its siblings.
#[derive(Copy, Clone, PartialEq, Eq, Debug, Structural)]
pub enum Position {
    /// In the flow; `inset` moves the box without moving its siblings.
    Relative,
    /// Out of the flow; `inset` places the box in its parent's padding box.
    Absolute,
}

/// What happens to content that does not fit.
#[derive(Copy, Clone, PartialEq, Eq, Debug, Structural)]
pub enum Overflow {
    /// It shows outside the box and counts towards the box's minimum size.
    Visible,
    /// It is cut off.
    Hidden,
    /// It is cut off and a scrollbar takes up room.
    Scroll,
}

/// The main axis of a flex container.
#[derive(Copy, Clone, PartialEq, Eq, Debug, Structural)]
pub enum FlexDirection {
    /// Left to right.
    Row,
    /// Top to bottom.
    Column,
    /// Right to left.
    RowReverse,
    /// Bottom to top.
    ColumnReverse,
}

/// Whether flex items may go to a further line.
#[derive(Copy, Clone, PartialEq, Eq, Debug, Structural)]
pub enum FlexWrap {
    /// One line.
    NoWrap,
    /// Further lines follow in the cross direction.
    Wrap,
    /// Further lines go against the cross direction.
    WrapReverse,
}

/// How items are aligned across their line or inside their grid area.
#[derive(Copy, Clone, PartialEq, Eq, Debug, Structural)]
pub enum AlignItems {
    /// Towards the start of the axis.
    Start,
    /// Towards the end of the axis.
    End,
    /// Towards the start of the flex container's axis.
    FlexStart,
    /// Towards the end of the flex container's axis.
    FlexEnd,
    /// In the middle.
    Center,
    /// By their baselines.
    Baseline,
    /// Stretched to fill.
    Stretch,
}

/// How free space is shared between lines or tracks.
#[derive(Copy, Clone, PartialEq, Eq, Debug, Structural)]
pub enum AlignContent {
    /// Content packed towards the start of the axis.
    Start,
    /// Content packed towards the end of the axis.
    End,
    /// Content packed towards the start of the flex container's axis.
    FlexStart,
    /// Content packed towards the end of the flex container's axis.
    FlexEnd,
    /// Content packed in the middle.
    Center,
    /// Content stretched to take the free space.
    Stretch,
    /// The free space goes between the items, none to the outside.
    SpaceBetween,
    /// The free space goes between and around the items, all gaps alike.
    SpaceEvenly,
    /// Every item gets the same space on both its sides.
    SpaceAround,
}

/// How grid items without a place are placed.
#[derive(Copy, Clone, PartialEq, Eq, Debug, Structural)]
pub enum GridAutoFlow {
    /// Row by row.
    Row,
    /// Column by column.
    Column,
    /// Row by row, filling earlier holes.
    RowDense,
    /// Column by column, filling earlier holes.
    ColumnDense,
}

/// One end of a grid item's place on an axis.
#[derive(Copy, Clone, PartialEq, Eq, Debug, Structural)]
pub enum GridPlacement {
    /// Placed by the algorithm.
    Auto,
    /// At this line.
    Line(GridLine),
    /// This many tracks from the other end.
    Span(u16),
}

/// The least size of a grid track.
#[derive(Clone, PartialEq, Debug)]
pub enum MinTrackSizingFunction {
    /// A fixed length.
    Fixed(LengthPercentage),
    /// The smallest size that fits the content.
    MinContent,
    /// The size that the content asks for.
    MaxContent,
    /// Decided by the items in the track.
    Auto,
}

/// The greatest size of a grid track.
#[derive(Clone, PartialEq, Debug)]
pub enum MaxTrackSizingFunction {
    /// A fixed length.
    Fixed(LengthPercentage),
    /// The smallest size that fits the content.
    MinContent,
    /// The size that the content asks for.
    MaxContent,
    /// The size that the content asks for, but no more than the limit.
    FitContent(LengthPercentage),
    /// Decided by the items in the track.
    Auto,
    /// A share of the space that is left, in proportion to this factor.
    Fraction(Scalar),
}

/// The least and the greatest size of a grid track.
#[derive(Clone, PartialEq, Debug)]
pub struct TrackSizingFunction {
    /// The least size.
    pub min: MinTrackSizingFunction,
    /// The greatest size.
    pub max: MaxTrackSizingFunction,
}

/// What a node's style declares.
#[derive(Clone, PartialEq, Debug)]
pub struct Style {
    /// Which algorithm lays out the children.
    pub display: Display,
    /// Which box the sizes measure.
    pub box_sizing: BoxSizing,
    /// What happens to content that does not fit, per axis.
    pub overflow: Point<Overflow>,
    /// The room that a scrollbar takes; not negative.
    pub scrollbar_width: Scalar,
    /// Whether the node is in the flow.
    pub position: Position,
    /// Offsets from the edges of the containing box.
    pub inset: Rect<LengthPercentageAuto>,
    /// The preferred size.
    pub size: Size<Dimension>,
    /// The least size.
    pub min_size: Size<Dimension>,
    /// The greatest size.
    pub max_size: Size<Dimension>,
    /// Width divided by height, where the box is to keep a ratio.
    pub aspect_ratio: Option<Scalar>,
    /// Space outside the border.
    pub margin: Rect<LengthPercentageAuto>,
    /// Space between border and content.
    pub padding: Rect<LengthPercentage>,
    /// The width of the border.
    pub border: Rect<LengthPercentage>,
    /// How the children are aligned across their line.
    pub align_items: Option<AlignItems>,
    /// How this node is aligned across its line.
    pub align_self: Option<AlignItems>,
    /// How the children are aligned along the inline axis of their area.
    pub justify_items: Option<AlignItems>,
    /// How this node is aligned along the inline axis of its area.
    pub justify_self: Option<AlignItems>,
    /// How free space across the lines is shared.
    pub align_content: Option<AlignContent>,
    /// How free space along the main axis is shared.
    pub justify_content: Option<AlignContent>,
    /// The gaps between rows and between columns.
    pub gap: Size<LengthPercentage>,
    /// The main axis of a flex container.
    pub flex_direction: FlexDirection,
    /// Whether flex items wrap.
    pub flex_wrap: FlexWrap,
    /// The size of a flex item before free space is shared.
    pub flex_basis: Dimension,
    /// The share of free space that the item takes; not negative.
    pub flex_grow: Scalar,
    /// The share of missing space that the item gives up; not negative.
    pub flex_shrink: Scalar,
    /// The rows of the explicit grid.
    pub grid_template_rows: Vec<TrackSizingFunction>,
    /// The columns of the explicit grid.
    pub grid_template_columns: Vec<TrackSizingFunction>,
    /// The sizes of rows made as needed.
    pub grid_auto_rows: Vec<TrackSizingFunction>,
    /// The sizes of columns made as needed.
    pub grid_auto_columns: Vec<TrackSizingFunction>,
    /// How items without a place are placed.
    pub grid_auto_flow: GridAutoFlow,
    /// The rows that the item spans.
    pub grid_row: Line<GridPlacement>,
    /// The columns that the item spans.
    pub grid_column: Line<GridPlacement>,
}

impl Overflow {
    /// Whether content is cut off at the box, so that the box scrolls.
    pub open spec fn scrolls(self) -> bool {
        self is Hidden || self is Scroll
    }

    /// Whether content is cut off at the box, so that the box scrolls.
    pub fn is_scroll_container(self) -> (scrolls: bool)
        ensures
            scrolls == self.scrolls(),
    {
        match self {
            Overflow::Visible => false,
            _ => true,
        }
    }
}

impl AlignContent {
    /// The shares of free space that each gap between two tracks takes.
    pub open spec fn inner_weight(self) -> int {
        match self {
            AlignContent::SpaceBetween => 1,
            AlignContent::SpaceEvenly => 1,
            AlignContent::SpaceAround => 2,
            _ => 0,
        }
    }

    /// The shares of free space that each of the two outer edges takes.
    pub open spec fn outer_weight(self) -> int {
        match self {
            AlignContent::SpaceBetween => 0,
            _ => 1,
        }
    }

    /// The shares of free space that each gap between two tracks takes:
    /// none where the content is packed or stretched.
    pub fn inner_gutter_weight(self) -> (weight: u8)
        ensures
            weight == self.inner_weight(),
    {
        match self {
            AlignContent::SpaceBetween => 1,
            AlignContent::SpaceEvenly => 1,
            AlignContent::SpaceAround => 2,
            _ => 0,
        }
    }

    /// The shares of free space that each of the two outer edges takes.
    pub fn outer_gutter_weight(self) -> (weight: u8)
        ensures
            weight == self.outer_weight(),
    {
        match self {
            AlignContent::SpaceBetween => 0,
            _ => 1,
        }
    }
}

impl MinTrackSizingFunction {
    /// The size that the function fixes, given the space on offer: a
    /// length always, a fraction of the space where that is definite,
    /// else nothing.
    pub open spec fn definite(self, available_space: AvailableSpace) -> Option<Scalar> {
        match self {
            MinTrackSizingFunction::Fixed(size) => size.resolved_against(available_space.amount()),
            _ => None,
        }
    }

    /// The size that the function fixes, given the space on offer.
    pub fn definite_value(&self, available_space: AvailableSpace) -> (value: Option<Scalar>)
        ensures
            value == self.definite(available_space),
    {
        match self {
            MinTrackSizingFunction::Fixed(size) => size.maybe_resolve(available_space.into_option()),
            _ => None,
        }
    }
}

impl MaxTrackSizingFunction {
    /// The size that the function fixes, given the space on offer: a
    /// length always, a fraction of the space where that is definite,
    /// else nothing.
    pub open spec fn definite(self, available_space: AvailableSpace) -> Option<Scalar> {
        match self {
            MaxTrackSizingFunction::Fixed(size) => size.resolved_against(available_space.amount()),
            _ => None,
        }
    }

    /// The size that the function fixes, given the space on offer.
    pub fn definite_value(&self, available_space: AvailableSpace) -> (value: Option<Scalar>)
        ensures
            value == self.definite(available_space),
    {
        match self {
            MaxTrackSizingFunction::Fixed(size) => size.maybe_resolve(available_space.into_option()),
            _ => None,
        }
    }

    /// Whether the track takes a share of the space that is left.
    pub open spec fn flexible(self) -> bool {
        self is Fraction
    }

    /// Whether the track takes a share of the space that is left.
    pub fn is_flexible(&self) -> (flexible: bool)
        ensures
            flexible == self.flexible(),
    {
        matches!(self, MaxTrackSizingFunction::Fraction(_))
    }

    /// Whether the content decides the size.
    pub fn is_intrinsic(&self) -> (intrinsic: bool)
        ensures
            intrinsic == (*self is MinContent || *self is MaxContent || *self is FitContent
                || *self is Auto),
    {
        matches!(
            self,
            MaxTrackSizingFunction::MinContent
                | MaxTrackSizingFunction::MaxContent
                | MaxTrackSizingFunction::FitContent(_)
                | MaxTrackSizingFunction::Auto
        )
    }

    /// Whether the track grows to what the content asks for.
    pub fn is_max_content(&self) -> (max_content: bool)
        ensures
            max_content == (*self is MaxContent || *self is FitContent || *self is Auto),
    {
        matches!(
            self,
            MaxTrackSizingFunction::MaxContent
                | MaxTrackSizingFunction::FitContent(_)
                | MaxTrackSizingFunction::Auto
        )
    }
}

impl Default for Style {
    /// The initial style: a flex container in the flow whose sizes are left
    /// to the algorithm, without margin, padding, border or gap, that does
    /// not grow and shrinks with factor one.
    fn default() -> (style: Style)
        ensures
            style.display == Display::Flex,
            style.box_sizing == BoxSizing::BorderBox,
            style.overflow == (Point { x: Overflow::Visible, y: Overflow::Visible }),
            style.scrollbar_width == Scalar::zero_value(),
            style.position == Position::Relative,
            style.inset.left is Auto && style.inset.right is Auto && style.inset.top is Auto
                && style.inset.bottom is Auto,
            style.size.width is Auto && style.size.height is Auto,
            style.min_size.width is Auto && style.min_size.height is Auto,
            style.max_size.width is Auto && style.max_size.height is Auto,
            style.aspect_ratio is None,
            style.margin.left == LengthPercentageAuto::Length(Scalar::zero_value()),
            style.margin.right == LengthPercentageAuto::Length(Scalar::zero_value()),
            style.margin.top == LengthPercentageAuto::Length(Scalar::zero_value()),
            style.margin.bottom == LengthPercentageAuto::Length(Scalar::zero_value()),
            style.padding.left == LengthPercentage::Length(Scalar::zero_value()),
            style.padding.right == LengthPercentage::Length(Scalar::zero_value()),
            style.padding.top == LengthPercentage::Length(Scalar::zero_value()),
            style.padding.bottom == LengthPercentage::Length(Scalar::zero_value()),
            style.border.left == LengthPercentage::Length(Scalar::zero_value()),
            style.border.right == LengthPercentage::Length(Scalar::zero_value()),
            style.border.top == LengthPercentage::Length(Scalar::zero_value()),
            style.border.bottom == LengthPercentage::Length(Scalar::zero_value()),
            style.align_items is None && style.align_self is None && style.justify_items is None
                && style.justify_self is None && style.align_content is None
                && style.justify_content is None,
            style.gap.width == LengthPercentage::Length(Scalar::zero_value()),
            style.gap.height == LengthPercentage::Length(Scalar::zero_value()),
            style.flex_direction == FlexDirection::Row,
            style.flex_wrap == FlexWrap::NoWrap,
            style.flex_basis is Auto,
            style.flex_grow == Scalar::zero_value(),
            style.flex_shrink == Scalar(ONE_BITS),
            style.grid_template_rows@.len() == 0 && style.grid_template_columns@.len() == 0
                && style.grid_auto_rows@.len() == 0 && style.grid_auto_columns@.len() == 0,
            style.grid_auto_flow == GridAutoFlow::Row,
            style.grid_row == (Line { start: GridPlacement::Auto, end: GridPlacement::Auto }),
            style.grid_column == (Line { start: GridPlacement::Auto, end: GridPlacement::Auto }),
    {
        Style {
            display: Display::Flex,
            box_sizing: BoxSizing::BorderBox,
            overflow: Point { x: Overflow::Visible, y: Overflow::Visible },
            scrollbar_width: Scalar(0),
            position: Position::Relative,
            inset: Rect {
                left: LengthPercentageAuto::Auto,
                right: LengthPercentageAuto::Auto,
                top: LengthPercentageAuto::Auto,
                bottom: LengthPercentageAuto::Auto,
            },
            size: Size { width: Dimension::Auto, height: Dimension::Auto },
            min_size: Size { width: Dimension::Auto, height: Dimension::Auto },
            max_size: Size { width: Dimension::Auto, height: Dimension::Auto },
            aspect_ratio: None,
            margin: Rect {
                left: LengthPercentageAuto::Length(Scalar(0)),
                right: LengthPercentageAuto::Length(Scalar(0)),
                top: LengthPercentageAuto::Length(Scalar(0)),
                bottom: LengthPercentageAuto::Length(Scalar(0)),
            },
            padding: Rect {
                left: LengthPercentage::Length(Scalar(0)),
                right: LengthPercentage::Length(Scalar(0)),
                top: LengthPercentage::Length(Scalar(0)),
                bottom: LengthPercentage::Length(Scalar(0)),
            },
            border: Rect {
                left: LengthPercentage::Length(Scalar(0)),
                right: LengthPercentage::Length(Scalar(0)),
                top: LengthPercentage::Length(Scalar(0)),
                bottom: LengthPercentage::Length(Scalar(0)),
            },
            align_items: None,
            align_self: None,
            justify_items: None,
            justify_self: None,
            align_content: None,
            justify_content: None,
            gap: Size {
                width: LengthPercentage::Length(Scalar(0)),
                height: LengthPercentage::Length(Scalar(0)),
            },
            flex_direction: FlexDirection::Row,
            flex_wrap: FlexWrap::NoWrap,
            flex_basis: Dimension::Auto,
            flex_grow: Scalar(0),
            flex_shrink: Scalar(ONE_BITS),
            grid_template_rows: Vec::new(),
            grid_template_columns: Vec::new(),
            grid_auto_rows: Vec::new(),
            grid_auto_columns: Vec::new(),
            grid_auto_flow: GridAutoFlow::Row,
            grid_row: Line { start: GridPlacement::Auto, end: GridPlacement::Auto },
            grid_column: Line { start: GridPlacement::Auto, end: GridPlacement::Auto },
        }
    }
}

} // verus!
