//! Track sizing: the order in which items are accommodated, their
//! places in the track vectors, and the sizes that the tracks of an axis
//! get.

use crate::compute::grid::coordinates::{OriginZeroLine, TrackCounts};
use crate::compute::grid::types::{span_between, GridAxis, GridItem, GridTrack};
use crate::compute::grid::distribute::{
    base_size_sum, distribute_space_up_to_limits, distributed, most_rounds, sum_base_sizes, Room,
};
use crate::geometry::{Line, Size};
use crate::scalar::{Scalar, INFINITY_BITS};
use crate::style::dimension::AvailableSpace;
use crate::style::AlignContent;
use core::cmp::Ordering;
use vstd::prelude::*;

verus! {

/// How the sizes of the tracks of the other axis are estimated.
#[derive(Copy, Clone, Debug, PartialEq, Eq, Structural)]
pub enum AvailableSpaceMode {
    /// By the tracks' maximum sizing functions.
    Estimates,
    /// By the base sizes that a sizing of the other axis has found.
    OtherAxisSizes,
}

/// Which contribution of an item is accommodated.
#[derive(Copy, Clone, Debug, PartialEq, Eq, Structural)]
pub enum IntrinsicContributionType {
    /// The least size of the item.
    Minimum,
    /// The size that the item asks for.
    Maximum,
}

/// What the last sizing step does with the free space of the container.
#[derive(Copy, Clone, Debug, PartialEq, Eq, Structural)]
pub enum MaximisePlan {
    /// There is no end of space: every track grows to its growth limit.
    FillToLimits,
    /// There is some space: it is shared among the tracks up to their limits.
    Distribute,
    /// There is none.
    Nothing,
}

/// The difference of an item's lines along `axis`.
pub open spec fn line_difference(item: GridItem, axis: GridAxis) -> int {
    item.lines(axis).end.0 - item.lines(axis).start.0
}

/// Whether `a` is accommodated before `b` along `axis`: items that cross
/// no flexible track before those that do; among those, items that span
/// fewer tracks first; among those, items that start at an earlier line.
pub open spec fn accommodated_before(a: GridItem, b: GridItem, axis: GridAxis) -> bool {
    if a.crosses_flexible(axis) != b.crosses_flexible(axis) {
        !a.crosses_flexible(axis)
    } else if line_difference(a, axis) != line_difference(b, axis) {
        line_difference(a, axis) < line_difference(b, axis)
    } else {
        a.lines(axis).start.0 < b.lines(axis).start.0
    }
}

/// Whether no item of `items` is to be accommodated before an earlier one.
pub open spec fn in_sizing_order(items: Seq<GridItem>, axis: GridAxis) -> bool {
    forall|i: int, j: int|
        0 <= i < j < items.len() ==> !accommodated_before(#[trigger] items[j], #[trigger] items[i], axis)
}

fn line_difference_of(item: &GridItem, axis: GridAxis) -> (difference: i32)
    ensures
        difference == line_difference(*item, axis),
{
    let placement = item.placement(axis);
    placement.end.0 as i32 - placement.start.0 as i32
}

/// Whether `a` is accommodated before `b` along `axis`.
pub fn comes_before(axis: GridAxis, a: &GridItem, b: &GridItem) -> (before: bool)
    ensures
        before == accommodated_before(*a, *b, axis),
{
    let a_flex = a.crosses_flexible_track(axis);
    let b_flex = b.crosses_flexible_track(axis);
    if a_flex != b_flex {
        return !a_flex;
    }
    let a_span = line_difference_of(a, axis);
    let b_span = line_difference_of(b, axis);
    if a_span != b_span {
        a_span < b_span
    } else {
        a.placement(axis).start.0 < b.placement(axis).start.0
    }
}

/// The order in which two items are accommodated along `axis`: `Less` if
/// `a` comes first, `Greater` if `b` does, `Equal` if neither.
pub fn cmp_by_cross_flex_then_span_then_start(axis: GridAxis, a: &GridItem, b: &GridItem) -> (order:
    Ordering)
    ensures
        accommodated_before(*a, *b, axis) ==> order == Ordering::Less,
        accommodated_before(*b, *a, axis) ==> order == Ordering::Greater,
        !accommodated_before(*a, *b, axis) && !accommodated_before(*b, *a, axis) ==> order
            == Ordering::Equal,
{
    if comes_before(axis, a, b) {
        Ordering::Less
    } else if comes_before(axis, b, a) {
        Ordering::Greater
    } else {
        Ordering::Equal
    }
}

/// `sorted` with `x` put in behind every item that is not to be
/// accommodated after it.
pub open spec fn placed(sorted: Seq<GridItem>, x: GridItem, axis: GridAxis) -> Seq<GridItem>
    decreases sorted.len(),
{
    if sorted.len() == 0 {
        seq![x]
    } else if accommodated_before(x, sorted.last(), axis) {
        placed(sorted.drop_last(), x, axis).push(sorted.last())
    } else {
        sorted.push(x)
    }
}

/// The items in the order in which they are accommodated along `axis`;
/// items of which neither is to be accommodated before the other keep
/// the order in which they stood.
pub open spec fn sorted_stably(items: Seq<GridItem>, axis: GridAxis) -> Seq<GridItem>
    decreases items.len(),
{
    if items.len() == 0 {
        Seq::empty()
    } else {
        placed(sorted_stably(items.drop_last(), axis), items.last(), axis)
    }
}

proof fn lemma_placed_at(sorted: Seq<GridItem>, x: GridItem, axis: GridAxis, p: int)
    requires
        0 <= p <= sorted.len(),
        forall|k: int| p <= k < sorted.len() ==> accommodated_before(x, #[trigger] sorted[k], axis),
        p > 0 ==> !accommodated_before(x, sorted[p - 1], axis),
    ensures
        placed(sorted, x, axis) == sorted.insert(p, x),
    decreases sorted.len(),
{
    if sorted.len() == 0 {
        assert(seq![x] =~= sorted.insert(p, x));
    } else if p == sorted.len() {
        assert(sorted.push(x) =~= sorted.insert(p, x));
    } else {
        assert(accommodated_before(x, sorted.last(), axis));
        lemma_placed_at(sorted.drop_last(), x, axis, p);
        assert(sorted.drop_last().insert(p, x).push(sorted.last()) =~= sorted.insert(p, x));
    }
}

/// Puts `items` into the order in which they are accommodated along
/// `axis`. Items of which neither is to be accommodated before the other
/// keep the order in which they stood.
pub fn sort_items(items: &mut Vec<GridItem>, axis: GridAxis)
    ensures
        final(items)@ == sorted_stably(old(items)@, axis),
        in_sizing_order(final(items)@, axis),
        final(items)@.to_multiset() == old(items)@.to_multiset(),
        final(items)@.len() == old(items)@.len(),
{
    let n = items.len();
    let mut i: usize = 1;
    if n == 0 {
        assert(items@ =~= sorted_stably(old(items)@, axis));
        return ;
    }
    proof {
        let first = old(items)@.take(1);
        assert(first.drop_last() =~= Seq::empty());
        assert(sorted_stably(first.drop_last(), axis) =~= Seq::empty());
        assert(items@.take(1) =~= seq![first.last()]);
    }
    while i < n
        invariant
            1 <= i <= n,
            items@.len() == n,
            n == old(items)@.len(),
            items@.to_multiset() == old(items)@.to_multiset(),
            in_sizing_order(items@.take(i as int), axis),
            items@.take(i as int) == sorted_stably(old(items)@.take(i as int), axis),
            forall|k: int| i <= k < n ==> #[trigger] items@[k] == old(items)@[k],
        decreases n - i,
    {
        let x = items[i];
        let mut p: usize = i;
        while p > 0 && comes_before(axis, &x, &items[p - 1])
            invariant
                p <= i < n,
                items@.len() == n,
                x == items@[i as int],
                forall|k: int| p <= k < i ==> accommodated_before(x, #[trigger] items@[k], axis),
            decreases p,
        {
            p -= 1;
        }
        let ghost before = items@;
        let _ = items.remove(i);
        items.insert(p, x);
        proof {
            broadcast use vstd::seq_lib::to_multiset_remove, vstd::seq_lib::to_multiset_insert;
            broadcast use vstd::multiset::group_multiset_axioms;

            let removed = before.remove(i as int);
            assert(items@ == removed.insert(p as int, x));
            assert(removed.to_multiset() == before.to_multiset().remove(x));
            assert(before.to_multiset().count(x) > 0) by {
                before.to_multiset_ensures();
                assert(before.contains(x));
            }
            assert(items@.to_multiset() =~= before.to_multiset());
            let sorted = before.take(i as int);
            let next = items@.take(i + 1);
            assert forall|k: int| p <= k < sorted.len() implies accommodated_before(
                x,
                #[trigger] sorted[k],
                axis,
            ) by {
                assert(sorted[k] == before[k]);
            }
            if p > 0 {
                assert(sorted[p - 1] == before[p - 1]);
            }
            lemma_placed_at(sorted, x, axis, p as int);
            assert(next =~= sorted.insert(p as int, x));
            let upto = old(items)@.take(i + 1);
            assert(upto.drop_last() =~= old(items)@.take(i as int));
            assert(upto.last() == x);
            assert(next == sorted_stably(upto, axis));
            assert forall|k: int| i + 1 <= k < n implies #[trigger] items@[k] == old(items)@[k] by {
                assert(items@[k] == before[k]);
            }
            assert forall|a: int, b: int| 0 <= a < b < next.len() implies !accommodated_before(
                #[trigger] next[b],
                #[trigger] next[a],
                axis,
            ) by {
                if a == p {
                    assert(next[a] == x);
                    assert(next[b] == before[b - 1]);
                    assert(accommodated_before(x, before[b - 1], axis));
                } else if b == p {
                    assert(next[b] == x);
                    assert(next[a] == before[a]);
                    if p > 0 {
                        assert(!accommodated_before(x, before[p - 1], axis));
                        assert(sorted[a] == before[a]);
                        assert(sorted[p - 1] == before[p - 1]);
                        if a < p - 1 {
                            assert(!accommodated_before(sorted[p - 1], sorted[a], axis));
                        }
                    }
                } else {
                    let fa = if a < p { a } else { a - 1 };
                    let fb = if b < p { b } else { b - 1 };
                    assert(next[a] == before[fa]);
                    assert(next[b] == before[fb]);
                    assert(sorted[fa] == before[fa]);
                    assert(sorted[fb] == before[fb]);
                    assert(!accommodated_before(sorted[fb], sorted[fa], axis));
                }
            }
        }
        i += 1;
    }
    assert(items@.take(n as int) =~= items@);
    assert(old(items)@.take(n as int) =~= old(items)@);
}

/// Hands out the sorted items batch by batch: first the items that cross
/// no flexible track, in batches of equal span, spans ascending; then, in
/// one batch, all items that cross a flexible track.
pub struct ItemBatcher {
    /// The axis along which items are accommodated.
    pub axis: GridAxis,
    /// The place of the first item that has not been handed out.
    pub index_offset: usize,
    /// The span of the items of the last batch.
    pub current_span: u16,
    /// Whether the last batch held the items that cross a flexible track.
    pub current_is_flex: bool,
}

/// Whether the item at `k` ends the batch that is handed out: it crosses a
/// flexible track, or spans more tracks than the batch's items do.
pub open spec fn ends_batch(items: Seq<GridItem>, axis: GridAxis, span: int, k: int) -> bool {
    items[k].crosses_flexible(axis) || span_between(items[k].lines(axis)) > span
}

impl ItemBatcher {
    /// A batcher that has handed out nothing.
    pub fn new(axis: GridAxis) -> (batcher: ItemBatcher)
        ensures
            batcher == (ItemBatcher { axis, index_offset: 0, current_span: 0, current_is_flex: false }),
    {
        ItemBatcher { axis, index_offset: 0, current_span: 0, current_is_flex: false }
    }

    /// The next batch of `items`: the places `start` and `end` between
    /// which its items stand, and whether they cross a flexible track.
    /// Nothing once the items that cross a flexible track, or all items,
    /// have been handed out.
    ///
    /// A batch starts at the first item not handed out, whose span and
    /// flexibility are the batch's. A flexible batch runs to the end of
    /// the items; any other runs up to the next item that crosses a
    /// flexible track or spans more.
    pub fn next(&mut self, items: &Vec<GridItem>) -> (batch: Option<(usize, usize, bool)>)
        ensures
            final(self).axis == old(self).axis,
            old(self).current_is_flex || old(self).index_offset >= items@.len() ==> batch is None
                && *final(self) == *old(self),
            !old(self).current_is_flex && old(self).index_offset < items@.len() ==> {
                let first = items@[old(self).index_offset as int];
                &&& batch is Some
                &&& batch.unwrap().0 == old(self).index_offset
                &&& batch.unwrap().2 == first.crosses_flexible(old(self).axis)
                &&& batch.unwrap().0 < batch.unwrap().1 <= items@.len()
                &&& final(self).index_offset == batch.unwrap().1
                &&& final(self).current_span == span_between(first.lines(old(self).axis))
                &&& final(self).current_is_flex == first.crosses_flexible(old(self).axis)
                &&& if first.crosses_flexible(old(self).axis) {
                    batch.unwrap().1 == items@.len()
                } else {
                    &&& forall|k: int|
                        batch.unwrap().0 <= k < batch.unwrap().1 ==> !ends_batch(
                            items@,
                            old(self).axis,
                            span_between(first.lines(old(self).axis)),
                            k,
                        )
                    &&& batch.unwrap().1 < items@.len() ==> ends_batch(
                        items@,
                        old(self).axis,
                        span_between(first.lines(old(self).axis)),
                        batch.unwrap().1 as int,
                    )
                }
            },
    {
        if self.current_is_flex || self.index_offset >= items.len() {
            return None;
        }
        let start = self.index_offset;
        let item = &items[start];
        self.current_span = item.span(self.axis);
        self.current_is_flex = item.crosses_flexible_track(self.axis);
        let mut end = items.len();
        if !self.current_is_flex {
            end = start;
            while end < items.len() && !(items[end].crosses_flexible_track(self.axis)
                || items[end].span(self.axis) > self.current_span)
                invariant
                    start <= end <= items@.len(),
                    start < items@.len(),
                    self.axis == old(self).axis,
                    self.current_span == span_between(items@[start as int].lines(self.axis)),
                    !items@[start as int].crosses_flexible(self.axis),
                    forall|k: int|
                        start <= k < end ==> !ends_batch(
                            items@,
                            self.axis,
                            self.current_span as int,
                            k,
                        ),
                decreases items@.len() - end,
            {
                end += 1;
            }
            assert(!ends_batch(items@, self.axis, self.current_span as int, start as int));
            assert(end > start);
        }
        self.index_offset = end;
        Some((start, end, self.current_is_flex))
    }
}

/// Whether both lines of `placement` lie on an axis with the given counts,
/// at places that fit the index type.
pub open spec fn resolves(placement: Line<OriginZeroLine>, counts: TrackCounts) -> bool {
    &&& counts.holds_line(placement.start)
    &&& counts.holds_line(placement.end)
    &&& 2 * counts.total() <= u16::MAX
}

/// The places of the lines of `placement` in the axis' track vector.
pub open spec fn resolved_indexes(placement: Line<OriginZeroLine>, counts: TrackCounts) -> Line<u16> {
    Line {
        start: (2 * (placement.start.0 + counts.negative_implicit)) as u16,
        end: (2 * (placement.end.0 + counts.negative_implicit)) as u16,
    }
}

/// Finds, for every item, the places of its lines in the track vectors.
pub fn resolve_item_track_indexes(
    items: &mut Vec<GridItem>,
    column_counts: TrackCounts,
    row_counts: TrackCounts,
)
    requires
        forall|i: int|
            0 <= i < old(items)@.len() ==> resolves(
                (#[trigger] old(items)@[i]).column,
                column_counts,
            ) && resolves(old(items)@[i].row, row_counts),
    ensures
        final(items)@.len() == old(items)@.len(),
        forall|i: int|
            0 <= i < old(items)@.len() ==> #[trigger] final(items)@[i] == (GridItem {
                column_indexes: resolved_indexes(old(items)@[i].column, column_counts),
                row_indexes: resolved_indexes(old(items)@[i].row, row_counts),
                ..old(items)@[i]
            }),
{
    let n = items.len();
    let mut i: usize = 0;
    while i < n
        invariant
            i <= n,
            items@.len() == n,
            n == old(items)@.len(),
            forall|k: int|
                0 <= k < n ==> resolves((#[trigger] old(items)@[k]).column, column_counts)
                    && resolves(old(items)@[k].row, row_counts),
            forall|k: int|
                0 <= k < i ==> #[trigger] items@[k] == (GridItem {
                    column_indexes: resolved_indexes(old(items)@[k].column, column_counts),
                    row_indexes: resolved_indexes(old(items)@[k].row, row_counts),
                    ..old(items)@[k]
                }),
            forall|k: int| i <= k < n ==> #[trigger] items@[k] == old(items)@[k],
        decreases n - i,
    {
        let mut item = items[i];
        assert(resolves(old(items)@[i as int].column, column_counts));
        item.column_indexes = Line {
            start: column_counts.oz_line_to_grid_track_vec_index(item.column.start),
            end: column_counts.oz_line_to_grid_track_vec_index(item.column.end),
        };
        item.row_indexes = Line {
            start: row_counts.oz_line_to_grid_track_vec_index(item.row.start),
            end: row_counts.oz_line_to_grid_track_vec_index(item.row.end),
        };
        items[i] = item;
        i += 1;
    }
}

/// Whether one of the entries of `tracks` from `start` to `end`, both
/// included, is flexible.
pub open spec fn any_flexible(tracks: Seq<GridTrack>, start: int, end: int) -> bool {
    exists|k: int| start <= k <= end && (#[trigger] tracks[k]).flexible()
}

fn crosses_flexible(tracks: &Vec<GridTrack>, indexes: Line<u16>) -> (crosses: bool)
    requires
        indexes.start <= indexes.end ==> indexes.end < tracks@.len(),
    ensures
        crosses == any_flexible(tracks@, indexes.start as int, indexes.end as int),
{
    if indexes.start > indexes.end {
        return false;
    }
    let mut k: usize = indexes.start as usize;
    let end: usize = indexes.end as usize;
    while k <= end
        invariant
            indexes.start <= k <= end + 1,
            end == indexes.end,
            end < tracks@.len(),
            forall|j: int| indexes.start <= j < k ==> !(#[trigger] tracks@[j]).flexible(),
        decreases end + 1 - k,
    {
        if tracks[k].is_flexible() {
            return true;
        }
        k += 1;
    }
    false
}

/// Finds, for every item and both axes, whether a flexible track lies
/// between its lines.
pub fn determine_if_item_crosses_flexible_tracks(
    items: &mut Vec<GridItem>,
    columns: &Vec<GridTrack>,
    rows: &Vec<GridTrack>,
)
    requires
        forall|i: int|
            0 <= i < old(items)@.len() ==> {
                let item = #[trigger] old(items)@[i];
                &&& item.column_indexes.start <= item.column_indexes.end
                    ==> item.column_indexes.end < columns@.len()
                &&& item.row_indexes.start <= item.row_indexes.end ==> item.row_indexes.end
                    < rows@.len()
            },
    ensures
        final(items)@.len() == old(items)@.len(),
        forall|i: int|
            0 <= i < old(items)@.len() ==> #[trigger] final(items)@[i] == (GridItem {
                crosses_flexible_column: any_flexible(
                    columns@,
                    old(items)@[i].column_indexes.start as int,
                    old(items)@[i].column_indexes.end as int,
                ),
                crosses_flexible_row: any_flexible(
                    rows@,
                    old(items)@[i].row_indexes.start as int,
                    old(items)@[i].row_indexes.end as int,
                ),
                ..old(items)@[i]
            }),
{
    let n = items.len();
    let mut i: usize = 0;
    while i < n
        invariant
            i <= n,
            items@.len() == n,
            n == old(items)@.len(),
            forall|k: int|
                0 <= k < n ==> {
                    let item = #[trigger] old(items)@[k];
                    &&& item.column_indexes.start <= item.column_indexes.end
                        ==> item.column_indexes.end < columns@.len()
                    &&& item.row_indexes.start <= item.row_indexes.end ==> item.row_indexes.end
                        < rows@.len()
                },
            forall|k: int|
                0 <= k < i ==> #[trigger] items@[k] == (GridItem {
                    crosses_flexible_column: any_flexible(
                        columns@,
                        old(items)@[k].column_indexes.start as int,
                        old(items)@[k].column_indexes.end as int,
                    ),
                    crosses_flexible_row: any_flexible(
                        rows@,
                        old(items)@[k].row_indexes.start as int,
                        old(items)@[k].row_indexes.end as int,
                    ),
                    ..old(items)@[k]
                }),
            forall|k: int| i <= k < n ==> #[trigger] items@[k] == old(items)@[k],
        decreases n - i,
    {
        let mut item = items[i];
        let ghost before = old(items)@[i as int];
        assert(item == before);
        item.crosses_flexible_column = crosses_flexible(columns, item.column_indexes);
        item.crosses_flexible_row = crosses_flexible(rows, item.row_indexes);
        items[i] = item;
        i += 1;
    }
}

/// Whether alignment widens the gutters of an axis: it shares free space
/// between the tracks, the space is definite, and there is more than one
/// entry in the track vector.
pub fn gutter_adjustment_applies(
    alignment: AlignContent,
    available_space: AvailableSpace,
    track_count: usize,
) -> (applies: bool)
    ensures
        applies == (alignment.inner_weight() > 0 && available_space is Definite && track_count > 1),
{
    alignment.inner_gutter_weight() > 0 && available_space.is_definite() && track_count > 1
}

/// The number of shares into which alignment divides the free space of an
/// axis whose track vector has `track_count` entries: one share of the
/// inner weight for each gutter between two tracks, and one of the outer
/// weight for each of the two edges.
pub fn weighted_track_count(alignment: AlignContent, track_count: usize) -> (count: usize)
    requires
        3 <= track_count <= usize::MAX / 2,
    ensures
        count == ((track_count - 3) / 2) * alignment.inner_weight() + 2 * alignment.outer_weight(),
{
    let inner: usize = alignment.inner_gutter_weight() as usize;
    let outer: usize = alignment.outer_gutter_weight() as usize;
    assert(((track_count - 3) / 2) * inner <= track_count - 3) by (nonlinear_arith)
        requires
            inner <= 2,
            track_count >= 3,
    ;
    ((track_count - 3) / 2) * inner + 2 * outer
}

/// The base size and growth limit that a track starts with: the base size
/// is the least size where the style fixes one, else zero; the growth
/// limit is the greatest size where the style fixes one, else infinity,
/// but not less than the base size.
pub open spec fn initial_sizes(min_value: Option<Scalar>, max_value: Option<Scalar>) -> (Scalar, Scalar) {
    let base = match min_value {
        Some(v) => v,
        None => Scalar::zero_value(),
    };
    let limit = match max_value {
        Some(v) => v,
        None => Scalar(INFINITY_BITS),
    };
    (
        base,
        if limit.less(base) {
            base
        } else {
            limit
        },
    )
}

/// Whether `after` is `before` with base size and growth limit replaced.
pub open spec fn resized(before: GridTrack, after: GridTrack, base_size: Scalar, growth_limit: Scalar) -> bool {
    after == (GridTrack { base_size, growth_limit, ..before })
}

impl GridTrack {
    /// Gives the track the base size and growth limit that it starts with,
    /// given the sizes that its sizing functions fix.
    pub fn set_initial_sizes(&mut self, min_value: Option<Scalar>, max_value: Option<Scalar>)
        ensures
            resized(
                *old(self),
                *final(self),
                initial_sizes(min_value, max_value).0,
                initial_sizes(min_value, max_value).1,
            ),
    {
        let base = match min_value {
            Some(v) => v,
            None => Scalar(0),
        };
        let limit = match max_value {
            Some(v) => v,
            None => Scalar::infinity(),
        };
        self.base_size = base;
        self.growth_limit = if limit.lt(base) {
            base
        } else {
            limit
        };
    }

    /// Makes the entry take no room: the lines at the two edges of the
    /// grid are gutters without size.
    pub fn set_zero_sized(&mut self)
        ensures
            resized(*old(self), *final(self), Scalar::zero_value(), Scalar::zero_value()),
    {
        self.base_size = Scalar(0);
        self.growth_limit = Scalar(0);
    }

    /// Whether the track's size is settled: base size and growth limit are equal.
    pub fn is_settled(&self) -> (settled: bool)
        ensures
            settled == self.base_size.same(self.growth_limit),
    {
        self.base_size.num_eq(self.growth_limit)
    }

    /// The size from which the growth limit grows: the growth limit, or
    /// the base size where the limit is still infinite.
    pub fn growth_basis(&self) -> (basis: Scalar)
        ensures
            basis == (if self.growth_limit.same(Scalar(INFINITY_BITS)) {
                self.base_size
            } else {
                self.growth_limit
            }),
    {
        if self.growth_limit.num_eq(Scalar::infinity()) {
            self.base_size
        } else {
            self.growth_limit
        }
    }

    /// Whether the track can take more: its base size is below its growth limit.
    pub fn is_growable(&self) -> (growable: bool)
        ensures
            growable == self.base_size.less(self.growth_limit),
    {
        self.base_size.lt(self.growth_limit)
    }
}

/// Whether the sizes of all tracks are settled, so that nothing is left to size.
pub fn all_tracks_settled(tracks: &Vec<GridTrack>) -> (settled: bool)
    ensures
        settled == (forall|i: int|
            0 <= i < tracks@.len() ==> (#[trigger] tracks@[i]).base_size.same(
                tracks@[i].growth_limit,
            )),
{
    let mut i: usize = 0;
    while i < tracks.len()
        invariant
            i <= tracks.len(),
            forall|k: int|
                0 <= k < i ==> (#[trigger] tracks@[k]).base_size.same(tracks@[k].growth_limit),
        decreases tracks.len() - i,
    {
        if !tracks[i].is_settled() {
            return false;
        }
        i += 1;
    }
    true
}

/// Gives every track whose growth limit is still infinite its base size
/// for a growth limit, so that the last step does not grow it.
pub fn settle_infinite_growth_limits(tracks: &mut Vec<GridTrack>)
    ensures
        final(tracks)@.len() == old(tracks)@.len(),
        forall|i: int|
            0 <= i < old(tracks)@.len() ==> resized(
                #[trigger] old(tracks)@[i],
                final(tracks)@[i],
                old(tracks)@[i].base_size,
                if old(tracks)@[i].growth_limit.same(Scalar(INFINITY_BITS)) {
                    old(tracks)@[i].base_size
                } else {
                    old(tracks)@[i].growth_limit
                },
            ),
{
    let n = tracks.len();
    let mut i: usize = 0;
    while i < n
        invariant
            i <= n,
            tracks@.len() == n,
            n == old(tracks)@.len(),
            forall|k: int|
                0 <= k < i ==> resized(
                    #[trigger] old(tracks)@[k],
                    tracks@[k],
                    old(tracks)@[k].base_size,
                    if old(tracks)@[k].growth_limit.same(Scalar(INFINITY_BITS)) {
                        old(tracks)@[k].base_size
                    } else {
                        old(tracks)@[k].growth_limit
                    },
                ),
            forall|k: int| i <= k < n ==> #[trigger] tracks@[k] == old(tracks)@[k],
        decreases n - i,
    {
        if tracks[i].growth_limit.num_eq(Scalar::infinity()) {
            let base = tracks[i].base_size;
            tracks[i].growth_limit = base;
        }
        i += 1;
    }
}

/// What the last sizing step does, given the free space of the container.
pub fn maximise_plan(free_space: Scalar) -> (plan: MaximisePlan)
    ensures
        plan == (if free_space.same(Scalar(INFINITY_BITS)) {
            MaximisePlan::FillToLimits
        } else if Scalar::zero_value().less(free_space) {
            MaximisePlan::Distribute
        } else {
            MaximisePlan::Nothing
        }),
{
    if free_space.num_eq(Scalar::infinity()) {
        MaximisePlan::FillToLimits
    } else if free_space.gt(Scalar(0)) {
        MaximisePlan::Distribute
    } else {
        MaximisePlan::Nothing
    }
}

/// Grows every track to its growth limit.
pub fn fill_to_limits(tracks: &mut Vec<GridTrack>)
    ensures
        final(tracks)@.len() == old(tracks)@.len(),
        forall|i: int|
            0 <= i < old(tracks)@.len() ==> resized(
                #[trigger] old(tracks)@[i],
                final(tracks)@[i],
                old(tracks)@[i].growth_limit,
                old(tracks)@[i].growth_limit,
            ),
{
    let n = tracks.len();
    let mut i: usize = 0;
    while i < n
        invariant
            i <= n,
            tracks@.len() == n,
            n == old(tracks)@.len(),
            forall|k: int|
                0 <= k < i ==> resized(
                    #[trigger] old(tracks)@[k],
                    tracks@[k],
                    old(tracks)@[k].growth_limit,
                    old(tracks)@[k].growth_limit,
                ),
            forall|k: int| i <= k < n ==> #[trigger] tracks@[k] == old(tracks)@[k],
        decreases n - i,
    {
        let limit = tracks[i].growth_limit;
        tracks[i].base_size = limit;
        i += 1;
    }
}

/// The space along an axis.
pub open spec fn along(space: Size<AvailableSpace>, axis: GridAxis) -> AvailableSpace {
    match axis {
        GridAxis::Inline => space.width,
        GridAxis::Block => space.height,
    }
}

fn space_along(space: Size<AvailableSpace>, axis: GridAxis) -> (out: AvailableSpace)
    ensures
        out == along(space, axis),
{
    match axis {
        GridAxis::Inline => space.width,
        GridAxis::Block => space.height,
    }
}

/// The size that a track of the other axis is taken to have: what its
/// greatest size fixes where sizes are estimated, its base size where
/// that axis has been sized.
pub open spec fn size_estimate(mode: AvailableSpaceMode, track: GridTrack, available_space: AvailableSpace) -> Option<
    Scalar,
> {
    match mode {
        AvailableSpaceMode::Estimates => track.max_track_sizing_function.definite(available_space),
        AvailableSpaceMode::OtherAxisSizes => Some(track.base_size),
    }
}

/// The sum of the sizes that the tracks are taken to have, added up in
/// order from zero; nothing where the size of one is not known.
pub open spec fn estimate_sum(mode: AvailableSpaceMode, tracks: Seq<GridTrack>, available_space: AvailableSpace) -> Option<
    Scalar,
>
    decreases tracks.len(),
{
    if tracks.len() == 0 {
        Some(Scalar::zero_value())
    } else {
        match (
            estimate_sum(mode, tracks.drop_last(), available_space),
            size_estimate(mode, tracks.last(), available_space),
        ) {
            (Some(sum), Some(size)) => Some(sum.sum(size)),
            _ => None,
        }
    }
}

/// What alignment adds to each gutter that an item spans when the size
/// of the item in the other axis is estimated: where alignment shares
/// free space between the tracks and the space is definite, the space
/// that the tracks leave, but not less than nothing, divided by the
/// number of shares and multiplied by the weight of a gutter; else
/// nothing.
pub open spec fn gutter_adjustment(
    alignment: AlignContent,
    available_space: AvailableSpace,
    mode: AvailableSpaceMode,
    tracks: Seq<GridTrack>,
) -> Scalar {
    if alignment.inner_weight() > 0 && available_space is Definite && tracks.len() > 1 {
        let inner_available_space = match estimate_sum(mode, tracks, available_space) {
            Some(sum) => Scalar::zero_value().larger(available_space.amount().unwrap().difference(sum)),
            None => Scalar::zero_value(),
        };
        let shares = ((tracks.len() - 3) / 2) * alignment.inner_weight() + 2
            * alignment.outer_weight();
        inner_available_space.quotient(Scalar::of_count(shares as nat)).product(
            Scalar::of_count(alignment.inner_weight() as nat),
        )
    } else {
        Scalar::zero_value()
    }
}

/// What alignment adds to each gutter that an item spans when the size
/// of the item in the other axis is estimated.
pub fn compute_alignment_gutter_adjustment(
    alignment: AlignContent,
    available_space: AvailableSpace,
    mode: AvailableSpaceMode,
    tracks: &Vec<GridTrack>,
) -> (adjustment: Scalar)
    requires
        tracks@.len() != 2,
        tracks@.len() <= usize::MAX / 2,
    ensures
        adjustment == gutter_adjustment(alignment, available_space, mode, tracks@),
{
    if gutter_adjustment_applies(alignment, available_space, tracks.len()) {
        let mut sum: Option<Scalar> = Some(Scalar(0));
        let mut i: usize = 0;
        proof {
            assert(tracks@.take(0) =~= Seq::empty());
        }
        while i < tracks.len()
            invariant
                i <= tracks@.len(),
                sum == estimate_sum(mode, tracks@.take(i as int), available_space),
            decreases tracks@.len() - i,
        {
            proof {
                assert(tracks@.take(i + 1).drop_last() =~= tracks@.take(i as int));
                assert(tracks@.take(i + 1).last() == tracks@[i as int]);
            }
            let estimate = match mode {
                AvailableSpaceMode::Estimates => tracks[i].max_track_sizing_function.definite_value(
                    available_space,
                ),
                AvailableSpaceMode::OtherAxisSizes => Some(tracks[i].base_size),
            };
            sum = match (sum, estimate) {
                (Some(sum), Some(size)) => Some(sum.plus(size)),
                _ => None,
            };
            i += 1;
        }
        proof {
            assert(tracks@.take(tracks@.len() as int) =~= tracks@);
        }
        let inner_available_space = match (sum, available_space) {
            (Some(sum), AvailableSpace::Definite(available)) => Scalar(0).max(available.minus(sum)),
            _ => Scalar(0),
        };
        let shares = weighted_track_count(alignment, tracks.len());
        let weight: usize = alignment.inner_gutter_weight() as usize;
        inner_available_space.over(Scalar::from_count(shares)).times(Scalar::from_count(weight))
    } else {
        Scalar(0)
    }
}

/// The tracks as track sizing starts with them: the lines at the two
/// edges take no room; every other entry gets the base size and growth
/// limit that its sizing functions fix, given the space on offer.
pub open spec fn initialised(tracks: Seq<GridTrack>, available_space: AvailableSpace) -> Seq<GridTrack> {
    Seq::new(
        tracks.len(),
        |i: int|
            if i == 0 || i == tracks.len() - 1 {
                GridTrack {
                    base_size: Scalar::zero_value(),
                    growth_limit: Scalar::zero_value(),
                    ..tracks[i]
                }
            } else {
                let sizes = initial_sizes(
                    tracks[i].min_track_sizing_function.definite(available_space),
                    tracks[i].max_track_sizing_function.definite(available_space),
                );
                GridTrack { base_size: sizes.0, growth_limit: sizes.1, ..tracks[i] }
            },
    )
}

/// Whether the sizes of all tracks are settled: base size and growth
/// limit are equal.
pub open spec fn all_settled(tracks: Seq<GridTrack>) -> bool {
    forall|i: int| 0 <= i < tracks.len() ==> (#[trigger] tracks[i]).base_size.same(tracks[i].growth_limit)
}

/// The tracks once every growth limit that is still infinite is the
/// track's base size.
pub open spec fn with_limits_settled(tracks: Seq<GridTrack>) -> Seq<GridTrack> {
    Seq::new(
        tracks.len(),
        |i: int|
            if tracks[i].growth_limit.same(Scalar(INFINITY_BITS)) {
                GridTrack { growth_limit: tracks[i].base_size, ..tracks[i] }
            } else {
                tracks[i]
            },
    )
}

/// The tracks once the free space of the container is given to them: with
/// no end of space every track has its growth limit for a base size; with
/// some, it is shared among the tracks up to their limits in at most
/// `rounds` rounds; with none, nothing changes.
pub open spec fn maximised(tracks: Seq<GridTrack>, free_space: Scalar, rounds: nat) -> Seq<GridTrack> {
    if free_space.same(Scalar(INFINITY_BITS)) {
        Seq::new(tracks.len(), |i: int| GridTrack { base_size: tracks[i].growth_limit, ..tracks[i] })
    } else if Scalar::zero_value().less(free_space) {
        distributed(
            tracks,
            Seq::new(tracks.len(), |i: int| true),
            Room::Growable,
            free_space,
            rounds,
        ).0
    } else {
        tracks
    }
}

/// The tracks of an axis once they are sized, given the space on offer
/// along the axis and the space that the grid can take: they start with
/// what their sizing functions fix; unless that settles all of them,
/// infinite growth limits come down to the base sizes and the free space
/// of the grid is given to the tracks.
pub open spec fn sized(
    tracks: Seq<GridTrack>,
    available_space: AvailableSpace,
    available_grid_space: AvailableSpace,
    rounds: nat,
) -> Seq<GridTrack> {
    let start = initialised(tracks, available_space);
    if all_settled(start) {
        start
    } else {
        let settled = with_limits_settled(start);
        maximised(settled, available_grid_space.free_space(base_size_sum(settled)), rounds)
    }
}

/// Sizes the tracks of an axis. Unless the sizing functions settle all
/// tracks, the items are put into the order in which they are
/// accommodated; items of which neither comes first keep their order.
pub fn track_sizing_algorithm_inner(
    axis: GridAxis,
    available_space: Size<AvailableSpace>,
    available_grid_space: Size<AvailableSpace>,
    axis_tracks: &mut Vec<GridTrack>,
    items: &mut Vec<GridItem>,
)
    requires
        old(axis_tracks)@.len() > 0,
    ensures
        final(axis_tracks)@ == sized(
            old(axis_tracks)@,
            along(available_space, axis),
            along(available_grid_space, axis),
            most_rounds(),
        ),
        final(items)@ == (if all_settled(
            initialised(old(axis_tracks)@, along(available_space, axis)),
        ) {
            old(items)@
        } else {
            sorted_stably(old(items)@, axis)
        }),
{
    let n = axis_tracks.len();
    let available = space_along(available_space, axis);
    let ghost start = initialised(axis_tracks@, available);
    axis_tracks[0].set_zero_sized();
    axis_tracks[n - 1].set_zero_sized();
    let mut i: usize = 1;
    while i < n - 1
        invariant
            1 <= i,
            n == axis_tracks@.len(),
            n == old(axis_tracks)@.len(),
            n > 0,
            start == initialised(old(axis_tracks)@, available),
            axis_tracks@[0] == start[0],
            axis_tracks@[n - 1] == start[n - 1],
            forall|k: int| 1 <= k < i && k < n - 1 ==> #[trigger] axis_tracks@[k] == start[k],
            forall|k: int| i <= k < n - 1 ==> #[trigger] axis_tracks@[k] == old(axis_tracks)@[k],
        decreases n - i,
    {
        let min_value = axis_tracks[i].min_track_sizing_function.definite_value(available);
        let max_value = axis_tracks[i].max_track_sizing_function.definite_value(available);
        axis_tracks[i].set_initial_sizes(min_value, max_value);
        i += 1;
    }
    proof {
        assert(axis_tracks@ =~= start);
    }
    if all_tracks_settled(axis_tracks) {
        return ;
    }
    sort_items(items, axis);
    settle_infinite_growth_limits(axis_tracks);
    proof {
        assert(axis_tracks@ =~= with_limits_settled(start));
    }
    let used_space = sum_base_sizes(axis_tracks);
    let free_space = space_along(available_grid_space, axis).compute_free_space(used_space);
    match maximise_plan(free_space) {
        MaximisePlan::FillToLimits => {
            let ghost before = axis_tracks@;
            fill_to_limits(axis_tracks);
            proof {
                assert(axis_tracks@ =~= maximised(before, free_space, most_rounds()));
            }
        },
        MaximisePlan::Distribute => {
            let mut affected: Vec<bool> = Vec::new();
            let mut k: usize = 0;
            while k < n
                invariant
                    k <= n,
                    affected@.len() == k,
                    forall|j: int| 0 <= j < k ==> #[trigger] affected@[j],
                decreases n - k,
            {
                affected.push(true);
                k += 1;
            }
            proof {
                assert(affected@ =~= Seq::new(n as nat, |i: int| true));
            }
            let _ = distribute_space_up_to_limits(free_space, axis_tracks, &affected);
        },
        MaximisePlan::Nothing => {},
    }
}

/// Sizes the tracks of one axis of a grid: the columns for the inline
/// axis, the rows for the block axis.
pub fn track_sizing_algorithm(
    available_space: Size<AvailableSpace>,
    available_grid_space: Size<AvailableSpace>,
    axis: GridAxis,
    columns: &mut Vec<GridTrack>,
    rows: &mut Vec<GridTrack>,
    items: &mut Vec<GridItem>,
)
    requires
        axis == GridAxis::Inline ==> old(columns)@.len() > 0,
        axis == GridAxis::Block ==> old(rows)@.len() > 0,
    ensures
        axis == GridAxis::Inline ==> final(rows)@ == old(rows)@ && final(columns)@ == sized(
            old(columns)@,
            available_space.width,
            available_grid_space.width,
            most_rounds(),
        ),
        axis == GridAxis::Block ==> final(columns)@ == old(columns)@ && final(rows)@ == sized(
            old(rows)@,
            available_space.height,
            available_grid_space.height,
            most_rounds(),
        ),
        final(items)@ == (if all_settled(
            initialised(
                if axis == GridAxis::Inline {
                    old(columns)@
                } else {
                    old(rows)@
                },
                along(available_space, axis),
            ),
        ) {
            old(items)@
        } else {
            sorted_stably(old(items)@, axis)
        }),
{
    match axis {
        GridAxis::Inline => {
            track_sizing_algorithm_inner(
                axis,
                available_space,
                available_grid_space,
                columns,
                items,
            );
        },
        GridAxis::Block => {
            track_sizing_algorithm_inner(axis, available_space, available_grid_space, rows, items);
        },
    }
}

} // verus!
