use taffy::compute::grid::distribute::{
    distribute_item_space_to_base_size, distribute_space_to_growth_limit, distribute_space_up_to_limits,
    flush_planned_increases, sum_base_sizes,
};
use taffy::compute::grid::track_sizing::{
    compute_alignment_gutter_adjustment, track_sizing_algorithm, track_sizing_algorithm_inner, AvailableSpaceMode,
    IntrinsicContributionType,
};
use taffy::compute::grid::coordinates::OriginZeroLine;
use taffy::compute::grid::types::{GridAxis, GridItem, GridTrack, GridTrackKind};
use taffy::geometry::{Line, Size};
use taffy::scalar::Scalar;
use taffy::style::dimension::{AvailableSpace, LengthPercentage};
use taffy::style::{AlignContent, MaxTrackSizingFunction, MinTrackSizingFunction};
use taffy::tree::NodeId;

fn s(x: f32) -> Scalar {
    Scalar::from_bits(x.to_bits())
}

fn f(x: Scalar) -> f32 {
    f32::from_bits(x.to_bits())
}

fn track(min: MinTrackSizingFunction, max: MaxTrackSizingFunction, base: f32, limit: f32) -> GridTrack {
    GridTrack {
        kind: GridTrackKind::Track,
        min_track_sizing_function: min,
        max_track_sizing_function: max,
        offset: s(0.0),
        base_size: s(base),
        growth_limit: s(limit),
        base_size_planned_increase: s(0.0),
        growth_limit_planned_increase: s(0.0),
        infinitely_growable: false,
    }
}

fn sized(base: f32, limit: f32) -> GridTrack {
    track(MinTrackSizingFunction::Auto, MaxTrackSizingFunction::Auto, base, limit)
}

fn fixed(length: f32) -> GridTrack {
    track(
        MinTrackSizingFunction::Fixed(LengthPercentage::Length(s(length))),
        MaxTrackSizingFunction::Fixed(LengthPercentage::Length(s(length))),
        -1.0,
        -1.0,
    )
}

fn gutter() -> GridTrack {
    GridTrack { kind: GridTrackKind::Gutter, ..fixed(0.0) }
}

fn bases(tracks: &[GridTrack]) -> Vec<f32> {
    tracks.iter().map(|t| f(t.base_size)).collect()
}

fn limits(tracks: &[GridTrack]) -> Vec<f32> {
    tracks.iter().map(|t| f(t.growth_limit)).collect()
}

fn reference_up_to_limits(mut space: f32, tracks: &mut [(f32, f32)], affected: &[bool], any_room: bool) -> f32 {
    while space > 0.000001 {
        let growable = |i: usize, t: &(f32, f32)| affected[i] && t.0 < t.1;
        let count = tracks.iter().enumerate().filter(|(i, t)| growable(*i, t)).count();
        if count == 0 {
            break;
        }
        let least = tracks
            .iter()
            .enumerate()
            .filter(|(i, t)| if any_room { affected[*i] } else { growable(*i, t) })
            .map(|(_, t)| t.1 - t.0)
            .min_by(|a, b| a.total_cmp(b))
            .unwrap();
        let increase = least.min(space / count as f32);
        for (i, t) in tracks.iter_mut().enumerate() {
            if affected[i] && t.0 < t.1 {
                t.0 += increase;
            }
        }
        space -= increase * count as f32;
    }
    space
}

#[test]
fn space_is_shared_up_to_the_limits() {
    let mut tracks = vec![sized(10.0, 20.0), sized(10.0, 12.0), sized(5.0, 5.0), sized(0.0, f32::INFINITY)];
    let affected = vec![true; 4];
    let left = distribute_space_up_to_limits(s(9.0), &mut tracks, &affected);
    // first round: three growable, least room 2, share 3: each takes 2; then two growable share the 3 left
    assert_eq!(bases(&tracks), vec![13.5, 12.0, 5.0, 3.5]);
    assert_eq!(f(left), 0.0);
    assert_eq!(limits(&tracks), vec![20.0, 12.0, 5.0, f32::INFINITY]);
}

#[test]
fn more_space_than_the_tracks_can_take_is_left() {
    let mut tracks = vec![sized(1.0, 2.0), sized(1.0, 4.0)];
    let left = distribute_space_up_to_limits(s(10.0), &mut tracks, &vec![true, true]);
    assert_eq!(bases(&tracks), vec![2.0, 4.0]);
    assert_eq!(f(left), 6.0);
    // tracks that are not affected stay
    let mut tracks = vec![sized(1.0, 2.0), sized(1.0, 4.0)];
    let left = distribute_space_up_to_limits(s(10.0), &mut tracks, &vec![false, true]);
    assert_eq!(bases(&tracks), vec![1.0, 4.0]);
    assert_eq!(f(left), 7.0);
    // nothing to share
    let mut tracks = vec![sized(1.0, 2.0)];
    assert_eq!(f(distribute_space_up_to_limits(s(0.000001), &mut tracks, &vec![true])), 0.000001);
    assert_eq!(f(distribute_space_up_to_limits(s(-3.0), &mut tracks, &vec![true])), -3.0);
    assert!(f(distribute_space_up_to_limits(s(f32::NAN), &mut tracks, &vec![true])).is_nan());
    assert_eq!(bases(&tracks), vec![1.0]);
}

#[test]
fn sharing_is_what_the_hardware_gives() {
    let cases: Vec<(f32, Vec<(f32, f32)>)> = vec![
        (10.0, vec![(0.1, 0.7), (0.3, 3.3), (1e-3, 100.0)]),
        (1.0, vec![(0.0, 0.1), (0.0, 0.2), (0.0, 0.3), (0.0, 1e9)]),
        (33.333, vec![(3.3, 7.7), (7.7, 3.3), (0.0, f32::INFINITY)]),
        (1e10, vec![(1.0, 1e3), (1e-5, 1e-4), (5.0, 6.0), (0.5, 0.625), (2.0, 1e8)]),
        (0.7, vec![(0.1, 0.2), (0.1, 0.2), (0.1, 0.2)]),
    ];
    for (space, sizes) in cases {
        for mask in 0..(1u32 << sizes.len()) {
            let affected: Vec<bool> = (0..sizes.len()).map(|i| mask & (1 << i) != 0).collect();
            let mut tracks: Vec<GridTrack> = sizes.iter().map(|&(b, l)| sized(b, l)).collect();
            let mut expected = sizes.clone();
            let left = distribute_space_up_to_limits(s(space), &mut tracks, &affected);
            let expected_left = reference_up_to_limits(space, &mut expected, &affected, false);
            assert_eq!(f(left).to_bits(), expected_left.to_bits(), "{:?} {:?}", sizes, affected);
            assert_eq!(bases(&tracks), expected.iter().map(|t| t.0).collect::<Vec<_>>());
        }
    }
}

#[test]
fn the_space_of_an_item_goes_to_the_base_sizes() {
    let auto = |base, limit| sized(base, limit);
    let fixed_max = |base, limit| track(MinTrackSizingFunction::Auto, MaxTrackSizingFunction::Fixed(LengthPercentage::Length(s(limit))), base, limit);
    // no track is affected: nothing changes
    let mut tracks = vec![auto(1.0, 5.0), auto(2.0, 5.0)];
    distribute_item_space_to_base_size(s(100.0), &mut tracks, &vec![false, false], IntrinsicContributionType::Minimum);
    assert_eq!(bases(&tracks), vec![1.0, 2.0]);
    // the space fits below the limits
    let mut tracks = vec![auto(1.0, 5.0), auto(2.0, 5.0)];
    distribute_item_space_to_base_size(s(7.0), &mut tracks, &vec![true, true], IntrinsicContributionType::Minimum);
    assert_eq!(bases(&tracks), vec![3.0, 4.0]);
    // what goes beyond the limits is spread among the tracks whose greatest size the content decides
    let mut tracks = vec![fixed_max(1.0, 2.0), auto(1.0, 2.0), auto(1.0, 2.0)];
    distribute_item_space_to_base_size(s(12.0), &mut tracks, &vec![true; 3], IntrinsicContributionType::Minimum);
    assert_eq!(bases(&tracks), vec![2.0, 5.0, 5.0]);
    // or, where there is none, among all the affected ones, in as many shares as there are tracks
    let mut tracks = vec![fixed_max(1.0, 2.0), fixed_max(1.0, 2.0), fixed_max(0.0, 0.0)];
    distribute_item_space_to_base_size(s(10.0), &mut tracks, &vec![true, true, false], IntrinsicContributionType::Maximum);
    assert_eq!(bases(&tracks), vec![4.0, 4.0, 0.0]);
    // a track that takes the least the content needs takes more for a least contribution only
    let min_content = |base, limit| track(MinTrackSizingFunction::Auto, MaxTrackSizingFunction::MinContent, base, limit);
    let mut tracks = vec![min_content(1.0, 1.0), auto(1.0, 1.0)];
    distribute_item_space_to_base_size(s(6.0), &mut tracks, &vec![true, true], IntrinsicContributionType::Minimum);
    assert_eq!(bases(&tracks), vec![3.0, 3.0]);
    let mut tracks = vec![min_content(1.0, 1.0), auto(1.0, 1.0)];
    distribute_item_space_to_base_size(s(6.0), &mut tracks, &vec![true, true], IntrinsicContributionType::Maximum);
    assert_eq!(bases(&tracks), vec![1.0, 5.0]);
}

#[test]
fn the_space_of_an_item_goes_to_the_growth_limits() {
    let growable = |base, limit| GridTrack { infinitely_growable: true, ..sized(base, limit) };
    let mut tracks = vec![growable(1.0, f32::INFINITY), sized(2.0, 3.0), growable(1.0, 4.0)];
    // the limits sum to 1 + 3 + 4; 12 is 4 more, which the two growable tracks share
    distribute_space_to_growth_limit(s(12.0), &mut tracks, &vec![true; 3]);
    assert_eq!(limits(&tracks), vec![3.0, 3.0, 6.0]);
    assert_eq!(bases(&tracks), vec![1.0, 2.0, 1.0]);
    // without a growable track all tracks share
    let mut tracks = vec![sized(1.0, f32::INFINITY), sized(2.0, 3.0)];
    distribute_space_to_growth_limit(s(10.0), &mut tracks, &vec![false, false]);
    assert_eq!(limits(&tracks), vec![4.0, 6.0]);
    // no more space than there is: the infinite limit comes down to the base size
    let mut tracks = vec![growable(1.0, f32::INFINITY), growable(2.0, 3.0)];
    distribute_space_to_growth_limit(s(1.0), &mut tracks, &vec![true, true]);
    assert_eq!(limits(&tracks), vec![1.0, 3.0]);
}

#[test]
fn planned_increases_are_flushed() {
    let planned = |base, plan| GridTrack { base_size_planned_increase: s(plan), ..sized(base, 100.0) };
    let mut tracks = vec![planned(1.0, 3.0), planned(3.0, 1.0), planned(2.0, 2.0)];
    flush_planned_increases(&mut tracks);
    assert_eq!(bases(&tracks), vec![4.0, 3.0, 2.0]);
    assert_eq!(f(sum_base_sizes(&tracks)), 9.0);
    assert_eq!(f(sum_base_sizes(&vec![])), 0.0);
    assert_eq!(f(sum_base_sizes(&vec![sized(0.1, 0.0), sized(0.2, 0.0), sized(0.3, 0.0)])), 0.1f32 + 0.2 + 0.3);
}

#[test]
fn alignment_widens_the_gutters() {
    let tracks = vec![gutter(), sized(10.0, 10.0), gutter(), sized(20.0, 20.0), gutter(), sized(30.0, 30.0), gutter()];
    let space = AvailableSpace::Definite(s(100.0));
    let by_sizes = |alignment| f(compute_alignment_gutter_adjustment(alignment, space, AvailableSpaceMode::OtherAxisSizes, &tracks));
    // the tracks take 60 of 100: the gutters of the edges take no size themselves (base size -1 each above)
    let free = 100.0f32 - (-1.0 + 10.0 - 1.0 + 20.0 - 1.0 + 30.0 - 1.0);
    assert_eq!(by_sizes(AlignContent::SpaceBetween), free / 2.0 * 1.0);
    assert_eq!(by_sizes(AlignContent::SpaceEvenly), free / 4.0 * 1.0);
    assert_eq!(by_sizes(AlignContent::SpaceAround), free / 6.0 * 2.0);
    assert_eq!(by_sizes(AlignContent::Center), 0.0);
    assert_eq!(by_sizes(AlignContent::Start), 0.0);
    // estimates take what the greatest size fixes; one that is open leaves nothing to share
    let by_estimates =
        |tracks: &Vec<GridTrack>| f(compute_alignment_gutter_adjustment(AlignContent::SpaceBetween, space, AvailableSpaceMode::Estimates, tracks));
    assert_eq!(by_estimates(&tracks), 0.0);
    let all_fixed = vec![gutter(), fixed(10.0), gutter(), fixed(20.0), gutter()];
    assert_eq!(by_estimates(&all_fixed), 70.0);
    // no definite space, or a single entry: nothing
    let open = compute_alignment_gutter_adjustment(AlignContent::SpaceBetween, AvailableSpace::MaxContent, AvailableSpaceMode::OtherAxisSizes, &tracks);
    assert_eq!(f(open), 0.0);
    let single = vec![gutter()];
    assert_eq!(f(compute_alignment_gutter_adjustment(AlignContent::SpaceBetween, space, AvailableSpaceMode::OtherAxisSizes, &single)), 0.0);
    // tracks wider than the space leave nothing
    let wide = vec![gutter(), sized(500.0, 0.0), gutter()];
    assert_eq!(f(compute_alignment_gutter_adjustment(AlignContent::SpaceAround, space, AvailableSpaceMode::OtherAxisSizes, &wide)), 0.0);
}

fn item(node: u64, row: (i16, i16), column: (i16, i16)) -> GridItem {
    GridItem::new(
        NodeId::new(node),
        Line { start: OriginZeroLine(row.0), end: OriginZeroLine(row.1) },
        Line { start: OriginZeroLine(column.0), end: OriginZeroLine(column.1) },
    )
}

fn spaces(width: AvailableSpace, height: AvailableSpace) -> Size<AvailableSpace> {
    Size { width, height }
}

#[test]
fn fixed_tracks_are_settled_at_once() {
    let mut tracks = vec![gutter(), fixed(40.0), gutter(), fixed(40.0), gutter()];
    let mut items = vec![item(1, (0, 2), (0, 1)), item(2, (0, 1), (0, 1))];
    let before = items.clone();
    let space = spaces(AvailableSpace::Definite(s(200.0)), AvailableSpace::MaxContent);
    track_sizing_algorithm_inner(GridAxis::Inline, space, space, &mut tracks, &mut items);
    assert_eq!(bases(&tracks), vec![0.0, 40.0, 0.0, 40.0, 0.0]);
    assert_eq!(limits(&tracks), vec![0.0, 40.0, 0.0, 40.0, 0.0]);
    // nothing was left to do: the items stand as they stood
    assert_eq!(items, before);
}

#[test]
fn tracks_grow_into_the_free_space_of_the_grid() {
    let open = || track(MinTrackSizingFunction::Fixed(LengthPercentage::Length(s(10.0))), MaxTrackSizingFunction::Fixed(LengthPercentage::Percent(s(0.5))), 0.0, 0.0);
    let flexible = || track(MinTrackSizingFunction::Auto, MaxTrackSizingFunction::Fraction(s(1.0)), 5.0, 5.0);
    let mut columns = vec![gutter(), open(), gutter(), flexible(), gutter(), fixed(30.0), gutter()];
    let mut rows = vec![gutter(), fixed(7.0), gutter()];
    let rows_before = rows.clone();
    let mut items = vec![item(1, (0, 1), (0, 3)), item(2, (0, 1), (1, 2)), item(3, (0, 1), (0, 1))];
    let space = spaces(AvailableSpace::Definite(s(100.0)), AvailableSpace::Definite(s(50.0)));
    track_sizing_algorithm(space, space, GridAxis::Inline, &mut columns, &mut rows, &mut items);
    // the first column may grow from 10 to half of 100; the flexible one starts at nothing and, with
    // its limit brought down to that, stays; 100 - 40 are free, of which the first column takes 40
    assert_eq!(bases(&columns), vec![0.0, 50.0, 0.0, 0.0, 0.0, 30.0, 0.0]);
    assert_eq!(limits(&columns), vec![0.0, 50.0, 0.0, 0.0, 0.0, 30.0, 0.0]);
    assert_eq!(rows, rows_before);
    // the items are in the order in which they are accommodated: by span, then by line
    assert_eq!(items.iter().map(|i| i.node.0).collect::<Vec<_>>(), vec![3, 2, 1]);

    // with no end of space every track grows to its limit
    let mut columns = vec![gutter(), open(), gutter()];
    let wide = spaces(AvailableSpace::Definite(s(100.0)), AvailableSpace::MaxContent);
    let grid = spaces(AvailableSpace::MaxContent, AvailableSpace::MaxContent);
    track_sizing_algorithm(wide, grid, GridAxis::Inline, &mut columns, &mut rows, &mut items);
    assert_eq!(bases(&columns), vec![0.0, 50.0, 0.0]);
    // under a min-content constraint nothing is free
    let mut columns = vec![gutter(), open(), gutter()];
    let grid = spaces(AvailableSpace::MinContent, AvailableSpace::MaxContent);
    track_sizing_algorithm(wide, grid, GridAxis::Inline, &mut columns, &mut rows, &mut items);
    assert_eq!(bases(&columns), vec![0.0, 10.0, 0.0]);
    assert_eq!(limits(&columns), vec![0.0, 50.0, 0.0]);
    // the block axis sizes the rows
    let mut rows = vec![gutter(), open(), gutter()];
    let columns_before = columns.clone();
    track_sizing_algorithm(space, space, GridAxis::Block, &mut columns, &mut rows, &mut items);
    assert_eq!(bases(&rows), vec![0.0, 25.0, 0.0]);
    assert_eq!(columns, columns_before);
}

#[test]
fn what_a_sizing_function_fixes() {
    let space = AvailableSpace::Definite(s(80.0));
    let length = LengthPercentage::Length(s(12.0));
    let part = LengthPercentage::Percent(s(0.25));
    assert_eq!(MinTrackSizingFunction::Fixed(length.clone()).definite_value(AvailableSpace::MinContent), Some(s(12.0)));
    assert_eq!(MinTrackSizingFunction::Fixed(part.clone()).definite_value(space), Some(s(20.0)));
    assert_eq!(MinTrackSizingFunction::Fixed(part.clone()).definite_value(AvailableSpace::MaxContent), None);
    assert_eq!(MinTrackSizingFunction::Auto.definite_value(space), None);
    assert_eq!(MinTrackSizingFunction::MinContent.definite_value(space), None);
    assert_eq!(MaxTrackSizingFunction::Fixed(length.clone()).definite_value(space), Some(s(12.0)));
    assert_eq!(MaxTrackSizingFunction::Fixed(part).definite_value(space), Some(s(20.0)));
    assert_eq!(MaxTrackSizingFunction::FitContent(length).definite_value(space), None);
    assert_eq!(MaxTrackSizingFunction::Fraction(s(1.0)).definite_value(space), None);
    assert_eq!(MaxTrackSizingFunction::MaxContent.definite_value(space), None);
}

#[test]
fn counts_convert_as_the_hardware_converts_them() {
    let counts = [0usize, 1, 2, 3, 7, 1000, 16777215, 16777216, 16777217, 16777218, 16777219, 33554433, 123456789, 4294967295, 4294967296, 9007199254740993, usize::MAX - 1, usize::MAX];
    for n in counts {
        assert_eq!(Scalar::from_count(n).to_bits(), (n as f32).to_bits(), "{}", n);
    }
}

#[test]
fn the_order_of_all_bit_patterns() {
    let values = [f32::NEG_INFINITY, -1e30, -1.0, -1e-40, -0.0, 0.0, 1e-40, 1.0, 1e30, f32::INFINITY, f32::NAN, -f32::NAN];
    for &a in &values {
        for &b in &values {
            assert_eq!(s(a).total_lt(s(b)), a.total_cmp(&b) == std::cmp::Ordering::Less, "{} {}", a, b);
        }
    }
}

#[test]
fn a_round_that_gives_nothing_ends_the_sharing() {
    // the first track is full: its room, nothing, is the least, so that no round gives the second anything
    let mut tracks = vec![sized(1.0, 1.0), sized(1.0, 5.0)];
    distribute_item_space_to_base_size(s(4.0), &mut tracks, &vec![true, true], IntrinsicContributionType::Minimum);
    // what is left, 2, is then spread beyond the limits
    assert_eq!(bases(&tracks), vec![2.0, 2.0]);
    // a track beyond its limit has less than no room
    let mut tracks = vec![sized(3.0, 1.0), sized(1.0, 5.0)];
    distribute_item_space_to_base_size(s(6.0), &mut tracks, &vec![true, true], IntrinsicContributionType::Minimum);
    assert_eq!(bases(&tracks), vec![4.0, 2.0]);
}
