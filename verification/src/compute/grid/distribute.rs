//! Sharing space among grid tracks.

use crate::compute::grid::track_sizing::IntrinsicContributionType;
use crate::compute::grid::types::GridTrack;
use crate::scalar::{Scalar, INFINITY_BITS};
use vstd::prelude::*;

verus! {

/// The least amount of space that is still shared out: one millionth.
pub const THRESHOLD_BITS: u32 = 0x3586_37bd;

/// Which tracks a distribution may grow before it goes beyond limits.
#[derive(Copy, Clone, Debug, PartialEq, Eq, Structural)]
pub enum Room {
    /// Those whose base size is below their growth limit.
    Growable,
    /// All of them.
    Any,
}

/// Whether a track takes part in a round of a distribution.
pub open spec fn grows(track: GridTrack, affected: bool) -> bool {
    affected && track.base_size.less(track.growth_limit)
}

/// How many of the tracks take part in a round.
pub open spec fn growable_count(tracks: Seq<GridTrack>, affected: Seq<bool>) -> nat
    decreases tracks.len(),
{
    if tracks.len() == 0 {
        0
    } else {
        growable_count(tracks.drop_last(), affected) + (if grows(
            tracks.last(),
            affected[tracks.len() - 1],
        ) {
            1nat
        } else {
            0nat
        })
    }
}

/// Whether the room of a track counts when the least room is looked for.
pub open spec fn counts_for_room(track: GridTrack, affected: bool, room: Room) -> bool {
    affected && (room == Room::Any || track.base_size.less(track.growth_limit))
}

/// The least room that is left in a track among those that count: the
/// least difference of growth limit and base size, in the order of all
/// bit patterns, and of equal ones the first. Nothing where no track
/// counts.
pub open spec fn least_room(tracks: Seq<GridTrack>, affected: Seq<bool>, room: Room) -> Option<Scalar>
    decreases tracks.len(),
{
    if tracks.len() == 0 {
        None
    } else {
        let before = least_room(tracks.drop_last(), affected, room);
        let last = tracks.last();
        if counts_for_room(last, affected[tracks.len() - 1], room) {
            let own = last.growth_limit.difference(last.base_size);
            match before {
                Some(least) => if own.total_rank() < least.total_rank() {
                    Some(own)
                } else {
                    Some(least)
                },
                None => Some(own),
            }
        } else {
            before
        }
    }
}

/// The tracks once each that takes part in a round has grown by `increase`.
pub open spec fn grown(tracks: Seq<GridTrack>, affected: Seq<bool>, increase: Scalar) -> Seq<GridTrack> {
    Seq::new(
        tracks.len(),
        |i: int|
            if grows(tracks[i], affected[i]) {
                GridTrack { base_size: tracks[i].base_size.sum(increase), ..tracks[i] }
            } else {
                tracks[i]
            },
    )
}

/// What each track that takes part grows by in a round: an equal share
/// of the space, but no more than the least room.
pub open spec fn round_increase(
    tracks: Seq<GridTrack>,
    affected: Seq<bool>,
    room: Room,
    space: Scalar,
) -> Scalar {
    least_room(tracks, affected, room).unwrap().smaller(
        space.quotient(Scalar::of_count(growable_count(tracks, affected))),
    )
}

/// Whether a distribution goes on: there is more than the threshold to
/// share out, a track to take it, and a round gives the tracks something.
/// A round that gives nothing would leave everything as it is, round
/// after round: that is so where a track that counts for the least room
/// is full already.
pub open spec fn goes_on(tracks: Seq<GridTrack>, affected: Seq<bool>, room: Room, space: Scalar) -> bool {
    &&& Scalar(THRESHOLD_BITS).less(space)
    &&& growable_count(tracks, affected) > 0
    &&& Scalar::zero_value().less(round_increase(tracks, affected, room, space))
}

/// The tracks and the space that is left after at most `rounds` rounds
/// of sharing `space` among the tracks that can take it. In each round
/// every track that is affected and below its growth limit grows by the
/// same amount: its share of the space, but no more than the least room
/// left; the space shrinks by what was given. The rounds end when no
/// more than the threshold is left, no track can take more, or a round
/// would give nothing.
pub open spec fn distributed(
    tracks: Seq<GridTrack>,
    affected: Seq<bool>,
    room: Room,
    space: Scalar,
    rounds: nat,
) -> (Seq<GridTrack>, Scalar)
    decreases rounds,
{
    if rounds == 0 || !goes_on(tracks, affected, room, space) {
        (tracks, space)
    } else {
        let increase = round_increase(tracks, affected, room, space);
        distributed(
            grown(tracks, affected, increase),
            affected,
            room,
            space.difference(
                increase.product(Scalar::of_count(growable_count(tracks, affected))),
            ),
            (rounds - 1) as nat,
        )
    }
}

/// Whether a distribution has ended within `rounds` rounds: after them
/// no more than the threshold is left to share, or no track can take
/// more.
pub open spec fn ended_within(
    tracks: Seq<GridTrack>,
    affected: Seq<bool>,
    room: Room,
    space: Scalar,
    rounds: nat,
) -> bool {
    !goes_on(
        distributed(tracks, affected, room, space, rounds).0,
        affected,
        room,
        distributed(tracks, affected, room, space, rounds).1,
    )
}

/// A distribution that has ended within some number of rounds gives the
/// same whatever greater number of rounds it is allowed: the bound on the
/// rounds decides nothing once the space is shared out or the tracks are
/// full.
pub proof fn lemma_rounds_beyond_the_end_change_nothing(
    tracks: Seq<GridTrack>,
    affected: Seq<bool>,
    room: Room,
    space: Scalar,
    enough: nat,
    more: nat,
)
    requires
        ended_within(tracks, affected, room, space, enough),
        enough <= more,
    ensures
        distributed(tracks, affected, room, space, more) == distributed(
            tracks,
            affected,
            room,
            space,
            enough,
        ),
    decreases enough,
{
    if enough > 0 && goes_on(tracks, affected, room, space) {
        let increase = round_increase(tracks, affected, room, space);
        lemma_rounds_beyond_the_end_change_nothing(
            grown(tracks, affected, increase),
            affected,
            room,
            space.difference(increase.product(Scalar::of_count(growable_count(tracks, affected)))),
            (enough - 1) as nat,
            (more - 1) as nat,
        );
    }
}

fn count_growable(tracks: &Vec<GridTrack>, affected: &Vec<bool>) -> (count: usize)
    requires
        affected@.len() == tracks@.len(),
    ensures
        count == growable_count(tracks@, affected@),
        count <= tracks@.len(),
{
    let mut count: usize = 0;
    let mut i: usize = 0;
    proof {
        assert(tracks@.take(0) =~= Seq::empty());
    }
    while i < tracks.len()
        invariant
            i <= tracks@.len(),
            affected@.len() == tracks@.len(),
            count <= i,
            count == growable_count(tracks@.take(i as int), affected@),
        decreases tracks@.len() - i,
    {
        proof {
            assert(tracks@.take(i + 1).drop_last() =~= tracks@.take(i as int));
            assert(tracks@.take(i + 1).last() == tracks@[i as int]);
        }
        if affected[i] && tracks[i].base_size.lt(tracks[i].growth_limit) {
            count += 1;
        }
        i += 1;
    }
    proof {
        assert(tracks@.take(tracks@.len() as int) =~= tracks@);
    }
    count
}

fn find_least_room(tracks: &Vec<GridTrack>, affected: &Vec<bool>, room: Room) -> (least: Option<Scalar>)
    requires
        affected@.len() == tracks@.len(),
    ensures
        least == least_room(tracks@, affected@, room),
{
    let mut least: Option<Scalar> = None;
    let mut i: usize = 0;
    proof {
        assert(tracks@.take(0) =~= Seq::empty());
    }
    while i < tracks.len()
        invariant
            i <= tracks@.len(),
            affected@.len() == tracks@.len(),
            least == least_room(tracks@.take(i as int), affected@, room),
        decreases tracks@.len() - i,
    {
        proof {
            assert(tracks@.take(i + 1).drop_last() =~= tracks@.take(i as int));
            assert(tracks@.take(i + 1).last() == tracks@[i as int]);
        }
        let counts = affected[i] && (matches!(room, Room::Any) || tracks[i].base_size.lt(
            tracks[i].growth_limit,
        ));
        if counts {
            let own = tracks[i].growth_limit.minus(tracks[i].base_size);
            least = match least {
                Some(found) => if own.total_lt(found) {
                    Some(own)
                } else {
                    Some(found)
                },
                None => Some(own),
            };
        }
        i += 1;
    }
    proof {
        assert(tracks@.take(tracks@.len() as int) =~= tracks@);
    }
    least
}

/// Where a track takes part in a round, some track counts for the least room.
proof fn lemma_growable_has_room(tracks: Seq<GridTrack>, affected: Seq<bool>, room: Room)
    requires
        growable_count(tracks, affected) > 0,
    ensures
        least_room(tracks, affected, room) is Some,
    decreases tracks.len(),
{
    if tracks.len() > 0 {
        if !grows(tracks.last(), affected[tracks.len() - 1]) {
            lemma_growable_has_room(tracks.drop_last(), affected, room);
        }
    }
}

fn grow(tracks: &mut Vec<GridTrack>, affected: &Vec<bool>, increase: Scalar)
    requires
        affected@.len() == old(tracks)@.len(),
    ensures
        final(tracks)@ == grown(old(tracks)@, affected@, increase),
{
    let n = tracks.len();
    let mut i: usize = 0;
    while i < n
        invariant
            i <= n,
            tracks@.len() == n,
            n == old(tracks)@.len(),
            affected@.len() == n,
            forall|k: int| 0 <= k < i ==> #[trigger] tracks@[k] == grown(old(tracks)@, affected@, increase)[k],
            forall|k: int| i <= k < n ==> #[trigger] tracks@[k] == old(tracks)@[k],
        decreases n - i,
    {
        if affected[i] && tracks[i].base_size.lt(tracks[i].growth_limit) {
            let base = tracks[i].base_size.plus(increase);
            tracks[i].base_size = base;
        }
        i += 1;
    }
    proof {
        assert(tracks@ =~= grown(old(tracks)@, affected@, increase));
    }
}

fn distribute<'a>(
    space: Scalar,
    tracks: &'a mut Vec<GridTrack>,
    affected: &Vec<bool>,
    room: Room,
    rounds: usize,
) -> (left: Scalar)
    requires
        affected@.len() == old(tracks)@.len(),
    ensures
        (final(tracks)@, left) == distributed(old(tracks)@, affected@, room, space, rounds as nat),
        final(tracks)@.len() == old(tracks)@.len(),
{
    let mut space_to_distribute = space;
    let mut rounds_left = rounds;
    loop
        invariant
            affected@.len() == tracks@.len(),
            tracks@.len() == old(tracks)@.len(),
            distributed(old(tracks)@, affected@, room, space, rounds as nat) == distributed(
                tracks@,
                affected@,
                room,
                space_to_distribute,
                rounds_left as nat,
            ),
        ensures
            (tracks@, space_to_distribute) == distributed(
                old(tracks)@,
                affected@,
                room,
                space,
                rounds as nat,
            ),
            tracks@.len() == old(tracks)@.len(),
        decreases rounds_left,
    {
        if rounds_left == 0 || !space_to_distribute.gt(Scalar(THRESHOLD_BITS)) {
            break;
        }
        let number_of_growable_tracks = count_growable(tracks, affected);
        if number_of_growable_tracks == 0 {
            break;
        }
        proof {
            lemma_growable_has_room(tracks@, affected@, room);
        }
        let least = match find_least_room(tracks, affected, room) {
            Some(least) => least,
            None => Scalar(0),
        };
        let count = Scalar::from_count(number_of_growable_tracks);
        let item_incurred_increase = least.min(space_to_distribute.over(count));
        if !item_incurred_increase.gt(Scalar(0)) {
            break;
        }
        grow(tracks, affected, item_incurred_increase);
        space_to_distribute = space_to_distribute.minus(item_incurred_increase.times(count));
        rounds_left -= 1;
    }
    space_to_distribute
}

/// The most rounds that a distribution runs: as many as a machine word
/// counts. Every round takes a pass over the tracks, so that no run comes
/// near it.
pub open spec fn most_rounds() -> nat {
    usize::MAX as nat
}

/// Shares `space` among the affected tracks that are below their growth
/// limit, up to those limits. In each round every such track grows by
/// the same amount: its share of the space, but no more than the least
/// room left in one of them; the rounds end when no more than the
/// threshold is left to share or no track can take more. Returns the
/// space that is left.
pub fn distribute_space_up_to_limits(
    space_to_distribute: Scalar,
    tracks: &mut Vec<GridTrack>,
    affected: &Vec<bool>,
) -> (left: Scalar)
    requires
        affected@.len() == old(tracks)@.len(),
    ensures
        (final(tracks)@, left) == distributed(
            old(tracks)@,
            affected@,
            Room::Growable,
            space_to_distribute,
            most_rounds(),
        ),
{
    distribute(space_to_distribute, tracks, affected, Room::Growable, usize::MAX)
}

/// The sum of the base sizes of the tracks, added up in order from zero.
pub open spec fn base_size_sum(tracks: Seq<GridTrack>) -> Scalar
    decreases tracks.len(),
{
    if tracks.len() == 0 {
        Scalar::zero_value()
    } else {
        base_size_sum(tracks.drop_last()).sum(tracks.last().base_size)
    }
}

/// The sum of the base sizes of the tracks.
pub fn sum_base_sizes(tracks: &Vec<GridTrack>) -> (sum: Scalar)
    ensures
        sum == base_size_sum(tracks@),
{
    let mut sum = Scalar(0);
    let mut i: usize = 0;
    proof {
        assert(tracks@.take(0) =~= Seq::empty());
    }
    while i < tracks.len()
        invariant
            i <= tracks@.len(),
            sum == base_size_sum(tracks@.take(i as int)),
        decreases tracks@.len() - i,
    {
        proof {
            assert(tracks@.take(i + 1).drop_last() =~= tracks@.take(i as int));
            assert(tracks@.take(i + 1).last() == tracks@[i as int]);
        }
        sum = sum.plus(tracks[i].base_size);
        i += 1;
    }
    proof {
        assert(tracks@.take(tracks@.len() as int) =~= tracks@);
    }
    sum
}

/// How many of the flags are set.
pub open spec fn set_count(flags: Seq<bool>) -> nat
    decreases flags.len(),
{
    if flags.len() == 0 {
        0
    } else {
        set_count(flags.drop_last()) + (if flags.last() {
            1nat
        } else {
            0nat
        })
    }
}

fn count_set(flags: &Vec<bool>) -> (count: usize)
    ensures
        count == set_count(flags@),
        count <= flags@.len(),
{
    let mut count: usize = 0;
    let mut i: usize = 0;
    proof {
        assert(flags@.take(0) =~= Seq::empty());
    }
    while i < flags.len()
        invariant
            i <= flags@.len(),
            count <= i,
            count == set_count(flags@.take(i as int)),
        decreases flags@.len() - i,
    {
        proof {
            assert(flags@.take(i + 1).drop_last() =~= flags@.take(i as int));
            assert(flags@.take(i + 1).last() == flags@[i as int]);
        }
        if flags[i] {
            count += 1;
        }
        i += 1;
    }
    proof {
        assert(flags@.take(flags@.len() as int) =~= flags@);
    }
    count
}

/// Whether a track takes space beyond its growth limit when an item's
/// contribution of the given kind is accommodated: one whose greatest
/// size is left to the content for a least contribution, one that takes
/// what the content asks for otherwise.
pub open spec fn takes_beyond_limit(track: GridTrack, kind: IntrinsicContributionType) -> bool {
    let max = track.max_track_sizing_function;
    max is MaxContent || max is FitContent || max is Auto || (kind
        == IntrinsicContributionType::Minimum && max is MinContent)
}

/// For each track, whether it is affected and takes space beyond its limit.
pub open spec fn beyond_limit_flags(tracks: Seq<GridTrack>, affected: Seq<bool>, kind: IntrinsicContributionType) -> Seq<
    bool,
> {
    Seq::new(tracks.len(), |i: int| affected[i] && takes_beyond_limit(tracks[i], kind))
}

/// The tracks once each that is affected and passes has its base size
/// raised by `increase`.
pub open spec fn raised(tracks: Seq<GridTrack>, passes: Seq<bool>, increase: Scalar) -> Seq<GridTrack> {
    Seq::new(
        tracks.len(),
        |i: int|
            if passes[i] {
                GridTrack { base_size: tracks[i].base_size.sum(increase), ..tracks[i] }
            } else {
                tracks[i]
            },
    )
}

/// The tracks once what is left of an item's space after the rounds is
/// shared beyond the growth limits: among the affected tracks that take
/// space beyond their limit, or, where there is none, among all affected
/// tracks, in as many shares as there are tracks.
pub open spec fn spread_beyond_limits(
    tracks: Seq<GridTrack>,
    affected: Seq<bool>,
    kind: IntrinsicContributionType,
    left: Scalar,
) -> Seq<GridTrack> {
    if !Scalar(THRESHOLD_BITS).less(left) {
        tracks
    } else {
        let flags = beyond_limit_flags(tracks, affected, kind);
        if set_count(flags) == 0 {
            raised(tracks, affected, left.quotient(Scalar::of_count(tracks.len())))
        } else {
            raised(tracks, flags, left.quotient(Scalar::of_count(set_count(flags))))
        }
    }
}

/// The tracks once an item's space is accommodated in their base sizes:
/// what the space exceeds the sum of the base sizes by is shared among
/// the affected tracks up to their growth limits, in at most `rounds`
/// rounds, and what is left then is spread beyond the limits. Without an
/// affected track nothing changes.
pub open spec fn with_item_space(
    tracks: Seq<GridTrack>,
    affected: Seq<bool>,
    kind: IntrinsicContributionType,
    space: Scalar,
    rounds: nat,
) -> Seq<GridTrack> {
    if set_count(affected) == 0 {
        tracks
    } else {
        let extra_space = Scalar::zero_value().larger(space.difference(base_size_sum(tracks)));
        let shared = distributed(tracks, affected, Room::Any, extra_space, rounds);
        spread_beyond_limits(shared.0, affected, kind, shared.1)
    }
}

fn raise(tracks: &mut Vec<GridTrack>, passes: &Vec<bool>, increase: Scalar)
    requires
        passes@.len() == old(tracks)@.len(),
    ensures
        final(tracks)@ == raised(old(tracks)@, passes@, increase),
{
    let n = tracks.len();
    let mut i: usize = 0;
    while i < n
        invariant
            i <= n,
            tracks@.len() == n,
            n == old(tracks)@.len(),
            passes@.len() == n,
            forall|k: int| 0 <= k < i ==> #[trigger] tracks@[k] == raised(old(tracks)@, passes@, increase)[k],
            forall|k: int| i <= k < n ==> #[trigger] tracks@[k] == old(tracks)@[k],
        decreases n - i,
    {
        if passes[i] {
            let base = tracks[i].base_size.plus(increase);
            tracks[i].base_size = base;
        }
        i += 1;
    }
    proof {
        assert(tracks@ =~= raised(old(tracks)@, passes@, increase));
    }
}

fn flag_beyond_limit(tracks: &Vec<GridTrack>, affected: &Vec<bool>, kind: IntrinsicContributionType) -> (flags: Vec<bool>)
    requires
        affected@.len() == tracks@.len(),
    ensures
        flags@ == beyond_limit_flags(tracks@, affected@, kind),
{
    let mut flags: Vec<bool> = Vec::new();
    let mut i: usize = 0;
    while i < tracks.len()
        invariant
            i <= tracks@.len(),
            affected@.len() == tracks@.len(),
            flags@.len() == i,
            forall|k: int|
                0 <= k < i ==> #[trigger] flags@[k] == (affected@[k] && takes_beyond_limit(
                    tracks@[k],
                    kind,
                )),
        decreases tracks@.len() - i,
    {
        let takes = match kind {
            IntrinsicContributionType::Minimum => tracks[i].max_track_sizing_function.is_intrinsic(),
            IntrinsicContributionType::Maximum => tracks[i].max_track_sizing_function.is_max_content(),
        };
        flags.push(affected[i] && takes);
        i += 1;
    }
    proof {
        assert(flags@ =~= beyond_limit_flags(tracks@, affected@, kind));
    }
    flags
}

/// Accommodates the space of an item in the base sizes of the tracks
/// that it spans: what the space exceeds the sum of the base sizes by is
/// shared among the affected tracks up to their growth limits, and what
/// is left then is spread beyond the limits.
pub fn distribute_item_space_to_base_size(
    space: Scalar,
    tracks: &mut Vec<GridTrack>,
    affected: &Vec<bool>,
    kind: IntrinsicContributionType,
)
    requires
        affected@.len() == old(tracks)@.len(),
    ensures
        final(tracks)@ == with_item_space(old(tracks)@, affected@, kind, space, most_rounds()),
{
    if count_set(affected) == 0 {
        return ;
    }
    let track_sizes = sum_base_sizes(tracks);
    let extra_space = Scalar(0).max(space.minus(track_sizes));
    let left = distribute(extra_space, tracks, affected, Room::Any, usize::MAX);
    if left.gt(Scalar(THRESHOLD_BITS)) {
        let flags = flag_beyond_limit(tracks, affected, kind);
        let number_of_tracks = count_set(&flags);
        if number_of_tracks == 0 {
            let increase = left.over(Scalar::from_count(tracks.len()));
            raise(tracks, affected, increase);
        } else {
            let increase = left.over(Scalar::from_count(number_of_tracks));
            raise(tracks, &flags, increase);
        }
    }
}

/// The size from which the growth limit of a track grows: the growth
/// limit, or the base size where the limit is still infinite.
pub open spec fn growth_basis_of(track: GridTrack) -> Scalar {
    if track.growth_limit.same(Scalar(INFINITY_BITS)) {
        track.base_size
    } else {
        track.growth_limit
    }
}

/// The sum of the sizes from which the growth limits grow, added up in
/// order from zero.
pub open spec fn growth_basis_sum(tracks: Seq<GridTrack>) -> Scalar
    decreases tracks.len(),
{
    if tracks.len() == 0 {
        Scalar::zero_value()
    } else {
        growth_basis_sum(tracks.drop_last()).sum(growth_basis_of(tracks.last()))
    }
}

/// For each track, whether it is affected and its growth limit may grow further.
pub open spec fn limit_growth_flags(tracks: Seq<GridTrack>, affected: Seq<bool>) -> Seq<bool> {
    Seq::new(tracks.len(), |i: int| affected[i] && tracks[i].infinitely_growable)
}

/// The tracks once each that passes has for a growth limit the size from
/// which it grows, raised by `increase`.
pub open spec fn with_limits_raised(tracks: Seq<GridTrack>, passes: Seq<bool>, increase: Scalar) -> Seq<
    GridTrack,
> {
    Seq::new(
        tracks.len(),
        |i: int|
            if passes[i] {
                GridTrack { growth_limit: growth_basis_of(tracks[i]).sum(increase), ..tracks[i] }
            } else {
                tracks[i]
            },
    )
}

/// The tracks once an item's space is accommodated in their growth
/// limits: what the space exceeds the sum of the limits by is shared
/// equally among the affected tracks whose limit may grow further, or,
/// where there is none, among all tracks.
pub open spec fn with_space_in_growth_limits(tracks: Seq<GridTrack>, affected: Seq<bool>, space: Scalar) -> Seq<
    GridTrack,
> {
    let extra_space = Scalar::zero_value().larger(space.difference(growth_basis_sum(tracks)));
    let flags = limit_growth_flags(tracks, affected);
    if set_count(flags) > 0 {
        with_limits_raised(tracks, flags, extra_space.quotient(Scalar::of_count(set_count(flags))))
    } else {
        with_limits_raised(
            tracks,
            Seq::new(tracks.len(), |i: int| true),
            extra_space.quotient(Scalar::of_count(tracks.len())),
        )
    }
}

/// Accommodates the space of an item in the growth limits of the tracks
/// that it spans.
pub fn distribute_space_to_growth_limit(space: Scalar, tracks: &mut Vec<GridTrack>, affected: &Vec<bool>)
    requires
        affected@.len() == old(tracks)@.len(),
    ensures
        final(tracks)@ == with_space_in_growth_limits(old(tracks)@, affected@, space),
{
    let n = tracks.len();
    let mut track_sizes = Scalar(0);
    let mut flags: Vec<bool> = Vec::new();
    let mut i: usize = 0;
    proof {
        assert(tracks@.take(0) =~= Seq::empty());
    }
    while i < n
        invariant
            i <= n,
            n == tracks@.len(),
            affected@.len() == n,
            flags@.len() == i,
            track_sizes == growth_basis_sum(tracks@.take(i as int)),
            forall|k: int|
                0 <= k < i ==> #[trigger] flags@[k] == (affected@[k] && tracks@[k].infinitely_growable),
        decreases n - i,
    {
        proof {
            assert(tracks@.take(i + 1).drop_last() =~= tracks@.take(i as int));
            assert(tracks@.take(i + 1).last() == tracks@[i as int]);
        }
        track_sizes = track_sizes.plus(tracks[i].growth_basis());
        flags.push(affected[i] && tracks[i].infinitely_growable);
        i += 1;
    }
    proof {
        assert(tracks@.take(n as int) =~= tracks@);
        assert(flags@ =~= limit_growth_flags(tracks@, affected@));
    }
    let extra_space = Scalar(0).max(space.minus(track_sizes));
    let number_of_growable_tracks = count_set(&flags);
    let everywhere = number_of_growable_tracks == 0;
    let increase = if everywhere {
        extra_space.over(Scalar::from_count(n))
    } else {
        extra_space.over(Scalar::from_count(number_of_growable_tracks))
    };
    let ghost passes = if everywhere {
        Seq::new(n as nat, |i: int| true)
    } else {
        flags@
    };
    let mut i: usize = 0;
    while i < n
        invariant
            i <= n,
            tracks@.len() == n,
            n == old(tracks)@.len(),
            flags@.len() == n,
            passes.len() == n,
            forall|k: int| 0 <= k < n ==> #[trigger] passes[k] == (everywhere || flags@[k]),
            forall|k: int|
                0 <= k < i ==> #[trigger] tracks@[k] == with_limits_raised(
                    old(tracks)@,
                    passes,
                    increase,
                )[k],
            forall|k: int| i <= k < n ==> #[trigger] tracks@[k] == old(tracks)@[k],
        decreases n - i,
    {
        if everywhere || flags[i] {
            let limit = tracks[i].growth_basis().plus(increase);
            tracks[i].growth_limit = limit;
        }
        i += 1;
    }
    proof {
        assert(tracks@ =~= with_limits_raised(old(tracks)@, passes, increase));
    }
}

/// Adds to the base size of each track what was planned for it, where
/// that is more than the base size.
pub fn flush_planned_increases(tracks: &mut Vec<GridTrack>)
    ensures
        final(tracks)@.len() == old(tracks)@.len(),
        forall|i: int|
            0 <= i < old(tracks)@.len() ==> #[trigger] final(tracks)@[i] == (if old(
                tracks,
            )@[i].base_size.less(old(tracks)@[i].base_size_planned_increase) {
                GridTrack {
                    base_size: old(tracks)@[i].base_size.sum(
                        old(tracks)@[i].base_size_planned_increase,
                    ),
                    ..old(tracks)@[i]
                }
            } else {
                old(tracks)@[i]
            }),
{
    let n = tracks.len();
    let mut i: usize = 0;
    while i < n
        invariant
            i <= n,
            tracks@.len() == n,
            n == old(tracks)@.len(),
            forall|k: int|
                0 <= k < i ==> #[trigger] tracks@[k] == (if old(tracks)@[k].base_size.less(
                    old(tracks)@[k].base_size_planned_increase,
                ) {
                    GridTrack {
                        base_size: old(tracks)@[k].base_size.sum(
                            old(tracks)@[k].base_size_planned_increase,
                        ),
                        ..old(tracks)@[k]
                    }
                } else {
                    old(tracks)@[k]
                }),
            forall|k: int| i <= k < n ==> #[trigger] tracks@[k] == old(tracks)@[k],
        decreases n - i,
    {
        if tracks[i].base_size_planned_increase.gt(tracks[i].base_size) {
            let base = tracks[i].base_size.plus(tracks[i].base_size_planned_increase);
            tracks[i].base_size = base;
        }
        i += 1;
    }
}

} // verus!
