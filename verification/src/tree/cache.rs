//! What a node remembers of earlier layout runs.

use crate::geometry::Size;
use crate::scalar::Scalar;
use crate::style::dimension::AvailableSpace;
use crate::tree::{LayoutOutput, RunMode};
use vstd::prelude::*;

verus! {

/// The number of sizes that a node remembers besides its last full layout.
pub const CACHE_SIZE: usize = 9;

/// A full layout with the constraints under which it was computed.
#[derive(Copy, Clone, Debug, PartialEq, Eq, Structural)]
pub struct LayoutEntry {
    /// The sizes that the parent had settled.
    pub known_dimensions: Size<Option<Scalar>>,
    /// The space that was on offer.
    pub available_space: Size<AvailableSpace>,
    /// What the run produced.
    pub content: LayoutOutput,
}

/// What a run for a size produced, with the constraints under which it
/// was computed.
#[derive(Copy, Clone, Debug, PartialEq, Eq, Structural)]
pub struct SizeEntry {
    /// The sizes that the parent had settled.
    pub known_dimensions: Size<Option<Scalar>>,
    /// The space that was on offer.
    pub available_space: Size<AvailableSpace>,
    /// What the run produced.
    pub content: LayoutOutput,
}

/// What a node remembers: its last full layout, and one size for each kind
/// of constraint under which a size can be asked for.
#[derive(Copy, Clone, Debug, PartialEq, Eq)]
pub struct Cache {
    /// The last full layout.
    pub final_layout_entry: Option<LayoutEntry>,
    /// The remembered sizes, by the kind of their constraints.
    pub measure_entries: [Option<SizeEntry>; 9],
}

/// The place among the remembered sizes for a run under the given
/// constraints. Runs differ in kind by which dimensions the parent has
/// settled and, for each axis that it has not, by whether the space on offer
/// is a min-content constraint.
pub open spec fn cache_slot(
    known_dimensions: Size<Option<Scalar>>,
    available_space: Size<AvailableSpace>,
) -> int {
    let width_min: int = if available_space.width is MinContent { 1 } else { 0 };
    let height_min: int = if available_space.height is MinContent { 1 } else { 0 };
    if known_dimensions.width is Some && known_dimensions.height is Some {
        0
    } else if known_dimensions.width is Some {
        1 + height_min
    } else if known_dimensions.height is Some {
        3 + width_min
    } else {
        5 + 2 * width_min + height_min
    }
}

/// The place among the remembered sizes for a run under the given constraints.
pub fn compute_cache_slot(
    known_dimensions: Size<Option<Scalar>>,
    available_space: Size<AvailableSpace>,
) -> (slot: usize)
    ensures
        slot == cache_slot(known_dimensions, available_space),
        slot < CACHE_SIZE,
{
    let width_min: usize = if matches!(available_space.width, AvailableSpace::MinContent) {
        1
    } else {
        0
    };
    let height_min: usize = if matches!(available_space.height, AvailableSpace::MinContent) {
        1
    } else {
        0
    };
    if known_dimensions.width.is_some() && known_dimensions.height.is_some() {
        0
    } else if known_dimensions.width.is_some() {
        1 + height_min
    } else if known_dimensions.height.is_some() {
        3 + width_min
    } else {
        5 + 2 * width_min + height_min
    }
}

impl Cache {
    /// Whether nothing is remembered.
    pub open spec fn empty(self) -> bool {
        self.final_layout_entry is None && forall|i: int|
            0 <= i < CACHE_SIZE ==> self.measure_entries[i] is None
    }

    /// Whether every remembered size stands at the place of its kind,
    /// which it does in a cache that was filled by `store` alone.
    pub open spec fn in_place(self) -> bool {
        forall|i: int|
            0 <= i < CACHE_SIZE && (#[trigger] self.measure_entries[i]) is Some ==> cache_slot(
                self.measure_entries[i].unwrap().known_dimensions,
                self.measure_entries[i].unwrap().available_space,
            ) == i
    }

    /// What is remembered once a run in `run_mode` under the given
    /// constraints has produced `output`: a full layout replaces the last
    /// one, a size takes the place of its kind, and a hidden run leaves no trace.
    pub open spec fn stored(
        self,
        known_dimensions: Size<Option<Scalar>>,
        available_space: Size<AvailableSpace>,
        run_mode: RunMode,
        output: LayoutOutput,
    ) -> (Option<LayoutEntry>, Seq<Option<SizeEntry>>) {
        match run_mode {
            RunMode::PerformLayout => (
                Some(LayoutEntry { known_dimensions, available_space, content: output }),
                self.measure_entries@,
            ),
            RunMode::ComputeSize => (
                self.final_layout_entry,
                self.measure_entries@.update(
                    cache_slot(known_dimensions, available_space),
                    Some(SizeEntry { known_dimensions, available_space, content: output }),
                ),
            ),
            RunMode::PerformHiddenLayout => (self.final_layout_entry, self.measure_entries@),
        }
    }

    /// A cache that remembers nothing.
    pub fn new() -> (cache: Cache)
        ensures
            cache.empty(),
            cache.in_place(),
    {
        Cache {
            final_layout_entry: None,
            measure_entries: [None, None, None, None, None, None, None, None, None],
        }
    }

    /// Remembers what a run has produced.
    pub fn store(
        &mut self,
        known_dimensions: Size<Option<Scalar>>,
        available_space: Size<AvailableSpace>,
        run_mode: RunMode,
        output: LayoutOutput,
    )
        ensures
            final(self).final_layout_entry == old(self).stored(
                known_dimensions,
                available_space,
                run_mode,
                output,
            ).0,
            final(self).measure_entries@ == old(self).stored(
                known_dimensions,
                available_space,
                run_mode,
                output,
            ).1,
            run_mode != RunMode::PerformHiddenLayout ==> !final(self).empty(),
            old(self).in_place() ==> final(self).in_place(),
    {
        match run_mode {
            RunMode::PerformLayout => {
                self.final_layout_entry = Some(
                    LayoutEntry { known_dimensions, available_space, content: output },
                );
            },
            RunMode::ComputeSize => {
                let slot = compute_cache_slot(known_dimensions, available_space);
                self.measure_entries[slot] = Some(
                    SizeEntry { known_dimensions, available_space, content: output },
                );
                assert(self.measure_entries[slot as int] is Some);
            },
            RunMode::PerformHiddenLayout => {},
        }
    }

    /// Forgets everything.
    pub fn clear(&mut self)
        ensures
            final(self).empty(),
            final(self).in_place(),
    {
        self.final_layout_entry = None;
        self.measure_entries = [None, None, None, None, None, None, None, None, None];
    }

    /// Whether nothing is remembered.
    pub fn is_empty(&self) -> (empty: bool)
        ensures
            empty == self.empty(),
    {
        if self.final_layout_entry.is_some() {
            return false;
        }
        let mut i: usize = 0;
        while i < CACHE_SIZE
            invariant
                i <= CACHE_SIZE,
                self.final_layout_entry is None,
                forall|j: int| 0 <= j < i ==> self.measure_entries[j] is None,
            decreases CACHE_SIZE - i,
        {
            if self.measure_entries[i].is_some() {
                return false;
            }
            i += 1;
        }
        true
    }
}

/// Whether two lengths that may be unset are equal as numbers.
pub open spec fn same_option(a: Option<Scalar>, b: Option<Scalar>) -> bool {
    match (a, b) {
        (Some(a), Some(b)) => a.same(b),
        (None, None) => true,
        _ => false,
    }
}

/// Whether what was computed under the constraints `entry_known` and
/// `entry_space` with the size `cached_size` answers a query under
/// `known_dimensions` and `available_space`. On each axis the known
/// dimension of the query must be that of the entry or the size that the
/// entry holds; and where the query knows no dimension, the space on offer
/// must be roughly what it was. So an entry answers every query that knows
/// the dimensions which the entry computed, whatever space is on offer.
pub open spec fn answers(
    entry_known: Size<Option<Scalar>>,
    entry_space: Size<AvailableSpace>,
    cached_size: Size<Scalar>,
    known_dimensions: Size<Option<Scalar>>,
    available_space: Size<AvailableSpace>,
) -> bool {
    &&& same_option(known_dimensions.width, entry_known.width) || same_option(
        known_dimensions.width,
        Some(cached_size.width),
    )
    &&& same_option(known_dimensions.height, entry_known.height) || same_option(
        known_dimensions.height,
        Some(cached_size.height),
    )
    &&& known_dimensions.width is Some || entry_space.width.roughly_equal(available_space.width)
    &&& known_dimensions.height is Some || entry_space.height.roughly_equal(available_space.height)
}

/// Whether the size entry at `i` answers the query.
pub open spec fn size_entry_answers(
    entries: Seq<Option<SizeEntry>>,
    i: int,
    known_dimensions: Size<Option<Scalar>>,
    available_space: Size<AvailableSpace>,
) -> bool {
    entries[i] is Some && answers(
        entries[i].unwrap().known_dimensions,
        entries[i].unwrap().available_space,
        entries[i].unwrap().content.size,
        known_dimensions,
        available_space,
    )
}

fn option_eq(a: Option<Scalar>, b: Option<Scalar>) -> (same: bool)
    ensures
        same == same_option(a, b),
{
    match (a, b) {
        (Some(a), Some(b)) => a.num_eq(b),
        (None, None) => true,
        _ => false,
    }
}

/// Whether an entry answers a query.
pub fn entry_answers(
    entry_known: Size<Option<Scalar>>,
    entry_space: Size<AvailableSpace>,
    cached_size: Size<Scalar>,
    known_dimensions: Size<Option<Scalar>>,
    available_space: Size<AvailableSpace>,
) -> (hit: bool)
    ensures
        hit == answers(entry_known, entry_space, cached_size, known_dimensions, available_space),
{
    (option_eq(known_dimensions.width, entry_known.width) || option_eq(
        known_dimensions.width,
        Some(cached_size.width),
    )) && (option_eq(known_dimensions.height, entry_known.height) || option_eq(
        known_dimensions.height,
        Some(cached_size.height),
    )) && (known_dimensions.width.is_some() || entry_space.width.is_roughly_equal(
        available_space.width,
    )) && (known_dimensions.height.is_some() || entry_space.height.is_roughly_equal(
        available_space.height,
    ))
}

impl Cache {
    /// What the cache holds for a query: for a full layout, the last one
    /// if it answers the query; for a size, the first of the remembered
    /// sizes that answers it, as the output of a box of that size; for a
    /// hidden run, nothing.
    pub fn get(
        &self,
        known_dimensions: Size<Option<Scalar>>,
        available_space: Size<AvailableSpace>,
        run_mode: RunMode,
    ) -> (output: Option<LayoutOutput>)
        ensures
            run_mode == RunMode::PerformHiddenLayout ==> output is None,
            run_mode == RunMode::PerformLayout ==> output == (match self.final_layout_entry {
                Some(entry) => if answers(
                    entry.known_dimensions,
                    entry.available_space,
                    entry.content.size,
                    known_dimensions,
                    available_space,
                ) {
                    Some(entry.content)
                } else {
                    None
                },
                None => None,
            }),
            run_mode == RunMode::ComputeSize ==> (match output {
                Some(found) => exists|i: int|
                    0 <= i < CACHE_SIZE && #[trigger] size_entry_answers(
                        self.measure_entries@,
                        i,
                        known_dimensions,
                        available_space,
                    ) && found == self.measure_entries[i].unwrap().content && forall|j: int|
                        0 <= j < i ==> !#[trigger] size_entry_answers(
                            self.measure_entries@,
                            j,
                            known_dimensions,
                            available_space,
                        ),
                None => forall|i: int|
                    0 <= i < CACHE_SIZE ==> !#[trigger] size_entry_answers(
                        self.measure_entries@,
                        i,
                        known_dimensions,
                        available_space,
                    ),
            }),
    {
        match run_mode {
            RunMode::PerformLayout => match self.final_layout_entry {
                Some(entry) => if entry_answers(
                    entry.known_dimensions,
                    entry.available_space,
                    entry.content.size,
                    known_dimensions,
                    available_space,
                ) {
                    Some(entry.content)
                } else {
                    None
                },
                None => None,
            },
            RunMode::ComputeSize => {
                let mut i: usize = 0;
                while i < CACHE_SIZE
                    invariant
                        i <= CACHE_SIZE,
                        run_mode == RunMode::ComputeSize,
                        forall|j: int|
                            0 <= j < i ==> !#[trigger] size_entry_answers(
                                self.measure_entries@,
                                j,
                                known_dimensions,
                                available_space,
                            ),
                    decreases CACHE_SIZE - i,
                {
                    match self.measure_entries[i] {
                        Some(entry) => {
                            if entry_answers(
                                entry.known_dimensions,
                                entry.available_space,
                                entry.content.size,
                                known_dimensions,
                                available_space,
                            ) {
                                assert(size_entry_answers(
                                    self.measure_entries@,
                                    i as int,
                                    known_dimensions,
                                    available_space,
                                ));
                                return Some(entry.content);
                            }
                        },
                        None => {},
                    }
                    i += 1;
                }
                None
            },
            RunMode::PerformHiddenLayout => None,
        }
    }
}

impl Cache {
    /// Whether `output` is what the cache answers to a query: for a full
    /// layout, the last one stored if it answers the query; for a size,
    /// the first of the sizes stored that answers it, as the output of a
    /// box of that size; for a hidden run, nothing.
    pub open spec fn gives(
        self,
        known_dimensions: Size<Option<Scalar>>,
        available_space: Size<AvailableSpace>,
        run_mode: RunMode,
        output: Option<LayoutOutput>,
    ) -> bool {
        match run_mode {
            RunMode::PerformHiddenLayout => output is None,
            RunMode::PerformLayout => output == (match self.final_layout_entry {
                Some(entry) => if answers(
                    entry.known_dimensions,
                    entry.available_space,
                    entry.content.size,
                    known_dimensions,
                    available_space,
                ) {
                    Some(entry.content)
                } else {
                    None
                },
                None => None,
            }),
            RunMode::ComputeSize => match output {
                Some(found) => exists|i: int|
                    0 <= i < CACHE_SIZE && #[trigger] size_entry_answers(
                        self.measure_entries@,
                        i,
                        known_dimensions,
                        available_space,
                    ) && found == self.measure_entries[i].unwrap().content && forall|j: int|
                        0 <= j < i ==> !#[trigger] size_entry_answers(
                            self.measure_entries@,
                            j,
                            known_dimensions,
                            available_space,
                        ),
                None => forall|i: int|
                    0 <= i < CACHE_SIZE ==> !#[trigger] size_entry_answers(
                        self.measure_entries@,
                        i,
                        known_dimensions,
                        available_space,
                    ),
            },
        }
    }
}

/// A full layout that was stored answers the query that it was stored
/// under: asked again with the same known dimensions and the same space,
/// all of them finite numbers, the cache gives back what was stored.
pub proof fn lemma_stored_layout_is_found(
    cache: Cache,
    known_dimensions: Size<Option<Scalar>>,
    available_space: Size<AvailableSpace>,
    output: LayoutOutput,
)
    requires
        known_dimensions.width is Some ==> !known_dimensions.width.unwrap().nan(),
        known_dimensions.height is Some ==> !known_dimensions.height.unwrap().nan(),
        available_space.width is Definite ==> available_space.width->Definite_0.finite(),
        available_space.height is Definite ==> available_space.height->Definite_0.finite(),
    ensures
        ({
            let stored = cache.stored(
                known_dimensions,
                available_space,
                RunMode::PerformLayout,
                output,
            ).0;
            stored is Some && stored.unwrap().content == output && answers(
                stored.unwrap().known_dimensions,
                stored.unwrap().available_space,
                output.size,
                known_dimensions,
                available_space,
            )
        }),
{
    crate::scalar::lemma_pow2_gap_is_positive();
}

/// A size that was stored stands where a query of the same kind looks for
/// it, and answers the query that it was stored under.
pub proof fn lemma_stored_size_is_found(
    cache: Cache,
    known_dimensions: Size<Option<Scalar>>,
    available_space: Size<AvailableSpace>,
    output: LayoutOutput,
)
    requires
        known_dimensions.width is Some ==> !known_dimensions.width.unwrap().nan(),
        known_dimensions.height is Some ==> !known_dimensions.height.unwrap().nan(),
        available_space.width is Definite ==> available_space.width->Definite_0.finite(),
        available_space.height is Definite ==> available_space.height->Definite_0.finite(),
    ensures
        ({
            let slot = cache_slot(known_dimensions, available_space);
            let stored = cache.stored(
                known_dimensions,
                available_space,
                RunMode::ComputeSize,
                output,
            ).1;
            &&& 0 <= slot < CACHE_SIZE
            &&& size_entry_answers(stored, slot, known_dimensions, available_space)
            &&& stored[slot].unwrap().content == output
        }),
{
    crate::scalar::lemma_pow2_gap_is_positive();
}

/// Asking again gives the same layout: once a full layout is stored
/// under known dimensions and a space that are finite numbers, the cache
/// answers the same query with that layout.
pub proof fn lemma_remembered_layout_is_given(
    before: Cache,
    after: Cache,
    known_dimensions: Size<Option<Scalar>>,
    available_space: Size<AvailableSpace>,
    output: LayoutOutput,
)
    requires
        known_dimensions.width is Some ==> !known_dimensions.width.unwrap().nan(),
        known_dimensions.height is Some ==> !known_dimensions.height.unwrap().nan(),
        available_space.width is Definite ==> available_space.width->Definite_0.finite(),
        available_space.height is Definite ==> available_space.height->Definite_0.finite(),
        after.final_layout_entry == before.stored(
            known_dimensions,
            available_space,
            RunMode::PerformLayout,
            output,
        ).0,
    ensures
        after.gives(known_dimensions, available_space, RunMode::PerformLayout, Some(output)),
{
    lemma_stored_layout_is_found(before, known_dimensions, available_space, output);
}

/// Asking again for a size gives the same: once what a run for a size
/// produced is stored under known dimensions and a space that are finite
/// numbers, in a cache whose entries stand in their places, the cache
/// answers the same query with what was stored, and with nothing else
/// that it holds.
pub proof fn lemma_remembered_size_is_given(
    before: Cache,
    after: Cache,
    known_dimensions: Size<Option<Scalar>>,
    available_space: Size<AvailableSpace>,
    output: LayoutOutput,
)
    requires
        known_dimensions.width is Some ==> !known_dimensions.width.unwrap().nan(),
        known_dimensions.height is Some ==> !known_dimensions.height.unwrap().nan(),
        available_space.width is Definite ==> available_space.width->Definite_0.finite(),
        available_space.height is Definite ==> available_space.height->Definite_0.finite(),
        before.in_place(),
        after.measure_entries@ == before.stored(
            known_dimensions,
            available_space,
            RunMode::ComputeSize,
            output,
        ).1,
    ensures
        after.in_place(),
        after.gives(known_dimensions, available_space, RunMode::ComputeSize, Some(output)),
{
    lemma_stored_size_is_found(before, known_dimensions, available_space, output);
    let slot = cache_slot(known_dimensions, available_space);
    assert forall|j: int| 0 <= j < slot implies !#[trigger] size_entry_answers(
        after.measure_entries@,
        j,
        known_dimensions,
        available_space,
    ) by {
        assert(after.measure_entries@[j] == before.measure_entries@[j]);
        if before.measure_entries[j] is Some {
            assert(cache_slot(
                before.measure_entries[j].unwrap().known_dimensions,
                before.measure_entries[j].unwrap().available_space,
            ) == j);
        }
    }
    assert(size_entry_answers(after.measure_entries@, slot, known_dimensions, available_space));
    assert forall|i: int| 0 <= i < CACHE_SIZE && (#[trigger] after.measure_entries[i]) is Some implies cache_slot(
        after.measure_entries[i].unwrap().known_dimensions,
        after.measure_entries[i].unwrap().available_space,
    ) == i by {
        if i != slot {
            assert(after.measure_entries@[i] == before.measure_entries@[i]);
            assert(before.measure_entries[i] is Some);
        }
    }
}

/// Whether a query is made of numbers: the known dimensions are numbers
/// and the definite spaces finite. Such a query equals itself.
pub open spec fn made_of_numbers(
    known_dimensions: Size<Option<Scalar>>,
    available_space: Size<AvailableSpace>,
) -> bool {
    &&& known_dimensions.width is Some ==> !known_dimensions.width.unwrap().nan()
    &&& known_dimensions.height is Some ==> !known_dimensions.height.unwrap().nan()
    &&& available_space.width is Definite ==> available_space.width->Definite_0.finite()
    &&& available_space.height is Definite ==> available_space.height->Definite_0.finite()
}

/// Asking again gives the same. Once a run of either kind has stored
/// what it produced, under known dimensions and a space that are finite
/// numbers, in a cache whose entries stand in their places, the cache
/// answers the same query of the same kind with exactly what was stored.
pub proof fn lemma_asking_again_gives_the_same(
    before: Cache,
    after: Cache,
    known_dimensions: Size<Option<Scalar>>,
    available_space: Size<AvailableSpace>,
    run_mode: RunMode,
    output: LayoutOutput,
)
    requires
        run_mode != RunMode::PerformHiddenLayout,
        known_dimensions.width is Some ==> !known_dimensions.width.unwrap().nan(),
        known_dimensions.height is Some ==> !known_dimensions.height.unwrap().nan(),
        available_space.width is Definite ==> available_space.width->Definite_0.finite(),
        available_space.height is Definite ==> available_space.height->Definite_0.finite(),
        before.in_place(),
        after.final_layout_entry == before.stored(
            known_dimensions,
            available_space,
            run_mode,
            output,
        ).0,
        after.measure_entries@ == before.stored(
            known_dimensions,
            available_space,
            run_mode,
            output,
        ).1,
    ensures
        after.in_place(),
        after.gives(known_dimensions, available_space, run_mode, Some(output)),
{
    if run_mode == RunMode::PerformLayout {
        lemma_remembered_layout_is_given(before, after, known_dimensions, available_space, output);
        assert(after.measure_entries@ == before.measure_entries@);
        assert forall|i: int| 0 <= i < CACHE_SIZE && (#[trigger] after.measure_entries[i]) is Some implies cache_slot(
            after.measure_entries[i].unwrap().known_dimensions,
            after.measure_entries[i].unwrap().available_space,
        ) == i by {
            assert(after.measure_entries@[i] == before.measure_entries@[i]);
            assert(before.measure_entries[i] is Some);
        }
    } else {
        lemma_remembered_size_is_given(before, after, known_dimensions, available_space, output);
    }
}

/// The cache answers a query in one way only: what it gives is decided
/// by what it holds.
pub proof fn lemma_cache_gives_one_answer(
    cache: Cache,
    known_dimensions: Size<Option<Scalar>>,
    available_space: Size<AvailableSpace>,
    run_mode: RunMode,
    first: Option<LayoutOutput>,
    second: Option<LayoutOutput>,
)
    requires
        cache.gives(known_dimensions, available_space, run_mode, first),
        cache.gives(known_dimensions, available_space, run_mode, second),
    ensures
        first == second,
{
    if run_mode == RunMode::ComputeSize {
        if first is Some && second is Some {
            let i = choose|i: int|
                0 <= i < CACHE_SIZE && #[trigger] size_entry_answers(
                    cache.measure_entries@,
                    i,
                    known_dimensions,
                    available_space,
                ) && first.unwrap() == cache.measure_entries[i].unwrap().content && forall|j: int|
                    0 <= j < i ==> !#[trigger] size_entry_answers(
                        cache.measure_entries@,
                        j,
                        known_dimensions,
                        available_space,
                    );
            let k = choose|k: int|
                0 <= k < CACHE_SIZE && #[trigger] size_entry_answers(
                    cache.measure_entries@,
                    k,
                    known_dimensions,
                    available_space,
                ) && second.unwrap() == cache.measure_entries[k].unwrap().content && forall|j: int|
                    0 <= j < k ==> !#[trigger] size_entry_answers(
                        cache.measure_entries@,
                        j,
                        known_dimensions,
                        available_space,
                    );
            assert(i == k);
        }
    }
}

} // verus!
