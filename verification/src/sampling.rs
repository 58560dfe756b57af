//! Drawing a subsample: distinct points chosen at random by rejection.
//!
//! Indices are drawn one after another from the whole dataset; an index that
//! was drawn before is passed over. The selection is complete with the draw
//! that brings the wanted number of distinct indices.

use crate::dataset::{all_rows_equal, copy_point, copy_points, has_width, rows_of};
use crate::random::{same_prefix, Draw, RandomSource};
use vstd::prelude::*;

verus! {

/// The indices that the draws name, draw by draw.
pub open spec fn indices_drawn(draws: Seq<Draw>) -> Seq<usize> {
    Seq::new(draws.len(), |i: int| draws[i].value as usize)
}

/// The indices of a sequence without their repetitions, in the order in
/// which each occurs first.
pub open spec fn first_occurrences(indices: Seq<usize>) -> Seq<usize>
    decreases indices.len(),
{
    if indices.len() == 0 {
        indices
    } else {
        let before = first_occurrences(indices.drop_last());
        if before.contains(indices.last()) {
            before
        } else {
            before.push(indices.last())
        }
    }
}

/// The distinct indices seen in the first `taken` draws, in the order in
/// which each was drawn first.
pub open spec fn seen_after(draws: Seq<Draw>, taken: int) -> Seq<usize> {
    first_occurrences(indices_drawn(draws.take(taken)))
}

/// The number of draws that a selection of `count` distinct indices takes
/// from `draws`, when `taken` draws were made without completing it: the
/// selection stops with the first draw that completes it, and gives up when
/// `usize::MAX` draws have been made.
pub open spec fn rejection_draws(count: nat, draws: Seq<Draw>, taken: nat) -> nat
    decreases usize::MAX - taken,
{
    if taken >= usize::MAX || seen_after(draws, taken as int).len() >= count {
        taken
    } else {
        rejection_draws(count, draws, taken + 1)
    }
}

/// The indices that a selection of `count` distinct indices chooses from
/// `draws`, in the order of selection.
pub open spec fn chosen_indices(count: nat, draws: Seq<Draw>) -> Seq<usize> {
    seen_after(draws, rejection_draws(count, draws, 0) as int)
}

/// Every entry is an index below `n`, and no index occurs twice.
pub open spec fn distinct_below(indices: Seq<usize>, n: nat) -> bool {
    &&& forall|i: int| 0 <= i < indices.len() ==> (#[trigger] indices[i]) < n
    &&& forall|i: int, j: int|
        0 <= i < j < indices.len() ==> (#[trigger] indices[i]) != (#[trigger] indices[j])
}

/// The rows found at the given indices, in the order of the indices.
pub open spec fn rows_at(rows: Seq<Seq<i64>>, indices: Seq<usize>) -> Seq<Seq<i64>> {
    Seq::new(indices.len(), |k: int| rows[indices[k] as int])
}

/// The number of draws that a subsample of `size` points takes from
/// `draws` on a dataset of `n` points: none when the whole dataset is taken.
pub open spec fn subsample_draws(n: nat, size: nat, draws: Seq<Draw>) -> nat {
    if size >= n {
        0
    } else {
        rejection_draws(size, draws, 0)
    }
}

/// The subsample of `size` points that `draws` select from `rows`: all the
/// rows when there are no more than `size`, else the rows at the chosen
/// indices.
pub open spec fn subsample_of(rows: Seq<Seq<i64>>, size: nat, draws: Seq<Draw>) -> Seq<
    Seq<i64>,
> {
    if size >= rows.len() {
        rows
    } else {
        rows_at(rows, chosen_indices(size, draws))
    }
}

/// A selection stops where no shorter run of draws holds `count` distinct
/// indices and this one does, or where the cap on the draws is reached.
pub proof fn lemma_rejection_stops(count: nat, draws: Seq<Draw>, taken: nat, stop: nat)
    requires
        taken <= stop <= usize::MAX,
        forall|m: int| taken <= m < stop ==> (#[trigger] seen_after(draws, m)).len() < count,
        seen_after(draws, stop as int).len() >= count || stop == usize::MAX,
    ensures
        rejection_draws(count, draws, taken) == stop,
    decreases stop - taken,
{
    if taken < stop {
        assert(seen_after(draws, taken as int).len() < count);
        lemma_rejection_stops(count, draws, taken + 1, stop);
    }
}

/// A selection reads only the draws it takes: two streams that agree on
/// them select the same indices with the same number of draws.
pub proof fn lemma_rejection_reads_prefix(count: nat, a: Seq<Draw>, b: Seq<Draw>, taken: nat)
    requires
        same_prefix(a, b, rejection_draws(count, a, taken)),
    ensures
        taken <= rejection_draws(count, a, taken),
        rejection_draws(count, a, taken) == rejection_draws(count, b, taken),
        seen_after(a, rejection_draws(count, a, taken) as int) == seen_after(
            b,
            rejection_draws(count, a, taken) as int,
        ),
    decreases usize::MAX - taken,
{
    lemma_rejection_grows(count, a, taken);
    assert(a.take(taken as int) =~= b.take(taken as int));
    if !(taken >= usize::MAX || seen_after(a, taken as int).len() >= count) {
        lemma_rejection_reads_prefix(count, a, b, taken + 1);
    }
}

/// A selection that has taken `taken` draws ends with at least as many.
pub proof fn lemma_rejection_grows(count: nat, draws: Seq<Draw>, taken: nat)
    ensures
        taken <= rejection_draws(count, draws, taken),
    decreases usize::MAX - taken,
{
    if !(taken >= usize::MAX || seen_after(draws, taken as int).len() >= count) {
        lemma_rejection_grows(count, draws, taken + 1);
    }
}

/// Whether `index` is among `indices`.
pub fn contains_index(indices: &Vec<usize>, index: usize) -> (found: bool)
    ensures
        found == indices@.contains(index),
{
    let mut i: usize = 0;
    while i < indices.len()
        invariant
            i <= indices.len(),
            forall|j: int| 0 <= j < i ==> indices[j] != index,
        decreases indices.len() - i,
    {
        if indices[i] == index {
            return true;
        }
        i += 1;
    }
    false
}

/// Chooses `count` pairwise distinct indices below `population` by
/// rejection.
///
/// Each draw is asked from the whole of `0..population`. An index that was
/// drawn before is passed over; the others are kept in the order in which
/// they were drawn. The selection ends with the draw that brings the
/// `count`-th distinct index. Should `usize::MAX` draws not suffice, the
/// selection gives up and returns the distinct indices seen so far.
#[verifier::rlimit(50)]
pub fn sample_indices(population: usize, count: usize, rng: &mut RandomSource) -> (chosen: Vec<
    usize,
>)
    requires
        count <= population,
    ensures
        final(rng).continues(*old(rng)),
        forall|i: int|
            0 <= i < final(rng).drawn_since(*old(rng)).len() ==> (
            #[trigger] final(rng).drawn_since(*old(rng))[i]).asked(0, population - 1),
        chosen@ == first_occurrences(indices_drawn(final(rng).drawn_since(*old(rng)))),
        forall|m: int|
            0 <= m < final(rng).drawn_since(*old(rng)).len() ==> (#[trigger] seen_after(
                final(rng).drawn_since(*old(rng)),
                m,
            )).len() < count,
        chosen.len() == count || (chosen.len() < count && final(rng).drawn_since(
            *old(rng),
        ).len() == usize::MAX),
        distinct_below(chosen@, population as nat),
        final(rng).drawn_since(*old(rng)).len() == rejection_draws(
            count as nat,
            final(rng).drawn_since(*old(rng)),
            0,
        ),
        chosen@ == chosen_indices(count as nat, final(rng).drawn_since(*old(rng))),
        count == 0 ==> *final(rng) == *old(rng),
{
    let ghost start = *rng;
    let mut chosen: Vec<usize> = Vec::new();
    let mut attempts: usize = 0;
    proof {
        assert(rng.drawn().take(start.drawn().len() as int) =~= start.drawn());
        assert(rng.drawn_since(start) =~= Seq::<Draw>::empty());
        assert(indices_drawn(rng.drawn_since(start)) =~= Seq::<usize>::empty());
    }
    while chosen.len() < count && attempts < usize::MAX
        invariant
            count <= population,
            chosen.len() <= count,
            rng.continues(start),
            rng.drawn_since(start).len() == attempts,
            attempts == 0 ==> *rng == start,
            forall|i: int|
                0 <= i < attempts ==> (#[trigger] rng.drawn_since(start)[i]).asked(
                    0,
                    population - 1,
                ),
            chosen@ == first_occurrences(indices_drawn(rng.drawn_since(start))),
            forall|m: int|
                0 <= m < attempts ==> (#[trigger] seen_after(rng.drawn_since(start), m)).len()
                    < count,
            distinct_below(chosen@, population as nat),
        decreases usize::MAX - attempts,
    {
        let ghost before = *rng;
        let ghost draws_before = rng.drawn_since(start);
        let ghost chosen_before = chosen@;
        let index = rng.next_index(0, population);
        proof {
            RandomSource::lemma_continues_transitive(start, before, *rng);
            let draws = rng.drawn_since(start);
            let draw = Draw { low: 0, high: population - 1, value: index as int };
            assert(draws == draws_before.push(draw));
            assert(indices_drawn(draws).drop_last() =~= indices_drawn(draws_before));
            assert(indices_drawn(draws).last() == index);
            assert forall|m: int| 0 <= m < attempts + 1 implies (#[trigger] seen_after(
                draws,
                m,
            )).len() < count by {
                assert(draws.take(m) =~= draws_before.take(m));
                if m == attempts {
                    assert(draws_before.take(m) =~= draws_before);
                    assert(seen_after(draws, m) == chosen_before);
                } else {
                    assert(seen_after(draws_before, m).len() < count);
                }
            }
        }
        if !contains_index(&chosen, index) {
            chosen.push(index);
        }
        attempts += 1;
    }
    proof {
        let draws = rng.drawn_since(start);
        assert(draws.take(attempts as int) =~= draws);
        lemma_rejection_stops(count as nat, draws, 0, attempts as nat);
    }
    chosen
}

/// Copies the points found at the given indices, in the order of the
/// indices.
pub fn select_points(data: &[Vec<i64>], indices: &Vec<usize>) -> (points: Vec<Vec<i64>>)
    requires
        forall|k: int| 0 <= k < indices.len() ==> (#[trigger] indices[k]) < data.len(),
    ensures
        rows_of(points@) == rows_at(rows_of(data@), indices@),
        points.len() == indices.len(),
{
    let mut points: Vec<Vec<i64>> = Vec::with_capacity(indices.len());
    let mut k: usize = 0;
    while k < indices.len()
        invariant
            k <= indices.len(),
            points.len() == k,
            forall|j: int| 0 <= j < indices.len() ==> (#[trigger] indices[j]) < data.len(),
            rows_of(points@) == rows_at(rows_of(data@), indices@.take(k as int)),
        decreases indices.len() - k,
    {
        let ghost before = rows_of(points@);
        points.push(copy_point(&data[indices[k]]));
        assert(rows_of(points@) =~= before.push(rows_of(data@)[indices[k as int] as int]));
        assert(rows_of(points@) =~= rows_at(rows_of(data@), indices@.take(k + 1)));
        k += 1;
    }
    assert(indices@.take(indices.len() as int) == indices@);
    points
}

/// Draws the subsample from which one tree is grown.
///
/// When the dataset has no more than `size` points, the subsample is a copy
/// of the whole dataset, in its order, and the random source is left as it
/// was. Otherwise `size` pairwise distinct points are chosen by
/// [`sample_indices`] and copied in the order of selection.
pub fn draw_subsample(data: &[Vec<i64>], size: usize, rng: &mut RandomSource) -> (subsample: Vec<
    Vec<i64>,
>)
    ensures
        final(rng).continues(*old(rng)),
        final(rng).drawn_since(*old(rng)).len() == subsample_draws(
            data.len() as nat,
            size as nat,
            final(rng).drawn_since(*old(rng)),
        ),
        rows_of(subsample@) == subsample_of(
            rows_of(data@),
            size as nat,
            final(rng).drawn_since(*old(rng)),
        ),
        size >= data.len() ==> *final(rng) == *old(rng),
        size >= data.len() ==> subsample.len() == data.len(),
        size < data.len() ==> {
            &&& forall|i: int|
                0 <= i < final(rng).drawn_since(*old(rng)).len() ==> (
                #[trigger] final(rng).drawn_since(*old(rng))[i]).asked(0, data.len() - 1)
            &&& forall|m: int|
                0 <= m < final(rng).drawn_since(*old(rng)).len() ==> (#[trigger] seen_after(
                    final(rng).drawn_since(*old(rng)),
                    m,
                )).len() < size
            &&& rows_of(subsample@) == rows_at(
                rows_of(data@),
                first_occurrences(indices_drawn(final(rng).drawn_since(*old(rng)))),
            )
            &&& distinct_below(
                chosen_indices(size as nat, final(rng).drawn_since(*old(rng))),
                data.len() as nat,
            )
            &&& subsample.len() == size || (subsample.len() < size && final(rng).drawn_since(
                *old(rng),
            ).len() == usize::MAX)
        },
        forall|w: nat| has_width(rows_of(data@), w) ==> has_width(rows_of(subsample@), w),
        all_rows_equal(rows_of(data@)) ==> all_rows_equal(rows_of(subsample@)),
{
    if size >= data.len() {
        assert(rng.drawn().take(rng.drawn().len() as int) =~= rng.drawn());
        return copy_points(data);
    }
    let chosen = sample_indices(data.len(), size, rng);
    let subsample = select_points(data, &chosen);
    subsample
}

} // verus!
