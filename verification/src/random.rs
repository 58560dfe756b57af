//! The random stream that drives subsampling and tree construction.

use rand::rngs::StdRng;
use rand::Rng;
use rand::SeedableRng;
use vstd::prelude::*;

verus! {

/// `rand::rngs::StdRng`, the generator behind a [`RandomSource`], declared
/// as an opaque type: nothing of its state is visible to contracts.
#[verifier::external_type_specification]
#[verifier::external_body]
pub struct ExStdRng(StdRng);

/// Calls `StdRng::seed_from_u64`. Nothing is claimed of the generator that
/// comes back.
#[verifier::external_body]
fn generator_from_seed(seed: u64) -> (rng: StdRng) {
    StdRng::seed_from_u64(seed)
}

/// Calls `StdRng::try_from_os_rng`, which asks the operating system for a
/// seed and fails when none can be had. Nothing is claimed of the outcome.
#[verifier::external_body]
fn generator_from_entropy() -> (rng: Option<StdRng>) {
    StdRng::try_from_os_rng().ok()
}

/// Calls `Rng::random_range` on the half-open range `low..high` of `usize`.
/// The range must not be empty, since `random_range` panics on an empty
/// range; the value returned lies in the range.
#[verifier::external_body]
fn sample_index(rng: &mut StdRng, low: usize, high: usize) -> (r: usize)
    requires
        low < high,
    ensures
        low <= r < high,
{
    rng.random_range(low..high)
}

/// Calls `Rng::random_range` on the closed range `low..=high` of `i64`.
/// The range must not be empty; the value returned lies in the range.
#[verifier::external_body]
fn sample_value(rng: &mut StdRng, low: i64, high: i64) -> (r: i64)
    requires
        low <= high,
    ensures
        low <= r <= high,
{
    rng.random_range(low..=high)
}

/// One number handed out by a random source, with the closed range
/// `low..=high` that it was asked from.
pub struct Draw {
    pub low: int,
    pub high: int,
    pub value: int,
}

impl Draw {
    /// The number was asked from `low..=high` and lies in that range.
    pub open spec fn asked(self, low: int, high: int) -> bool {
        &&& self.low == low
        &&& self.high == high
        &&& low <= self.value <= high
    }
}

/// Two streams of draws hold the same first `n` draws.
pub open spec fn same_prefix(a: Seq<Draw>, b: Seq<Draw>, n: nat) -> bool {
    &&& n <= a.len()
    &&& n <= b.len()
    &&& forall|i: int| 0 <= i < n ==> a[i] == b[i]
}

/// A pseudo-random generator together with the record of every number it
/// has handed out so far and of the range each was asked from.
///
/// The record is ghost state: it costs nothing at run time, and lets the
/// contracts of the functions that draw from the source say exactly what
/// they ask of the generator and how their result depends on the numbers
/// drawn.
pub struct RandomSource {
    rng: StdRng,
    drawn: Ghost<Seq<Draw>>,
}

impl RandomSource {
    /// The draws made so far, oldest first.
    pub closed spec fn drawn(&self) -> Seq<Draw> {
        self.drawn@
    }

    /// Whether `self` is a later state of `earlier`: everything `earlier`
    /// had handed out, `self` has handed out too, in the same order.
    pub open spec fn continues(&self, earlier: Self) -> bool {
        &&& earlier.drawn().len() <= self.drawn().len()
        &&& self.drawn().take(earlier.drawn().len() as int) == earlier.drawn()
    }

    /// The draws that `self` has made since it was `earlier`.
    pub open spec fn drawn_since(&self, earlier: Self) -> Seq<Draw> {
        self.drawn().skip(earlier.drawn().len() as int)
    }

    /// A later state of a later state is a later state, and what was drawn
    /// since the first is what was drawn up to the second followed by what
    /// was drawn after it.
    pub proof fn lemma_continues_transitive(first: Self, second: Self, third: Self)
        requires
            second.continues(first),
            third.continues(second),
        ensures
            third.continues(first),
            third.drawn_since(first) == second.drawn_since(first) + third.drawn_since(second),
    {
        let a = first.drawn();
        let b = second.drawn();
        let c = third.drawn();
        assert forall|i: int| 0 <= i < a.len() implies c[i] == a[i] by {
            assert(c.take(b.len() as int)[i] == b[i]);
            assert(b.take(a.len() as int)[i] == a[i]);
        }
        assert(c.take(a.len() as int) =~= a);
        assert forall|i: int| a.len() <= i < b.len() implies c[i] == b[i] by {
            assert(c.take(b.len() as int)[i] == b[i]);
        }
        assert(third.drawn_since(first) =~= second.drawn_since(first) + third.drawn_since(
            second,
        ));
    }

    /// A source whose stream is determined by `seed`.
    pub fn seeded(seed: u64) -> (source: Self)
        ensures
            source.drawn() == Seq::<Draw>::empty(),
    {
        RandomSource { rng: generator_from_seed(seed), drawn: Ghost(Seq::empty()) }
    }

    /// A source seeded by the operating system, or `None` when the system
    /// has no entropy to give.
    pub fn from_entropy() -> (source: Option<Self>)
        ensures
            source matches Some(s) ==> s.drawn() == Seq::<Draw>::empty(),
    {
        RandomSource::recording(generator_from_entropy())
    }

    /// The generator that the source draws from.
    pub closed spec fn generator(&self) -> StdRng {
        self.rng
    }

    /// A source that starts its record with the generator it is given, when
    /// it is given one: the source draws from that generator and has handed
    /// out nothing yet.
    pub fn recording(generator: Option<StdRng>) -> (source: Option<Self>)
        ensures
            match generator {
                Some(g) => {
                    &&& source matches Some(s)
                    &&& s.generator() == g
                    &&& s.drawn() == Seq::<Draw>::empty()
                },
                None => source is None,
            },
    {
        match generator {
            Some(rng) => Some(RandomSource { rng, drawn: Ghost(Seq::empty()) }),
            None => None,
        }
    }

    /// Draws an index in `low..high` and records the draw.
    pub fn next_index(&mut self, low: usize, high: usize) -> (r: usize)
        requires
            low < high,
        ensures
            low <= r < high,
            final(self).drawn() == old(self).drawn().push(
                Draw { low: low as int, high: high - 1, value: r as int },
            ),
            final(self).continues(*old(self)),
            final(self).drawn_since(*old(self)) == seq![
                Draw { low: low as int, high: high - 1, value: r as int },
            ],
    {
        let r = sample_index(&mut self.rng, low, high);
        let ghost draw = Draw { low: low as int, high: high - 1, value: r as int };
        self.drawn = Ghost(self.drawn@.push(draw));
        assert(self.drawn().take(old(self).drawn().len() as int) =~= old(self).drawn());
        assert(self.drawn_since(*old(self)) =~= seq![draw]);
        r
    }

    /// Draws a value in `low..=high` and records the draw.
    pub fn next_value(&mut self, low: i64, high: i64) -> (r: i64)
        requires
            low <= high,
        ensures
            low <= r <= high,
            final(self).drawn() == old(self).drawn().push(
                Draw { low: low as int, high: high as int, value: r as int },
            ),
            final(self).continues(*old(self)),
            final(self).drawn_since(*old(self)) == seq![
                Draw { low: low as int, high: high as int, value: r as int },
            ],
    {
        let r = sample_value(&mut self.rng, low, high);
        let ghost draw = Draw { low: low as int, high: high as int, value: r as int };
        self.drawn = Ghost(self.drawn@.push(draw));
        assert(self.drawn().take(old(self).drawn().len() as int) =~= old(self).drawn());
        assert(self.drawn_since(*old(self)) =~= seq![draw]);
        r
    }
}

} // verus!
