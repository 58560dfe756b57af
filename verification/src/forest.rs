//! The forest: an ensemble of isolation trees, its configuration and its
//! random source.

use crate::dataset::{
    all_rows_equal, dataset_error, dataset_width, has_width, rows_of, width_of,
};
use crate::error::ForestError;
use crate::node::{
    grow, grow_asks, lemma_grow_reads_prefix, path_length_in, IsolationTreeNode, PathLength,
};
use crate::random::{same_prefix, Draw, RandomSource};
use crate::sampling::{
    chosen_indices, distinct_below, draw_subsample, first_occurrences, indices_drawn,
    lemma_rejection_reads_prefix, rows_at, seen_after, subsample_draws, subsample_of,
};
use vstd::arithmetic::power2::{lemma2_to64, lemma_pow2_unfold, pow2};
use vstd::prelude::*;

verus! {

/// The height limit of the trees of a forest: the least `h` such that
/// `2^h` is at least the subsample size.
pub open spec fn ceil_log2(n: nat) -> nat
    decreases n,
{
    if n <= 1 {
        0
    } else {
        ceil_log2((n + 1) / 2) + 1
    }
}

/// `ceil_log2(n)` is the least exponent whose power of two reaches `n`.
pub proof fn lemma_ceil_log2_is_least(n: nat)
    ensures
        n <= pow2(ceil_log2(n)),
        n > 1 ==> pow2((ceil_log2(n) - 1) as nat) < n,
        ceil_log2(n) <= n,
    decreases n,
{
    if n <= 1 {
        lemma2_to64();
    } else {
        let half = (n + 1) / 2;
        lemma_ceil_log2_is_least(half);
        lemma_pow2_unfold(ceil_log2(n));
        if half > 1 {
            lemma_pow2_unfold(ceil_log2(half));
        } else {
            lemma2_to64();
        }
    }
}

/// Computes the height limit for a subsample size.
pub fn height_limit(subsample_size: usize) -> (limit: usize)
    ensures
        limit == ceil_log2(subsample_size as nat),
{
    let mut remaining: usize = subsample_size;
    let mut limit: usize = 0;
    proof {
        lemma_ceil_log2_is_least(subsample_size as nat);
    }
    while remaining > 1
        invariant
            ceil_log2(subsample_size as nat) == limit + ceil_log2(remaining as nat),
            ceil_log2(subsample_size as nat) <= usize::MAX,
        decreases remaining,
    {
        remaining = remaining / 2 + remaining % 2;
        limit += 1;
    }
    limit
}

/// A tree as `fit` leaves it in a forest: rooted at depth 0, with true
/// depths in every node, no higher than `limit`, and reading only features
/// below `width`.
pub open spec fn fitted_tree(tree: IsolationTreeNode, limit: nat, width: nat) -> bool {
    &&& tree.well_formed()
    &&& tree.depth() == 0
    &&& tree.height() <= limit
    &&& tree.reads_within(width)
}

/// Where `point` ends up in each tree of an ensemble, tree by tree.
pub open spec fn path_lengths(trees: Seq<IsolationTreeNode>, point: Seq<i64>) -> Seq<PathLength> {
    Seq::new(trees.len(), |t: int| path_length_in(trees[t], point))
}

/// Why a forest whose trees are grown from at most `size` points cannot be
/// fitted on a table, if it cannot: the table is empty, or its rows differ
/// in width, or its rows have no features where a tree would have to split
/// them.
pub open spec fn fit_error(rows: Seq<Seq<i64>>, size: nat) -> Option<ForestError> {
    if dataset_error(rows) is Some {
        dataset_error(rows)
    } else if width_of(rows) == 0 && rows.len() > 1 && size > 1 {
        Some(ForestError::NoFeatures)
    } else {
        None
    }
}

/// The ensemble of `count` trees that `fit` grows from `rows` when the
/// random stream yields `draws`, and the number of draws consumed.
///
/// Each tree in turn draws its subsample of at most `size` rows and is then
/// grown from it, at depth 0 and under the height limit `limit`, from the
/// draws that follow.
pub open spec fn ensemble(
    rows: Seq<Seq<i64>>,
    size: nat,
    limit: nat,
    count: nat,
    draws: Seq<Draw>,
) -> (Seq<IsolationTreeNode>, nat)
    decreases count,
{
    if count == 0 {
        (Seq::empty(), 0)
    } else {
        let (trees, used) = ensemble(rows, size, limit, (count - 1) as nat, draws);
        let rest = draws.skip(used as int);
        let picked = subsample_draws(rows.len(), size, rest);
        let (tree, grown) = grow(
            subsample_of(rows, size, rest),
            0,
            limit,
            rest.skip(picked as int),
        );
        (trees.push(tree), used + picked + grown)
    }
}

/// Whether the draws that fitting consumes were asked as fitting asks them:
/// for each tree in turn, every index of the subsample from all the rows,
/// then the draws of the tree as growing asks them.
pub open spec fn ensemble_asks(
    rows: Seq<Seq<i64>>,
    size: nat,
    limit: nat,
    count: nat,
    draws: Seq<Draw>,
) -> bool
    decreases count,
{
    if count == 0 {
        true
    } else {
        let used = ensemble(rows, size, limit, (count - 1) as nat, draws).1;
        let rest = draws.skip(used as int);
        let picked = subsample_draws(rows.len(), size, rest);
        &&& ensemble_asks(rows, size, limit, (count - 1) as nat, draws)
        &&& forall|i: int| 0 <= i < picked ==> (#[trigger] rest[i]).asked(0, rows.len() - 1)
        &&& grow_asks(subsample_of(rows, size, rest), 0, limit, rest.skip(picked as int))
    }
}

/// Determinism: the ensemble is a function of the configuration, the
/// dataset and the numbers drawn while fitting. Two random streams that
/// agree on the draws that one fit consumes give the same trees, consume
/// the same number of draws, and so give every point the same path lengths.
pub proof fn lemma_ensemble_deterministic(
    rows: Seq<Seq<i64>>,
    size: nat,
    limit: nat,
    count: nat,
    a: Seq<Draw>,
    b: Seq<Draw>,
)
    requires
        same_prefix(a, b, ensemble(rows, size, limit, count, a).1),
    ensures
        ensemble(rows, size, limit, count, a) == ensemble(rows, size, limit, count, b),
        ensemble_asks(rows, size, limit, count, a) == ensemble_asks(rows, size, limit, count, b),
        forall|point: Seq<i64>|
            path_lengths(ensemble(rows, size, limit, count, a).0, point) == path_lengths(
                ensemble(rows, size, limit, count, b).0,
                point,
            ),
    decreases count,
{
    if count > 0 {
        let used = ensemble(rows, size, limit, (count - 1) as nat, a).1;
        lemma_ensemble_deterministic(rows, size, limit, (count - 1) as nat, a, b);
        let rest_a = a.skip(used as int);
        let rest_b = b.skip(used as int);
        let picked = subsample_draws(rows.len(), size, rest_a);
        if size < rows.len() {
            assert(same_prefix(rest_a, rest_b, picked));
            lemma_rejection_reads_prefix(size, rest_a, rest_b, 0);
        }
        assert(picked == subsample_draws(rows.len(), size, rest_b));
        let sample = subsample_of(rows, size, rest_a);
        assert(sample == subsample_of(rows, size, rest_b));
        let grown = grow(sample, 0, limit, rest_a.skip(picked as int)).1;
        assert(same_prefix(rest_a.skip(picked as int), rest_b.skip(picked as int), grown));
        lemma_grow_reads_prefix(
            sample,
            0,
            limit,
            rest_a.skip(picked as int),
            rest_b.skip(picked as int),
        );
        assert forall|i: int| 0 <= i < picked implies rest_a[i] == rest_b[i] by {}
    }
}

/// Fitting one more tree: when `before` are the draws of an ensemble,
/// `picked` those of the next subsample and `grown` those of the tree grown
/// from it, the three in a row are the draws of the ensemble with that tree
/// added.
#[verifier::rlimit(50)]
proof fn lemma_ensemble_extends(
    rows: Seq<Seq<i64>>,
    size: nat,
    limit: nat,
    built: nat,
    before: Seq<Draw>,
    picked: Seq<Draw>,
    grown: Seq<Draw>,
    trees: Seq<IsolationTreeNode>,
    tree: IsolationTreeNode,
)
    requires
        ensemble(rows, size, limit, built, before) == (trees, before.len()),
        ensemble_asks(rows, size, limit, built, before),
        picked.len() == subsample_draws(rows.len(), size, picked),
        forall|i: int| 0 <= i < picked.len() ==> (#[trigger] picked[i]).asked(0, rows.len() - 1),
        grow(subsample_of(rows, size, picked), 0, limit, grown) == (tree, grown.len()),
        grow_asks(subsample_of(rows, size, picked), 0, limit, grown),
    ensures
        ensemble(rows, size, limit, built + 1, before + (picked + grown)) == (
            trees.push(tree),
            (before + (picked + grown)).len(),
        ),
        ensemble_asks(rows, size, limit, built + 1, before + (picked + grown)),
{
    let draws = before + (picked + grown);
    assert(same_prefix(before, draws, before.len()));
    lemma_ensemble_deterministic(rows, size, limit, built, before, draws);
    let rest = draws.skip(before.len() as int);
    assert(rest =~= picked + grown);
    if size < rows.len() {
        assert(same_prefix(picked, rest, picked.len()));
        lemma_rejection_reads_prefix(size, picked, rest, 0);
        assert(rest.take(picked.len() as int) =~= picked);
        assert(picked.take(picked.len() as int) =~= picked);
    }
    assert(picked.len() == subsample_draws(rows.len(), size, rest));
    assert(subsample_of(rows, size, picked) == subsample_of(rows, size, rest));
    assert(rest.skip(picked.len() as int) =~= grown);
    assert forall|i: int| 0 <= i < picked.len() implies (#[trigger] rest[i]).asked(
        0,
        rows.len() - 1,
    ) by {
        assert(rest[i] == picked[i]);
    }
}

/// The mathematical content of a forest.
pub struct ForestView {
    /// The trees of the ensemble, in the order they were grown.
    pub trees: Seq<IsolationTreeNode>,
    /// The number of trees that `fit` grows.
    pub num_trees: usize,
    /// The number of points each tree is grown from, at most.
    pub subsample_size: usize,
    /// The height limit of the trees.
    pub max_tree_height: usize,
    /// The number of features of the points fitted on; 0 before any fit.
    pub num_features: usize,
}

/// The trees of a forest with the configuration they were, or will be,
/// grown under.
struct Ensemble {
    trees: Vec<IsolationTreeNode>,
    num_trees: usize,
    subsample_size: usize,
    max_tree_height: usize,
    num_features: usize,
}

impl Ensemble {
    #[verifier::type_invariant]
    spec fn consistent(&self) -> bool {
        &&& self.num_trees >= 1
        &&& self.subsample_size >= 1
        &&& self.max_tree_height == ceil_log2(self.subsample_size as nat)
        &&& (self.trees@.len() == 0 || self.trees@.len() == self.num_trees)
        &&& forall|t: int|
            0 <= t < self.trees@.len() ==> fitted_tree(
                #[trigger] self.trees@[t],
                self.max_tree_height as nat,
                self.num_features as nat,
            )
    }
}

/// An isolation forest.
pub struct IsolationForest {
    ensemble: Ensemble,
    rng: RandomSource,
}

impl View for IsolationForest {
    type V = ForestView;

    closed spec fn view(&self) -> ForestView {
        ForestView {
            trees: self.ensemble.trees@,
            num_trees: self.ensemble.num_trees,
            subsample_size: self.ensemble.subsample_size,
            max_tree_height: self.ensemble.max_tree_height,
            num_features: self.ensemble.num_features,
        }
    }
}

impl IsolationForest {
    /// The random source of the forest.
    pub closed spec fn source(&self) -> RandomSource {
        self.rng
    }

    /// A forest of `num_trees` trees, each to be grown from at most
    /// `subsample_size` points, with no tree yet.
    ///
    /// With a seed the random stream is determined by it; without one the
    /// operating system is asked for a seed.
    pub fn new(num_trees: usize, subsample_size: usize, seed: Option<u64>) -> (forest: Result<
        Self,
        ForestError,
    >)
        ensures
            match forest {
                Ok(f) => {
                    &&& num_trees > 0
                    &&& subsample_size > 0
                    &&& f@.trees.len() == 0
                    &&& f@.num_trees == num_trees
                    &&& f@.subsample_size == subsample_size
                    &&& f@.max_tree_height == ceil_log2(subsample_size as nat)
                    &&& f@.num_features == 0
                    &&& f.source().drawn().len() == 0
                },
                Err(e) => {
                    if num_trees == 0 || subsample_size == 0 {
                        e == ForestError::InvalidConfig
                    } else {
                        e == ForestError::EntropyUnavailable && seed is None
                    }
                },
            },
            (num_trees == 0 || subsample_size == 0) ==> forest is Err,
            num_trees > 0 && subsample_size > 0 && seed is Some ==> forest is Ok,
    {
        if num_trees == 0 || subsample_size == 0 {
            return Err(ForestError::InvalidConfig);
        }
        let rng = match seed {
            Some(s) => RandomSource::seeded(s),
            None => match RandomSource::from_entropy() {
                Some(source) => source,
                None => {
                    return Err(ForestError::EntropyUnavailable);
                },
            },
        };
        let max_tree_height = height_limit(subsample_size);
        let ensemble = Ensemble {
            trees: Vec::new(),
            num_trees,
            subsample_size,
            max_tree_height,
            num_features: 0,
        };
        Ok(IsolationForest { ensemble, rng })
    }

    /// The trees of the ensemble.
    pub fn trees(&self) -> (trees: &Vec<IsolationTreeNode>)
        ensures
            trees@ == self@.trees,
            trees.len() == 0 || trees.len() == self@.num_trees,
            forall|t: int|
                0 <= t < trees.len() ==> fitted_tree(
                    #[trigger] trees[t],
                    self@.max_tree_height as nat,
                    self@.num_features as nat,
                ),
    {
        proof {
            use_type_invariant(&self.ensemble);
        }
        &self.ensemble.trees
    }

    /// The number of trees that `fit` grows.
    pub fn num_trees(&self) -> (n: usize)
        ensures
            n == self@.num_trees,
            n >= 1,
    {
        proof {
            use_type_invariant(&self.ensemble);
        }
        self.ensemble.num_trees
    }

    /// The number of points each tree is grown from, at most.
    pub fn subsample_size(&self) -> (n: usize)
        ensures
            n == self@.subsample_size,
            n >= 1,
    {
        proof {
            use_type_invariant(&self.ensemble);
        }
        self.ensemble.subsample_size
    }

    /// The height limit of the trees.
    pub fn max_tree_height(&self) -> (h: usize)
        ensures
            h == self@.max_tree_height,
            h == ceil_log2(self@.subsample_size as nat),
    {
        proof {
            use_type_invariant(&self.ensemble);
        }
        self.ensemble.max_tree_height
    }

    /// Replaces the ensemble by `num_trees` trees grown from `data`.
    ///
    /// Each tree is grown from its own subsample, at depth 0 and under the
    /// height limit of the forest; the random source advances through all
    /// of them and is never reset. A dataset that is empty, or whose points
    /// differ in their number of features, is rejected, and so is one whose
    /// points have no features where a tree would have to split them; the
    /// forest then stays as it was.
    #[verifier::rlimit(50)]
    pub fn fit(&mut self, data: &[Vec<i64>]) -> (outcome: Result<(), ForestError>)
        ensures
            final(self)@.num_trees == old(self)@.num_trees,
            final(self)@.subsample_size == old(self)@.subsample_size,
            final(self)@.max_tree_height == old(self)@.max_tree_height,
            final(self).source().continues(old(self).source()),
            match outcome {
                Ok(()) => {
                    &&& fit_error(rows_of(data@), old(self)@.subsample_size as nat) is None
                    &&& final(self)@.num_features == width_of(rows_of(data@))
                    &&& ensemble(
                        rows_of(data@),
                        old(self)@.subsample_size as nat,
                        old(self)@.max_tree_height as nat,
                        old(self)@.num_trees as nat,
                        final(self).source().drawn_since(old(self).source()),
                    ) == (
                        final(self)@.trees,
                        final(self).source().drawn_since(old(self).source()).len(),
                    )
                    &&& ensemble_asks(
                        rows_of(data@),
                        old(self)@.subsample_size as nat,
                        old(self)@.max_tree_height as nat,
                        old(self)@.num_trees as nat,
                        final(self).source().drawn_since(old(self).source()),
                    )
                    &&& final(self)@.trees.len() == old(self)@.num_trees
                    &&& forall|t: int|
                        0 <= t < final(self)@.trees.len() ==> {
                            &&& fitted_tree(
                                #[trigger] final(self)@.trees[t],
                                old(self)@.max_tree_height as nat,
                                width_of(rows_of(data@)),
                            )
                            &&& final(self)@.trees[t].leaf_total() <= old(self)@.subsample_size
                            &&& final(self)@.trees[t].leaf_total() <= data.len()
                            &&& final(self)@.trees[t].leaf_total() == old(self)@.subsample_size
                                || final(self)@.trees[t].leaf_total() == data.len()
                                || final(self).source().drawn_since(old(self).source()).len()
                                >= usize::MAX
                            &&& all_rows_equal(rows_of(data@)) ==> final(self)@.trees[t]
                                is Terminal
                        }
                },
                Err(e) => {
                    &&& fit_error(rows_of(data@), old(self)@.subsample_size as nat) == Some(e)
                    &&& *final(self) == *old(self)
                },
            },
    {
        proof {
            use_type_invariant(&self.ensemble);
        }
        let ghost initial = self.ensemble;
        let ghost start = self.rng;
        assert(start.drawn().take(start.drawn().len() as int) =~= start.drawn());
        let width = match dataset_width(data) {
            Ok(w) => w,
            Err(e) => {
                return Err(e);
            },
        };
        let ghost rows = rows_of(data@);
        let num_trees = self.ensemble.num_trees;
        let size = self.ensemble.subsample_size;
        let limit = self.ensemble.max_tree_height;
        if width == 0 && data.len() > 1 && size > 1 {
            return Err(ForestError::NoFeatures);
        }
        let mut trees: Vec<IsolationTreeNode> = Vec::new();
        let mut built: usize = 0;
        assert(self.rng.drawn_since(start) =~= Seq::<Draw>::empty());
        while built < num_trees
            invariant
                built <= num_trees,
                initial.consistent(),
                self.ensemble == initial,
                num_trees == initial.num_trees,
                size == initial.subsample_size,
                limit == initial.max_tree_height,
                rows == rows_of(data@),
                fit_error(rows, size as nat) is None,
                width == width_of(rows),
                self.rng.continues(start),
                ensemble(
                    rows,
                    size as nat,
                    limit as nat,
                    built as nat,
                    self.rng.drawn_since(start),
                ) == (trees@, self.rng.drawn_since(start).len()),
                ensemble_asks(
                    rows,
                    size as nat,
                    limit as nat,
                    built as nat,
                    self.rng.drawn_since(start),
                ),
                trees.len() == built,
                forall|t: int|
                    0 <= t < trees.len() ==> {
                        &&& fitted_tree(#[trigger] trees[t], limit as nat, width as nat)
                        &&& trees[t].leaf_total() <= size
                        &&& trees[t].leaf_total() <= data.len()
                        &&& trees[t].leaf_total() == size || trees[t].leaf_total() == data.len()
                            || self.rng.drawn_since(start).len() >= usize::MAX
                        &&& all_rows_equal(rows) ==> trees[t] is Terminal
                    },
            decreases num_trees - built,
        {
            let ghost before = self.rng;
            let ghost draws_before = self.rng.drawn_since(start);
            let subsample = draw_subsample(data, size, &mut self.rng);
            let ghost middle = self.rng;
            let ghost sample = rows_of(subsample@);
            assert(has_width(rows, width as nat));
            assert(sample.len() > 1 ==> width > 0);
            let tree = IsolationTreeNode::build_isolation_tree(
                subsample.as_slice(),
                0,
                limit,
                &mut self.rng,
            );
            proof {
                let draws_picked = middle.drawn_since(before);
                let draws_grown = self.rng.drawn_since(middle);
                RandomSource::lemma_continues_transitive(before, middle, self.rng);
                RandomSource::lemma_continues_transitive(start, before, self.rng);
                assert(self.rng.drawn_since(start) == draws_before + (draws_picked
                    + draws_grown));
                if size >= rows.len() {
                    assert(draws_picked.len() == 0);
                }
                lemma_ensemble_extends(
                    rows,
                    size as nat,
                    limit as nat,
                    built as nat,
                    draws_before,
                    draws_picked,
                    draws_grown,
                    trees@,
                    tree,
                );
                if sample.len() == 0 {
                    assert(tree is Terminal);
                } else {
                    assert(sample[0].len() == width);
                }
            }
            trees.push(tree);
            built += 1;
        }
        self.ensemble = Ensemble {
            trees,
            num_trees,
            subsample_size: size,
            max_tree_height: limit,
            num_features: width,
        };
        Ok(())
    }

    /// Draws the subsample from which one tree would be grown from `data`.
    ///
    /// When the dataset has no more points than the subsample size, the
    /// subsample is a copy of the whole dataset and the random source is
    /// left as it was. Otherwise indices are drawn from the whole dataset
    /// until as many distinct ones as the subsample size have been seen,
    /// and the points at those indices are copied in the order in which
    /// their indices were drawn first.
    pub fn get_random_subsample(&mut self, data: &[Vec<i64>]) -> (subsample: Vec<Vec<i64>>)
        ensures
            final(self)@ == old(self)@,
            final(self).source().continues(old(self).source()),
            final(self).source().drawn_since(old(self).source()).len() == subsample_draws(
                data.len() as nat,
                old(self)@.subsample_size as nat,
                final(self).source().drawn_since(old(self).source()),
            ),
            rows_of(subsample@) == subsample_of(
                rows_of(data@),
                old(self)@.subsample_size as nat,
                final(self).source().drawn_since(old(self).source()),
            ),
            old(self)@.subsample_size >= data.len() ==> {
                &&& *final(self) == *old(self)
                &&& final(self).source() == old(self).source()
                &&& subsample.len() == data.len()
            },
            old(self)@.subsample_size < data.len() ==> {
                &&& forall|i: int|
                    0 <= i < final(self).source().drawn_since(old(self).source()).len() ==> (
                    #[trigger] final(self).source().drawn_since(old(self).source())[i]).asked(
                        0,
                        data.len() - 1,
                    )
                &&& forall|m: int|
                    0 <= m < final(self).source().drawn_since(old(self).source()).len() ==> (
                    #[trigger] seen_after(
                        final(self).source().drawn_since(old(self).source()),
                        m,
                    )).len() < old(self)@.subsample_size
                &&& rows_of(subsample@) == rows_at(
                    rows_of(data@),
                    first_occurrences(
                        indices_drawn(final(self).source().drawn_since(old(self).source())),
                    ),
                )
                &&& distinct_below(
                    chosen_indices(
                        old(self)@.subsample_size as nat,
                        final(self).source().drawn_since(old(self).source()),
                    ),
                    data.len() as nat,
                )
                &&& subsample.len() == old(self)@.subsample_size || (subsample.len() < old(
                    self,
                )@.subsample_size && final(self).source().drawn_since(
                    old(self).source(),
                ).len() == usize::MAX)
            },
    {
        let size = self.ensemble.subsample_size;
        draw_subsample(data, size, &mut self.rng)
    }

    /// Where each point of `data` ends up in each tree: one list per point,
    /// in the order of the points.
    ///
    /// A forest with trees rejects a dataset in which some point has a
    /// number of features other than that of the points it was fitted on.
    pub fn score(&self, data: &[Vec<i64>]) -> (lengths: Result<Vec<Vec<PathLength>>, ForestError>)
        ensures
            match lengths {
                Ok(found) => {
                    &&& found.len() == data.len()
                    &&& forall|i: int|
                        0 <= i < data.len() ==> (#[trigger] found[i])@ == path_lengths(
                            self@.trees,
                            data[i]@,
                        )
                    &&& self@.trees.len() == 0 || has_width(
                        rows_of(data@),
                        self@.num_features as nat,
                    )
                },
                Err(e) => {
                    &&& e == ForestError::DimensionMismatch
                    &&& self@.trees.len() > 0
                    &&& !has_width(rows_of(data@), self@.num_features as nat)
                },
            },
    {
        let ghost rows = rows_of(data@);
        let mut found: Vec<Vec<PathLength>> = Vec::new();
        let mut i: usize = 0;
        while i < data.len()
            invariant
                i <= data.len(),
                rows == rows_of(data@),
                found.len() == i,
                forall|j: int|
                    0 <= j < i ==> (#[trigger] found[j])@ == path_lengths(self@.trees, data[j]@),
                self@.trees.len() == 0 || has_width(
                    rows.take(i as int),
                    self@.num_features as nat,
                ),
            decreases data.len() - i,
        {
            assert(rows[i as int] == data[i as int]@);
            match self.score_instance(data[i].as_slice()) {
                Ok(lengths) => {
                    found.push(lengths);
                },
                Err(e) => {
                    return Err(e);
                },
            }
            assert(self@.trees.len() > 0 ==> has_width(
                rows.take(i + 1),
                self@.num_features as nat,
            )) by {
                if self@.trees.len() > 0 {
                    assert forall|j: int| 0 <= j < i + 1 implies (#[trigger] rows.take(
                        i + 1,
                    )[j]).len() == self@.num_features by {
                        if j < i {
                            assert(rows.take(i as int)[j] == rows[j]);
                        }
                    }
                }
            }
            i += 1;
        }
        assert(rows.take(data.len() as int) == rows);
        Ok(found)
    }

    /// Where `instance` ends up in each tree, tree by tree.
    ///
    /// A forest without trees gives the empty list for any point. A forest
    /// with trees rejects a point whose number of features differs from
    /// that of the points it was fitted on.
    pub fn score_instance(&self, instance: &[i64]) -> (lengths: Result<
        Vec<PathLength>,
        ForestError,
    >)
        ensures
            match lengths {
                Ok(found) => {
                    &&& self@.trees.len() == 0 || instance@.len() == self@.num_features
                    &&& found@ == path_lengths(self@.trees, instance@)
                    &&& forall|t: int|
                        0 <= t < found.len() ==> (#[trigger] found[t]).edges
                            <= self@.max_tree_height
                },
                Err(e) => {
                    &&& e == ForestError::DimensionMismatch
                    &&& self@.trees.len() > 0
                    &&& instance@.len() != self@.num_features
                },
            },
    {
        proof {
            use_type_invariant(&self.ensemble);
        }
        let trees = &self.ensemble.trees;
        let width = self.ensemble.num_features;
        if trees.len() > 0 && instance.len() != width {
            return Err(ForestError::DimensionMismatch);
        }
        let mut found: Vec<PathLength> = Vec::new();
        let mut t: usize = 0;
        while t < trees.len()
            invariant
                t <= trees.len(),
                trees.len() > 0 ==> instance@.len() == width,
                forall|u: int|
                    0 <= u < trees@.len() ==> fitted_tree(
                        #[trigger] trees@[u],
                        self.ensemble.max_tree_height as nat,
                        width as nat,
                    ),
                found@ == path_lengths(trees@, instance@).take(t as int),
                forall|u: int|
                    0 <= u < found.len() ==> (#[trigger] found[u]).edges
                        <= self.ensemble.max_tree_height,
            decreases trees.len() - t,
        {
            let tree = &trees[t];
            proof {
                tree.lemma_walk_bounded(instance@);
            }
            let length = tree.path_len(instance, 0);
            found.push(length);
            assert(found@ =~= path_lengths(trees@, instance@).take(t + 1));
            t += 1;
        }
        assert(path_lengths(trees@, instance@).take(trees.len() as int) == path_lengths(
            trees@,
            instance@,
        ));
        Ok(found)
    }
}

} // verus!
