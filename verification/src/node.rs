//! Isolation trees: their shape, how one is grown from a table of points
//! and a stream of random draws, and how a point is walked down to a leaf.

use crate::dataset::{
    all_rows_equal, column_max, column_min, feature_range, has_width, is_rectangular,
    lemma_column_bounds, lemma_split_outside_range, lemma_split_sizes, partition, rows_below,
    rows_from, rows_of, width_of,
};
use crate::random::{same_prefix, Draw, RandomSource};
use vstd::prelude::*;

verus! {

/// A node of an isolation tree.
#[derive(Debug, PartialEq, Eq)]
pub enum IsolationTreeNode {
    /// A split: points whose `split_feature` is strictly less than
    /// `split_value` belong to `left`, all others to `right`.
    Internal {
        split_feature: usize,
        split_value: i64,
        left: Box<IsolationTreeNode>,
        right: Box<IsolationTreeNode>,
        depth: usize,
    },
    /// A leaf that `size` points reached when the tree was grown.
    Terminal { size: usize, depth: usize },
}

/// Where a point ends up in a tree: the number of splits passed on the way
/// and the size of the leaf reached. The path length of the point is
/// `edges` plus the expected depth of an unbuilt subtree over `leaf_size`
/// points.
#[derive(Debug, Clone, Copy, PartialEq, Eq)]
pub struct PathLength {
    pub edges: usize,
    pub leaf_size: usize,
}

/// Where `point` ends up in `tree`.
pub open spec fn path_length_in(tree: IsolationTreeNode, point: Seq<i64>) -> PathLength {
    PathLength {
        edges: tree.edges_to_leaf(point) as usize,
        leaf_size: tree.leaf_size_for(point),
    }
}

/// The tree grown from `rows` at `depth` under the height limit `limit`
/// when the random stream yields `draws`, and the number of draws consumed.
///
/// A leaf is made, without drawing, when at most one row is left or the
/// depth has reached the limit. Otherwise the first draw picks the feature;
/// if that feature is constant over the rows, a leaf is made. Otherwise the
/// second draw picks the threshold; if one side of the split is empty, a
/// leaf is made. Otherwise the left subtree is grown from the draws that
/// follow, then the right subtree from those that follow the left one's.
pub open spec fn grow(rows: Seq<Seq<i64>>, depth: nat, limit: nat, draws: Seq<Draw>) -> (
    IsolationTreeNode,
    nat,
)
    decreases limit - depth,
{
    let leaf = IsolationTreeNode::Terminal { size: rows.len() as usize, depth: depth as usize };
    if rows.len() <= 1 || depth >= limit {
        (leaf, 0)
    } else {
        let feature = draws[0].value;
        if column_min(rows, feature) == column_max(rows, feature) {
            (leaf, 1)
        } else {
            let value = draws[1].value;
            let below = rows_below(rows, feature, value);
            let from = rows_from(rows, feature, value);
            if below.len() == 0 || from.len() == 0 {
                (leaf, 2)
            } else {
                let (left, used_left) = grow(below, depth + 1, limit, draws.skip(2));
                let (right, used_right) = grow(
                    from,
                    depth + 1,
                    limit,
                    draws.skip(2 + used_left as int),
                );
                (
                    IsolationTreeNode::Internal {
                        split_feature: feature as usize,
                        split_value: value as i64,
                        left: Box::new(left),
                        right: Box::new(right),
                        depth: depth as usize,
                    },
                    2 + used_left + used_right,
                )
            }
        }
    }
}

/// Whether the draws that growing consumes were asked as growing asks
/// them: the feature from all the features of the rows, the threshold from
/// the closed range between the least and the greatest value of that
/// feature over the rows, and so on in the subtrees.
pub open spec fn grow_asks(rows: Seq<Seq<i64>>, depth: nat, limit: nat, draws: Seq<Draw>) -> bool
    decreases limit - depth,
{
    if rows.len() <= 1 || depth >= limit {
        true
    } else {
        let feature = draws[0].value;
        let value = draws[1].value;
        let below = rows_below(rows, feature, value);
        let from = rows_from(rows, feature, value);
        &&& draws[0].asked(0, width_of(rows) - 1)
        &&& column_min(rows, feature) != column_max(rows, feature) ==> {
            &&& draws[1].asked(column_min(rows, feature), column_max(rows, feature))
            &&& below.len() > 0 && from.len() > 0 ==> {
                &&& grow_asks(below, depth + 1, limit, draws.skip(2))
                &&& grow_asks(
                    from,
                    depth + 1,
                    limit,
                    draws.skip(2 + grow(below, depth + 1, limit, draws.skip(2)).1 as int),
                )
            }
        }
    }
}

/// What a tree is grown into depends only on the draws it consumes: two
/// streams that agree on them give the same tree.
pub proof fn lemma_grow_reads_prefix(
    rows: Seq<Seq<i64>>,
    depth: nat,
    limit: nat,
    a: Seq<Draw>,
    b: Seq<Draw>,
)
    requires
        same_prefix(a, b, grow(rows, depth, limit, a).1),
    ensures
        grow(rows, depth, limit, a) == grow(rows, depth, limit, b),
        grow_asks(rows, depth, limit, a) == grow_asks(rows, depth, limit, b),
    decreases limit - depth,
{
    if rows.len() > 1 && depth < limit {
        let feature = a[0].value;
        assert(b[0] == a[0]);
        if column_min(rows, feature) != column_max(rows, feature) {
            let value = a[1].value;
            assert(b[1] == a[1]);
            let below = rows_below(rows, feature, value);
            let from = rows_from(rows, feature, value);
            if below.len() > 0 && from.len() > 0 {
                let used_left = grow(below, depth + 1, limit, a.skip(2)).1;
                let rest_a = a.skip(2 + used_left as int);
                let rest_b = b.skip(2 + used_left as int);
                let used_right = grow(from, depth + 1, limit, rest_a).1;
                assert(same_prefix(a.skip(2), b.skip(2), used_left));
                lemma_grow_reads_prefix(below, depth + 1, limit, a.skip(2), b.skip(2));
                assert(same_prefix(rest_a, rest_b, used_right));
                lemma_grow_reads_prefix(from, depth + 1, limit, rest_a, rest_b);
            }
        }
    }
}

/// Whatever the draws, growing yields a tree whose nodes record their true
/// depth, whose leaves together hold every row exactly once, and which does
/// not reach below the height limit.
pub proof fn lemma_grow_shape(rows: Seq<Seq<i64>>, depth: nat, limit: nat, draws: Seq<Draw>)
    requires
        rows.len() <= usize::MAX,
        depth <= usize::MAX,
        limit <= usize::MAX,
    ensures
        grow(rows, depth, limit, draws).0.well_formed(),
        grow(rows, depth, limit, draws).0.depth() == depth,
        grow(rows, depth, limit, draws).0.leaf_total() == rows.len(),
        depth <= limit ==> depth + grow(rows, depth, limit, draws).0.height() <= limit,
        depth > limit ==> grow(rows, depth, limit, draws).0.height() == 0,
    decreases limit - depth,
{
    if rows.len() > 1 && depth < limit {
        let feature = draws[0].value;
        if column_min(rows, feature) != column_max(rows, feature) {
            let value = draws[1].value;
            let below = rows_below(rows, feature, value);
            let from = rows_from(rows, feature, value);
            if below.len() > 0 && from.len() > 0 {
                lemma_split_sizes(rows, feature, value);
                let used_left = grow(below, depth + 1, limit, draws.skip(2)).1;
                lemma_grow_shape(below, depth + 1, limit, draws.skip(2));
                lemma_grow_shape(from, depth + 1, limit, draws.skip(2 + used_left as int));
            }
        }
    }
}

/// When every draw was asked as growing asks it, the tree grown parts the
/// rows as its splits say: the feature and the threshold recorded in a
/// node are those by which its rows were parted, and every leaf has the
/// size of the rows that reach it.
pub proof fn lemma_grow_partitions(rows: Seq<Seq<i64>>, depth: nat, limit: nat, draws: Seq<Draw>)
    requires
        rows.len() <= usize::MAX,
        is_rectangular(rows),
        width_of(rows) <= usize::MAX,
        grow_asks(rows, depth, limit, draws),
    ensures
        grow(rows, depth, limit, draws).0.partitions(rows),
    decreases limit - depth,
{
    if rows.len() > 1 && depth < limit {
        let feature = draws[0].value;
        lemma_column_bounds(rows, feature);
        if column_min(rows, feature) != column_max(rows, feature) {
            let value = draws[1].value;
            let below = rows_below(rows, feature, value);
            let from = rows_from(rows, feature, value);
            if below.len() > 0 && from.len() > 0 {
                let lowest = choose|i: int|
                    0 <= i < rows.len() && (#[trigger] rows[i])[feature] == column_min(
                        rows,
                        feature,
                    );
                let highest = choose|i: int|
                    0 <= i < rows.len() && (#[trigger] rows[i])[feature] == column_max(
                        rows,
                        feature,
                    );
                assert(i64::MIN <= rows[lowest][feature] <= value);
                assert(value <= rows[highest][feature] <= i64::MAX);
                assert(feature as usize == feature);
                assert(value as i64 == value);
                lemma_split_sizes(rows, feature, value);
                lemma_split_outside_range(rows, feature, value);
                assert(has_width(rows, width_of(rows)));
                assert(below[0].len() == width_of(rows));
                assert(from[0].len() == width_of(rows));
                let used_left = grow(below, depth + 1, limit, draws.skip(2)).1;
                lemma_grow_partitions(below, depth + 1, limit, draws.skip(2));
                lemma_grow_partitions(from, depth + 1, limit, draws.skip(2 + used_left as int));
            }
        }
    }
}

/// A table whose rows are all the same is never split: whatever the draws,
/// the tree grown from it is a single leaf that holds every row.
pub proof fn lemma_grow_identical_rows(
    rows: Seq<Seq<i64>>,
    depth: nat,
    limit: nat,
    draws: Seq<Draw>,
)
    requires
        all_rows_equal(rows),
    ensures
        grow(rows, depth, limit, draws).0 == (IsolationTreeNode::Terminal {
            size: rows.len() as usize,
            depth: depth as usize,
        }),
{
    if rows.len() > 1 && depth < limit {
        lemma_column_bounds(rows, draws[0].value);
    }
}

impl IsolationTreeNode {
    /// The depth recorded in the node.
    pub open spec fn depth(&self) -> usize {
        match self {
            IsolationTreeNode::Internal { depth, .. } => *depth,
            IsolationTreeNode::Terminal { depth, .. } => *depth,
        }
    }

    /// The number of edges on the longest path from this node to a leaf.
    pub open spec fn height(&self) -> nat
        decreases self,
    {
        match self {
            IsolationTreeNode::Internal { left, right, .. } => {
                if left.height() >= right.height() {
                    left.height() + 1
                } else {
                    right.height() + 1
                }
            },
            IsolationTreeNode::Terminal { .. } => 0,
        }
    }

    /// The sum of the sizes of the leaves below this node.
    pub open spec fn leaf_total(&self) -> nat
        decreases self,
    {
        match self {
            IsolationTreeNode::Internal { left, right, .. } => left.leaf_total()
                + right.leaf_total(),
            IsolationTreeNode::Terminal { size, .. } => *size as nat,
        }
    }

    /// Every child records a depth one more than its parent's.
    pub open spec fn well_formed(&self) -> bool
        decreases self,
    {
        match self {
            IsolationTreeNode::Internal { left, right, depth, .. } => {
                &&& left.depth() == depth + 1
                &&& right.depth() == depth + 1
                &&& left.well_formed()
                &&& right.well_formed()
            },
            IsolationTreeNode::Terminal { .. } => true,
        }
    }

    /// Every split below this node reads a feature index less than `width`.
    pub open spec fn reads_within(&self, width: nat) -> bool
        decreases self,
    {
        match self {
            IsolationTreeNode::Internal { split_feature, left, right, .. } => {
                &&& *split_feature < width
                &&& left.reads_within(width)
                &&& right.reads_within(width)
            },
            IsolationTreeNode::Terminal { .. } => true,
        }
    }

    /// The tree parts `rows` as its splits say: every split reads a feature
    /// of the rows at a threshold between the least and the greatest value
    /// of that feature, sends the rows below the threshold to the left and
    /// the others to the right, leaves neither side empty, and parts each
    /// side in turn; every leaf has the size of the rows that reach it.
    pub open spec fn partitions(&self, rows: Seq<Seq<i64>>) -> bool
        decreases self,
    {
        match self {
            IsolationTreeNode::Internal { split_feature, split_value, left, right, .. } => {
                let below = rows_below(rows, *split_feature as int, *split_value as int);
                let from = rows_from(rows, *split_feature as int, *split_value as int);
                &&& *split_feature < width_of(rows)
                &&& column_min(rows, *split_feature as int) < *split_value <= column_max(
                    rows,
                    *split_feature as int,
                )
                &&& below.len() > 0
                &&& from.len() > 0
                &&& left.partitions(below)
                &&& right.partitions(from)
            },
            IsolationTreeNode::Terminal { size, .. } => *size == rows.len(),
        }
    }

    /// The rows that end in the same leaf as `point`, among the rows that
    /// the tree parts.
    pub open spec fn rows_sharing_leaf(&self, rows: Seq<Seq<i64>>, point: Seq<i64>) -> Seq<
        Seq<i64>,
    >
        decreases self,
    {
        match self {
            IsolationTreeNode::Internal { split_feature, split_value, left, right, .. } => {
                if point[*split_feature as int] < *split_value {
                    left.rows_sharing_leaf(
                        rows_below(rows, *split_feature as int, *split_value as int),
                        point,
                    )
                } else {
                    right.rows_sharing_leaf(
                        rows_from(rows, *split_feature as int, *split_value as int),
                        point,
                    )
                }
            },
            IsolationTreeNode::Terminal { .. } => rows,
        }
    }

    /// In a tree that parts `rows`, the size of the leaf that a point
    /// reaches is the number of rows that end in that leaf, and is at least
    /// one where there is any row.
    pub proof fn lemma_leaf_size_counts_rows(&self, rows: Seq<Seq<i64>>, point: Seq<i64>)
        requires
            self.partitions(rows),
        ensures
            self.leaf_size_for(point) == self.rows_sharing_leaf(rows, point).len(),
            rows.len() > 0 ==> self.leaf_size_for(point) >= 1,
        decreases self,
    {
        match self {
            IsolationTreeNode::Internal { split_feature, split_value, left, right, .. } => {
                let below = rows_below(rows, *split_feature as int, *split_value as int);
                let from = rows_from(rows, *split_feature as int, *split_value as int);
                left.lemma_leaf_size_counts_rows(below, point);
                right.lemma_leaf_size_counts_rows(from, point);
            },
            IsolationTreeNode::Terminal { .. } => {},
        }
    }

    /// The point has every feature that the splits on its way to a leaf
    /// read.
    pub open spec fn walkable(&self, point: Seq<i64>) -> bool
        decreases self,
    {
        match self {
            IsolationTreeNode::Internal { split_feature, split_value, left, right, .. } => {
                &&& *split_feature < point.len()
                &&& if point[*split_feature as int] < *split_value {
                    left.walkable(point)
                } else {
                    right.walkable(point)
                }
            },
            IsolationTreeNode::Terminal { .. } => true,
        }
    }

    /// The number of splits the point passes on its way to a leaf.
    pub open spec fn edges_to_leaf(&self, point: Seq<i64>) -> nat
        decreases self,
    {
        match self {
            IsolationTreeNode::Internal { split_feature, split_value, left, right, .. } => {
                if point[*split_feature as int] < *split_value {
                    left.edges_to_leaf(point) + 1
                } else {
                    right.edges_to_leaf(point) + 1
                }
            },
            IsolationTreeNode::Terminal { .. } => 0,
        }
    }

    /// The size of the leaf the point reaches.
    pub open spec fn leaf_size_for(&self, point: Seq<i64>) -> usize
        decreases self,
    {
        match self {
            IsolationTreeNode::Internal { split_feature, split_value, left, right, .. } => {
                if point[*split_feature as int] < *split_value {
                    left.leaf_size_for(point)
                } else {
                    right.leaf_size_for(point)
                }
            },
            IsolationTreeNode::Terminal { size, .. } => *size,
        }
    }

    /// A point that has `width` features can be walked down any tree whose
    /// splits read within `width`, and passes no more splits than the tree
    /// is high.
    pub proof fn lemma_walk_bounded(&self, point: Seq<i64>)
        requires
            self.reads_within(point.len()),
        ensures
            self.walkable(point),
            self.edges_to_leaf(point) <= self.height(),
        decreases self,
    {
        match self {
            IsolationTreeNode::Internal { left, right, .. } => {
                left.lemma_walk_bounded(point);
                right.lemma_walk_bounded(point);
            },
            IsolationTreeNode::Terminal { .. } => {},
        }
    }

    /// Grows a tree from `data`, starting at `depth`, under the height limit
    /// `height_limit`, drawing from `rng`.
    ///
    /// The tree is the one that [`grow`] describes for the numbers drawn
    /// during the call. The points must all have the same number of
    /// features, and at least one feature where a split is attempted.
    #[verifier::rlimit(50)]
    pub fn build_isolation_tree(
        data: &[Vec<i64>],
        depth: usize,
        height_limit: usize,
        rng: &mut RandomSource,
    ) -> (tree: Self)
        requires
            is_rectangular(rows_of(data@)),
            data.len() > 1 && depth < height_limit ==> width_of(rows_of(data@)) > 0,
        ensures
            final(rng).continues(*old(rng)),
            grow(
                rows_of(data@),
                depth as nat,
                height_limit as nat,
                final(rng).drawn_since(*old(rng)),
            ) == (tree, final(rng).drawn_since(*old(rng)).len()),
            tree.well_formed(),
            tree.depth() == depth,
            tree.leaf_total() == data.len(),
            depth <= height_limit ==> depth + tree.height() <= height_limit,
            tree.reads_within(width_of(rows_of(data@))),
            grow_asks(
                rows_of(data@),
                depth as nat,
                height_limit as nat,
                final(rng).drawn_since(*old(rng)),
            ),
            tree.partitions(rows_of(data@)),
            data.len() <= 1 || depth >= height_limit ==> *final(rng) == *old(rng),
            all_rows_equal(rows_of(data@)) ==> tree == (IsolationTreeNode::Terminal {
                size: data.len(),
                depth,
            }),
        decreases height_limit - depth,
    {
        let ghost rows = rows_of(data@);
        let ghost start = *rng;
        proof {
            if all_rows_equal(rows) && data.len() > 1 && depth < height_limit {
                assert forall|f: int| column_min(rows, f) == column_max(rows, f) by {
                    lemma_column_bounds(rows, f);
                }
            }
        }
        let sample_size = data.len();
        if sample_size <= 1 || depth >= height_limit {
            assert(rng.drawn().take(start.drawn().len() as int) =~= start.drawn());
            assert(rng.drawn_since(start) =~= Seq::<Draw>::empty());
            return IsolationTreeNode::Terminal { size: sample_size, depth };
        }
        assert(rows[0] == data[0]@);
        let num_features = data[0].len();
        assert forall|i: int| 0 <= i < data.len() implies (#[trigger] data[i]).len()
            == num_features by {
            assert(rows[i] == data[i]@);
        }
        let split_feature = rng.next_index(0, num_features);
        let ghost after_feature = *rng;
        let (min_val, max_val) = feature_range(data, split_feature);
        if min_val == max_val {
            return IsolationTreeNode::Terminal { size: sample_size, depth };
        }
        proof {
            lemma_column_bounds(rows, split_feature as int);
        }
        let split_value = rng.next_value(min_val, max_val);
        let ghost after_split = *rng;
        proof {
            RandomSource::lemma_continues_transitive(start, after_feature, after_split);
            assert(after_split.drawn_since(start) =~= seq![
                Draw { low: 0, high: num_features - 1, value: split_feature as int },
                Draw { low: min_val as int, high: max_val as int, value: split_value as int },
            ]);
            lemma_split_outside_range(rows, split_feature as int, split_value as int);
        }
        let (left_data, right_data) = partition(data, split_feature, split_value);
        if left_data.len() == 0 || right_data.len() == 0 {
            return IsolationTreeNode::Terminal { size: sample_size, depth };
        }
        let ghost below = rows_of(left_data@);
        let ghost from = rows_of(right_data@);
        proof {
            lemma_split_sizes(rows, split_feature as int, split_value as int);
            assert(has_width(rows, num_features as nat));
        }
        let left = IsolationTreeNode::build_isolation_tree(
            left_data.as_slice(),
            depth + 1,
            height_limit,
            rng,
        );
        let ghost after_left = *rng;
        let right = IsolationTreeNode::build_isolation_tree(
            right_data.as_slice(),
            depth + 1,
            height_limit,
            rng,
        );
        proof {
            let fresh = rng.drawn_since(start);
            let fresh_left = after_left.drawn_since(after_split);
            let fresh_right = rng.drawn_since(after_left);
            let used_left = fresh_left.len();
            RandomSource::lemma_continues_transitive(start, after_split, after_left);
            RandomSource::lemma_continues_transitive(start, after_left, *rng);
            assert(fresh[0].value == split_feature as int);
            assert(fresh[1].value == split_value as int);
            assert(same_prefix(fresh_left, fresh.skip(2), used_left));
            lemma_grow_reads_prefix(
                below,
                (depth + 1) as nat,
                height_limit as nat,
                fresh_left,
                fresh.skip(2),
            );
            assert(fresh.skip(2 + used_left as int) =~= fresh_right);
        }
        IsolationTreeNode::Internal {
            split_feature,
            split_value,
            left: Box::new(left),
            right: Box::new(right),
            depth,
        }
    }

    /// Walks `instance` down the tree and reports where it ends: the number
    /// of splits passed, counted on from `curr_len`, and the size of the leaf
    /// reached.
    pub fn path_len(&self, instance: &[i64], curr_len: usize) -> (len: PathLength)
        requires
            self.walkable(instance@),
            curr_len + self.edges_to_leaf(instance@) <= usize::MAX,
        ensures
            len.edges == curr_len + self.edges_to_leaf(instance@),
            len.leaf_size == self.leaf_size_for(instance@),
        decreases self,
    {
        match self {
            IsolationTreeNode::Terminal { size, .. } => PathLength {
                edges: curr_len,
                leaf_size: *size,
            },
            IsolationTreeNode::Internal { split_feature, split_value, left, right, .. } => {
                if instance[*split_feature] < *split_value {
                    left.path_len(instance, curr_len + 1)
                } else {
                    right.path_len(instance, curr_len + 1)
                }
            },
        }
    }
}

} // verus!
