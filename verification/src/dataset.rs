//! Datasets as tables of integer feature values, and the scans that tree
//! construction makes over them.
//!
//! A dataset is a slice of points; a point is a vector of feature values.
//! Contracts speak of a dataset through [`rows_of`], its view as a sequence
//! of sequences.

use crate::error::ForestError;
use vstd::prelude::*;

verus! {

/// The points of a dataset, each as the sequence of its feature values.
pub open spec fn rows_of(data: Seq<Vec<i64>>) -> Seq<Seq<i64>> {
    Seq::new(data.len(), |i: int| data[i]@)
}

/// Every row has exactly `width` features.
pub open spec fn has_width(rows: Seq<Seq<i64>>, width: nat) -> bool {
    forall|i: int| 0 <= i < rows.len() ==> (#[trigger] rows[i]).len() == width
}

/// All rows have as many features as the first one.
pub open spec fn is_rectangular(rows: Seq<Seq<i64>>) -> bool {
    rows.len() > 0 ==> has_width(rows, rows[0].len())
}

/// Every row holds the same feature values as the first one.
pub open spec fn all_rows_equal(rows: Seq<Seq<i64>>) -> bool {
    forall|i: int| 0 <= i < rows.len() ==> #[trigger] rows[i] == rows[0]
}

/// The number of features of the rows of a rectangular table; 0 when the
/// table is empty.
pub open spec fn width_of(rows: Seq<Seq<i64>>) -> nat {
    if rows.len() == 0 {
        0
    } else {
        rows[0].len()
    }
}

/// Why a table is no dataset, if it is none: it is empty, or its rows
/// differ in width.
pub open spec fn dataset_error(rows: Seq<Seq<i64>>) -> Option<ForestError> {
    if rows.len() == 0 {
        Some(ForestError::EmptyDataset)
    } else if !is_rectangular(rows) {
        Some(ForestError::DimensionMismatch)
    } else {
        None
    }
}

/// The least value of feature `f` over the rows of a non-empty table.
pub open spec fn column_min(rows: Seq<Seq<i64>>, f: int) -> int
    decreases rows.len(),
{
    if rows.len() == 0 {
        0
    } else if rows.len() == 1 {
        rows[0][f] as int
    } else {
        let rest = column_min(rows.drop_last(), f);
        if rows.last()[f] < rest {
            rows.last()[f] as int
        } else {
            rest
        }
    }
}

/// The greatest value of feature `f` over the rows of a non-empty table.
pub open spec fn column_max(rows: Seq<Seq<i64>>, f: int) -> int
    decreases rows.len(),
{
    if rows.len() == 0 {
        0
    } else if rows.len() == 1 {
        rows[0][f] as int
    } else {
        let rest = column_max(rows.drop_last(), f);
        if rows.last()[f] > rest {
            rows.last()[f] as int
        } else {
            rest
        }
    }
}

/// The rows whose feature `f` is strictly less than `v`, in their order.
pub open spec fn rows_below(rows: Seq<Seq<i64>>, f: int, v: int) -> Seq<Seq<i64>>
    decreases rows.len(),
{
    if rows.len() == 0 {
        rows
    } else if rows.last()[f] < v {
        rows_below(rows.drop_last(), f, v).push(rows.last())
    } else {
        rows_below(rows.drop_last(), f, v)
    }
}

/// The rows whose feature `f` is `v` or more, in their order.
pub open spec fn rows_from(rows: Seq<Seq<i64>>, f: int, v: int) -> Seq<Seq<i64>>
    decreases rows.len(),
{
    if rows.len() == 0 {
        rows
    } else if rows.last()[f] < v {
        rows_from(rows.drop_last(), f, v)
    } else {
        rows_from(rows.drop_last(), f, v).push(rows.last())
    }
}

/// The column bounds are bounds, and both are values of the column.
pub proof fn lemma_column_bounds(rows: Seq<Seq<i64>>, f: int)
    requires
        rows.len() > 0,
    ensures
        column_min(rows, f) <= column_max(rows, f),
        forall|i: int|
            0 <= i < rows.len() ==> column_min(rows, f) <= (#[trigger] rows[i])[f] <= column_max(
                rows,
                f,
            ),
        exists|i: int| 0 <= i < rows.len() && (#[trigger] rows[i])[f] == column_min(rows, f),
        exists|i: int| 0 <= i < rows.len() && (#[trigger] rows[i])[f] == column_max(rows, f),
    decreases rows.len(),
{
    if rows.len() == 1 {
        assert(rows[0][f] == column_min(rows, f));
        assert(rows[0][f] == column_max(rows, f));
    } else {
        let rest = rows.drop_last();
        lemma_column_bounds(rest, f);
        let last = rows.len() - 1;
        assert forall|i: int| 0 <= i < rows.len() implies column_min(rows, f) <= (
        #[trigger] rows[i])[f] <= column_max(rows, f) by {
            if i < last {
                assert(rest[i] == rows[i]);
            }
        }
        let lo = choose|i: int|
            0 <= i < rest.len() && (#[trigger] rest[i])[f] == column_min(rest, f);
        let hi = choose|i: int|
            0 <= i < rest.len() && (#[trigger] rest[i])[f] == column_max(rest, f);
        assert(rest[lo] == rows[lo]);
        assert(rest[hi] == rows[hi]);
        if rows.last()[f] < column_min(rest, f) {
            assert(rows[last][f] == column_min(rows, f));
        } else {
            assert(rows[lo][f] == column_min(rows, f));
        }
        if rows.last()[f] > column_max(rest, f) {
            assert(rows[last][f] == column_max(rows, f));
        } else {
            assert(rows[hi][f] == column_max(rows, f));
        }
    }
}

/// A split sends every row to exactly one side, and both sides keep the
/// width of the table.
pub proof fn lemma_split_sizes(rows: Seq<Seq<i64>>, f: int, v: int)
    ensures
        rows_below(rows, f, v).len() + rows_from(rows, f, v).len() == rows.len(),
        forall|w: nat| has_width(rows, w) ==> has_width(rows_below(rows, f, v), w),
        forall|w: nat| has_width(rows, w) ==> has_width(rows_from(rows, f, v), w),
    decreases rows.len(),
{
    if rows.len() > 0 {
        let rest = rows.drop_last();
        lemma_split_sizes(rest, f, v);
        assert forall|w: nat| has_width(rows, w) implies has_width(rows_below(rows, f, v), w)
            && has_width(rows_from(rows, f, v), w) by {
            assert forall|i: int| 0 <= i < rest.len() implies (#[trigger] rest[i]).len() == w by {
                assert(rest[i] == rows[i]);
            }
            assert(has_width(rest, w));
            assert(rows[rows.len() - 1].len() == w);
        }
    }
}

/// A split at or below the column minimum leaves the lower side empty; a
/// split above the column maximum leaves the upper side empty.
pub proof fn lemma_split_outside_range(rows: Seq<Seq<i64>>, f: int, v: int)
    requires
        rows.len() > 0,
    ensures
        v <= column_min(rows, f) <==> rows_below(rows, f, v).len() == 0,
        v > column_max(rows, f) <==> rows_from(rows, f, v).len() == 0,
    decreases rows.len(),
{
    let rest = rows.drop_last();
    if rows.len() > 1 {
        lemma_split_outside_range(rest, f, v);
    } else {
        assert(rows_below(rest, f, v).len() == 0);
        assert(rows_from(rest, f, v).len() == 0);
        assert(rows.last() == rows[0]);
    }
}

/// The number of features of the points of a dataset, or the reason why
/// the points form none.
pub fn dataset_width(data: &[Vec<i64>]) -> (width: Result<usize, ForestError>)
    ensures
        match width {
            Ok(w) => dataset_error(rows_of(data@)) is None && w == width_of(rows_of(data@)),
            Err(e) => dataset_error(rows_of(data@)) == Some(e),
        },
{
    let ghost rows = rows_of(data@);
    if data.len() == 0 {
        return Err(ForestError::EmptyDataset);
    }
    assert(rows[0] == data[0]@);
    let width = data[0].len();
    let mut i: usize = 1;
    while i < data.len()
        invariant
            1 <= i <= data.len(),
            rows == rows_of(data@),
            width == rows[0].len(),
            has_width(rows.take(i as int), width as nat),
        decreases data.len() - i,
    {
        assert(rows[i as int] == data[i as int]@);
        if data[i].len() != width {
            assert(!has_width(rows, width as nat));
            return Err(ForestError::DimensionMismatch);
        }
        assert forall|j: int| 0 <= j < i + 1 implies (#[trigger] rows.take(i + 1)[j]).len()
            == width by {
            if j < i {
                assert(rows.take(i as int)[j] == rows[j]);
            }
        }
        i += 1;
    }
    assert(rows.take(data.len() as int) == rows);
    Ok(width)
}

/// Copies a point.
pub fn copy_point(point: &Vec<i64>) -> (copy: Vec<i64>)
    ensures
        copy@ == point@,
{
    let mut copy: Vec<i64> = Vec::with_capacity(point.len());
    let mut i: usize = 0;
    while i < point.len()
        invariant
            i <= point.len(),
            copy@ == point@.take(i as int),
        decreases point.len() - i,
    {
        copy.push(point[i]);
        i += 1;
    }
    copy
}

/// Copies a dataset, keeping the order of its points.
pub fn copy_points(data: &[Vec<i64>]) -> (copy: Vec<Vec<i64>>)
    ensures
        rows_of(copy@) == rows_of(data@),
        copy.len() == data.len(),
{
    let mut copy: Vec<Vec<i64>> = Vec::with_capacity(data.len());
    let mut i: usize = 0;
    while i < data.len()
        invariant
            i <= data.len(),
            copy.len() == i,
            rows_of(copy@) == rows_of(data@).take(i as int),
        decreases data.len() - i,
    {
        let ghost before = rows_of(copy@);
        copy.push(copy_point(&data[i]));
        assert(rows_of(copy@) == before.push(rows_of(data@)[i as int]));
        i += 1;
    }
    assert(rows_of(data@).take(data.len() as int) == rows_of(data@));
    copy
}

/// The least and the greatest value of one feature over a non-empty
/// dataset.
pub fn feature_range(data: &[Vec<i64>], feature: usize) -> (range: (i64, i64))
    requires
        data.len() > 0,
        forall|i: int| 0 <= i < data.len() ==> feature < (#[trigger] data[i]).len(),
    ensures
        range.0 == column_min(rows_of(data@), feature as int),
        range.1 == column_max(rows_of(data@), feature as int),
{
    let ghost rows = rows_of(data@);
    let mut low: i64 = data[0][feature];
    let mut high: i64 = low;
    assert(rows.take(1).len() == 1 && rows.take(1)[0] == rows[0]);
    let mut i: usize = 1;
    while i < data.len()
        invariant
            1 <= i <= data.len(),
            rows == rows_of(data@),
            forall|j: int| 0 <= j < data.len() ==> feature < (#[trigger] data[j]).len(),
            low == column_min(rows.take(i as int), feature as int),
            high == column_max(rows.take(i as int), feature as int),
        decreases data.len() - i,
    {
        let value: i64 = data[i][feature];
        proof {
            let next = rows.take(i + 1);
            assert(next.drop_last() == rows.take(i as int));
            assert(next.last() == rows[i as int]);
            assert(rows[i as int][feature as int] == value);
        }
        if value < low {
            low = value;
        }
        if value > high {
            high = value;
        }
        i += 1;
    }
    assert(rows.take(data.len() as int) == rows);
    (low, high)
}

/// Splits a dataset on one feature: the points whose value is strictly less
/// than `split_value` go left, all others go right, each side in the
/// order of the dataset.
pub fn partition(data: &[Vec<i64>], feature: usize, split_value: i64) -> (sides: (
    Vec<Vec<i64>>,
    Vec<Vec<i64>>,
))
    requires
        forall|i: int| 0 <= i < data.len() ==> feature < (#[trigger] data[i]).len(),
    ensures
        rows_of(sides.0@) == rows_below(rows_of(data@), feature as int, split_value as int),
        rows_of(sides.1@) == rows_from(rows_of(data@), feature as int, split_value as int),
{
    let ghost rows = rows_of(data@);
    let mut left: Vec<Vec<i64>> = Vec::new();
    let mut right: Vec<Vec<i64>> = Vec::new();
    let mut i: usize = 0;
    while i < data.len()
        invariant
            i <= data.len(),
            rows == rows_of(data@),
            forall|j: int| 0 <= j < data.len() ==> feature < (#[trigger] data[j]).len(),
            rows_of(left@) == rows_below(rows.take(i as int), feature as int, split_value as int),
            rows_of(right@) == rows_from(rows.take(i as int), feature as int, split_value as int),
        decreases data.len() - i,
    {
        proof {
            let next = rows.take(i + 1);
            assert(next.drop_last() == rows.take(i as int));
            assert(next.last() == rows[i as int]);
        }
        let ghost left_before = rows_of(left@);
        let ghost right_before = rows_of(right@);
        if data[i][feature] < split_value {
            left.push(copy_point(&data[i]));
            assert(rows_of(left@) == left_before.push(rows[i as int]));
        } else {
            right.push(copy_point(&data[i]));
            assert(rows_of(right@) == right_before.push(rows[i as int]));
        }
        i += 1;
    }
    assert(rows.take(data.len() as int) == rows);
    (left, right)
}

} // verus!
