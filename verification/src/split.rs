//! Train/evaluation split of an aligned dataset.
//!
//! The split point is deterministic: `floor(rows * num / den)` rows (the
//! training fraction written as the ratio `num / den`) go to the training
//! partition, the rest to the held-out evaluation partition.  Any shuffling
//! happens before the split, on the caller's side.  Row alignment between the
//! feature matrix and the target matrix is preserved exactly.

use vstd::prelude::*;

verus! {

/// Why a requested split is refused.
#[derive(Clone, Copy, Debug, PartialEq, Eq, Structural)]
pub enum SplitError {
    /// The dataset has no rows.
    EmptyDataset,
    /// The feature matrix and the target matrix disagree on the row count.
    RowCountMismatch,
    /// The requested fraction leaves a partition without a single row.
    DegenerateSplit,
}

/// The two aligned partitions of a split dataset.
#[derive(Debug)]
pub struct SplitData<X, Y> {
    /// Feature rows of the training partition.
    pub train_x: Vec<X>,
    /// Target rows of the training partition, aligned with `train_x`.
    pub train_y: Vec<Y>,
    /// Feature rows of the held-out evaluation partition.
    pub test_x: Vec<X>,
    /// Target rows of the evaluation partition, aligned with `test_x`.
    pub test_y: Vec<Y>,
}

/// The row index where the split falls for a training fraction of
/// `num / den`: the training partition gets `floor(rows * num / den)` rows.
pub fn split_point(rows: usize, num: usize, den: usize) -> (k: usize)
    requires
        den > 0,
        rows * num <= usize::MAX,
    ensures
        k == rows * num / (den as int),
{
    (rows * num) / den
}

/// Splits `v` after its first `k` rows, moving the rows and keeping their
/// order.
fn split_rows<T>(v: Vec<T>, k: usize) -> (parts: (Vec<T>, Vec<T>))
    requires
        k <= v@.len(),
    ensures
        parts.0@ == v@.subrange(0, k as int),
        parts.1@ == v@.subrange(k as int, v@.len() as int),
{
    let mut head = v;
    let tail = head.split_off(k);
    (head, tail)
}

/// Splits an aligned dataset into a training and an evaluation partition at
/// row `floor(rows * num / den)`.
///
/// The first `split_point` feature and target rows, in order, form the
/// training partition; the remaining rows, in order, the evaluation
/// partition, so row `i` of either feature partition stays aligned with row
/// `i` of the matching target partition.  The split is refused — and the
/// dataset returned untouched — when there are no rows, when the row counts
/// of `features` and `targets` differ, and when the fraction would leave
/// either partition empty.
pub fn split_dataset<X, Y>(features: Vec<X>, targets: Vec<Y>, num: usize, den: usize) -> (r:
    Result<SplitData<X, Y>, (SplitError, Vec<X>, Vec<Y>)>)
    requires
        den > 0,
        features@.len() * num <= usize::MAX,
    ensures
        match r {
            Ok(s) => {
                let k = features@.len() * num / (den as int);
                &&& features@.len() == targets@.len()
                &&& 0 < k < features@.len()
                &&& s.train_x@ == features@.subrange(0, k as int)
                &&& s.train_y@ == targets@.subrange(0, k as int)
                &&& s.test_x@ == features@.subrange(k as int, features@.len() as int)
                &&& s.test_y@ == targets@.subrange(k as int, targets@.len() as int)
                &&& s.train_x@.len() == s.train_y@.len() == k
                &&& s.test_x@.len() == s.test_y@.len() == features@.len() - k
            },
            Err((e, fx, ty)) => {
                &&& fx@ == features@
                &&& ty@ == targets@
                &&& match e {
                    SplitError::EmptyDataset => features@.len() == 0,
                    SplitError::RowCountMismatch => features@.len() != targets@.len()
                        && features@.len() > 0,
                    SplitError::DegenerateSplit => {
                        let k = features@.len() * num / (den as int);
                        &&& features@.len() == targets@.len()
                        &&& features@.len() > 0
                        &&& (k == 0 || k >= features@.len())
                    },
                }
            },
        },
{
    let rows = features.len();
    if rows == 0 {
        return Err((SplitError::EmptyDataset, features, targets));
    }
    if targets.len() != rows {
        return Err((SplitError::RowCountMismatch, features, targets));
    }
    let k = split_point(rows, num, den);
    if k == 0 || k >= rows {
        return Err((SplitError::DegenerateSplit, features, targets));
    }
    let (train_x, test_x) = split_rows(features, k);
    let (train_y, test_y) = split_rows(targets, k);
    Ok(SplitData { train_x, train_y, test_x, test_y })
}

} // verus!
