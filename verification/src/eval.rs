//! Argmax-based accuracy accounting.
//!
//! The network's output and the one-hot target matrix are compared row by
//! row: a row is scored correct when the first maximal entry of the output
//! row sits at the same index as the first maximal entry of the target row.
//! Ties break toward the lowest index, identically for both matrices.
//!
//! Rows are plain integer vectors: callers hold class scores in a fixed-point
//! scale of their choosing, which leaves the argmax unchanged.

use vstd::prelude::*;

verus! {

/// The index of the first maximal entry of `s` (0 for an empty sequence).
pub open spec fn first_max_index(s: Seq<i64>) -> int
    decreases s.len(),
{
    if s.len() <= 1 {
        0
    } else {
        let r = first_max_index(s.drop_last());
        if s.last() > s[r] {
            s.len() - 1
        } else {
            r
        }
    }
}

/// `first_max_index` names an in-range index whose entry no entry exceeds,
/// and that strictly exceeds every entry before it.
pub proof fn lemma_first_max_index(s: Seq<i64>)
    requires
        s.len() > 0,
    ensures
        0 <= first_max_index(s) < s.len(),
        forall|j: int| 0 <= j < s.len() ==> #[trigger] s[j] <= s[first_max_index(s)],
        forall|j: int| 0 <= j < first_max_index(s) ==> #[trigger] s[j] < s[first_max_index(s)],
    decreases s.len(),
{
    if s.len() > 1 {
        lemma_first_max_index(s.drop_last());
        let p = s.drop_last();
        assert(forall|j: int| 0 <= j < p.len() ==> p[j] == s[j]);
    }
}

/// An argmax that agrees between two rows scores the row as correct.
pub open spec fn row_correct(out: Seq<i64>, tgt: Seq<i64>) -> bool {
    first_max_index(out) == first_max_index(tgt)
}

/// How many of the aligned row pairs are scored correct.
pub open spec fn correct_count(outs: Seq<Seq<i64>>, tgts: Seq<Seq<i64>>) -> int
    decreases outs.len(),
{
    if outs.len() == 0 || tgts.len() == 0 {
        0
    } else {
        correct_count(outs.drop_last(), tgts.drop_last()) + if row_correct(
            outs.last(),
            tgts.last(),
        ) {
            1int
        } else {
            0int
        }
    }
}

/// Index of the first maximal entry of `row`: every entry is at most
/// `row[best]`, and every entry before `best` is strictly below it.
pub fn argmax_row(row: &Vec<i64>) -> (best: usize)
    requires
        row@.len() > 0,
    ensures
        best == first_max_index(row@),
        0 <= best < row@.len(),
        forall|j: int| 0 <= j < row@.len() ==> row@[j] <= row@[best as int],
        forall|j: int| 0 <= j < best ==> row@[j] < row@[best as int],
{
    let mut best: usize = 0;
    let mut i: usize = 1;
    while i < row.len()
        invariant
            row@.len() > 0,
            1 <= i <= row@.len(),
            0 <= best < i,
            best == first_max_index(row@.subrange(0, i as int)),
        decreases row@.len() - i,
    {
        proof {
            let cur = row@.subrange(0, i as int);
            let next = row@.subrange(0, i + 1);
            assert(next.drop_last() =~= cur);
            lemma_first_max_index(cur);
        }
        if row[i] > row[best] {
            best = i;
        }
        i = i + 1;
    }
    proof {
        assert(row@.subrange(0, row@.len() as int) =~= row@);
        lemma_first_max_index(row@);
    }
    best
}

/// Number of rows of `outputs` whose first maximal entry sits at the same
/// index as the first maximal entry of the matching row of `targets`.
pub fn count_correct(outputs: &Vec<Vec<i64>>, targets: &Vec<Vec<i64>>) -> (correct: usize)
    requires
        outputs@.len() == targets@.len(),
        forall|i: int| 0 <= i < outputs@.len() ==> (#[trigger] outputs@[i])@.len() > 0,
        forall|i: int| 0 <= i < targets@.len() ==> (#[trigger] targets@[i])@.len() > 0,
    ensures
        correct == correct_count(outputs.deep_view(), targets.deep_view()),
        correct <= outputs@.len(),
{
    let n = outputs.len();
    let mut correct: usize = 0;
    let mut i: usize = 0;
    while i < n
        invariant
            n == outputs@.len(),
            outputs@.len() == targets@.len(),
            forall|k: int| 0 <= k < outputs@.len() ==> (#[trigger] outputs@[k])@.len() > 0,
            forall|k: int| 0 <= k < targets@.len() ==> (#[trigger] targets@[k])@.len() > 0,
            0 <= i <= n,
            correct <= i,
            correct == correct_count(
                outputs.deep_view().subrange(0, i as int),
                targets.deep_view().subrange(0, i as int),
            ),
        decreases n - i,
    {
        let p = argmax_row(&outputs[i]);
        let t = argmax_row(&targets[i]);
        proof {
            let outs = outputs.deep_view();
            let tgts = targets.deep_view();
            assert(outs.subrange(0, i + 1).drop_last() =~= outs.subrange(0, i as int));
            assert(tgts.subrange(0, i + 1).drop_last() =~= tgts.subrange(0, i as int));
            assert(outs.subrange(0, i + 1).last() =~= outputs@[i as int]@);
            assert(tgts.subrange(0, i + 1).last() =~= targets@[i as int]@);
        }
        if p == t {
            correct = correct + 1;
        }
        i = i + 1;
    }
    proof {
        assert(outputs.deep_view().subrange(0, n as int) =~= outputs.deep_view());
        assert(targets.deep_view().subrange(0, n as int) =~= targets.deep_view());
    }
    correct
}

/// A one-hot row: entry `k` is 1 and every other entry is 0.
pub open spec fn is_one_hot(s: Seq<i64>, k: int) -> bool {
    &&& 0 <= k < s.len()
    &&& s[k] == 1
    &&& forall|j: int| 0 <= j < s.len() && j != k ==> s[j] == 0
}

/// The first maximal entry of a one-hot row is its hot index.
pub proof fn lemma_one_hot_argmax(s: Seq<i64>, k: int)
    requires
        is_one_hot(s, k),
    ensures
        first_max_index(s) == k,
{
    lemma_first_max_index(s);
    let r = first_max_index(s);
    if r != k {
        assert(s[k] <= s[r]);
        assert(s[r] == 0);
    }
}

/// Evaluation on an output that exactly reproduces the target matrix scores
/// every row correct: the accuracy is `outs.len()` out of `outs.len()`.
pub proof fn lemma_exact_output_full_accuracy(outs: Seq<Seq<i64>>, tgts: Seq<Seq<i64>>)
    requires
        outs.len() == tgts.len(),
        forall|i: int| 0 <= i < outs.len() ==> outs[i] == tgts[i],
    ensures
        correct_count(outs, tgts) == outs.len(),
    decreases outs.len(),
{
    if outs.len() > 0 {
        lemma_exact_output_full_accuracy(outs.drop_last(), tgts.drop_last());
    }
}

/// A one-hot row that selects some class other than `c`.
pub open spec fn selects_other_class(row: Seq<i64>, c: int) -> bool {
    exists|k: int| is_one_hot(row, k) && k != c
}

/// Evaluation on an output that always predicts one fixed class `c` scores
/// no row correct when no one-hot target row selects `c`: the accuracy is 0.
pub proof fn lemma_fixed_wrong_class_zero_accuracy(
    outs: Seq<Seq<i64>>,
    tgts: Seq<Seq<i64>>,
    c: int,
)
    requires
        outs.len() == tgts.len(),
        forall|i: int| 0 <= i < outs.len() ==> first_max_index(#[trigger] outs[i]) == c,
        forall|i: int| 0 <= i < tgts.len() ==> selects_other_class(#[trigger] tgts[i], c),
    ensures
        correct_count(outs, tgts) == 0,
    decreases outs.len(),
{
    if outs.len() > 0 {
        assert forall|i: int|
            0 <= i < outs.drop_last().len() implies first_max_index(
            #[trigger] outs.drop_last()[i],
        ) == c by {
            assert(outs.drop_last()[i] == outs[i]);
        }
        assert forall|i: int|
            0 <= i < tgts.drop_last().len() implies selects_other_class(
            #[trigger] tgts.drop_last()[i],
            c,
        ) by {
            assert(tgts.drop_last()[i] == tgts[i]);
        }
        lemma_fixed_wrong_class_zero_accuracy(outs.drop_last(), tgts.drop_last(), c);
        let last = tgts.len() - 1;
        assert(selects_other_class(tgts[last], c));
        let k = choose|k: int| is_one_hot(tgts[last], k) && k != c;
        lemma_one_hot_argmax(tgts[last], k);
    }
}

} // verus!
