//! Feature standardization in fixed-point arithmetic.
//!
//! Measurements are carried as non-negative integers in units of
//! `1 / SCALE` (so `SCALE` stands for 1.0).  A `Normalizer` is fitted once
//! from a reference set: per feature it takes the floor of the arithmetic
//! mean, and for the standard deviation the floor of the square root of the
//! variance — Bessel-corrected (divided by `n - 1`) when the reference set
//! has more than one row, population variance when it has exactly one.  A
//! standard deviation that comes out as zero (a feature constant across the
//! reference set) is replaced by `SCALE`, i.e. by 1.0, so that transforming
//! never divides by zero; this floor is the fixed-point counterpart of the
//! small-epsilon floor a floating-point implementation would use, and it is
//! part of the contract.
//!
//! `transform` maps every measurement `x` of feature `j` to
//! `(x - mean[j]) * SCALE / stdev[j]`, rounded toward zero — a standardized
//! value again in units of `1 / SCALE`.

use vstd::prelude::*;

verus! {

use vstd::arithmetic::div_mod::lemma_div_nonincreasing;
use vstd::arithmetic::div_mod::lemma_multiply_divide_le;
use vstd::arithmetic::div_mod::lemma_div_multiples_vanish;
use vstd::arithmetic::div_mod::lemma_div_of0;
use vstd::arithmetic::mul::lemma_mul_inequality;
use vstd::arithmetic::mul::lemma_mul_is_commutative;

/// Fixed-point unit: this many raw steps stand for 1.0.
pub const SCALE: u64 = 1_000_000;

/// Largest raw measurement the normalizer accepts (one million units).
pub const MAX_RAW: u64 = 1_000_000_000_000;

/// Largest reference set the normalizer accepts.
pub const MAX_SAMPLES: usize = 1_000_000;

/// Number of features of a sample: weight, size, width, height.
pub const FEATURES: usize = 4;

/// Largest possible squared deviation, `MAX_RAW * MAX_RAW`.
pub const MAX_SQ_DEV: u128 = 1_000_000_000_000_000_000_000_000;

/// Every row has exactly `width` entries.
pub open spec fn rows_shaped(rows: Seq<Seq<u64>>, width: int) -> bool {
    forall|i: int| 0 <= i < rows.len() ==> (#[trigger] rows[i]).len() == width
}

/// Every entry stays within the accepted measurement range.
pub open spec fn rows_bounded(rows: Seq<Seq<u64>>) -> bool {
    forall|i: int, j: int|
        #![trigger rows[i][j]]
        0 <= i < rows.len() && 0 <= j < rows[i].len() ==> rows[i][j] <= MAX_RAW
}

/// Sum of column `j` over all rows.
pub open spec fn feature_sum(rows: Seq<Seq<u64>>, j: int) -> int
    decreases rows.len(),
{
    if rows.len() == 0 {
        0
    } else {
        feature_sum(rows.drop_last(), j) + rows.last()[j]
    }
}

/// Absolute deviation of a value from a center.
pub open spec fn abs_dev(x: int, m: int) -> int {
    if x >= m {
        x - m
    } else {
        m - x
    }
}

/// Sum over all rows of the squared deviation of column `j` from `m`.
pub open spec fn feature_sq_dev(rows: Seq<Seq<u64>>, m: int, j: int) -> int
    decreases rows.len(),
{
    if rows.len() == 0 {
        0
    } else {
        feature_sq_dev(rows.drop_last(), m, j) + abs_dev(rows.last()[j] as int, m) * abs_dev(
            rows.last()[j] as int,
            m,
        )
    }
}

/// Variance denominator: Bessel's correction for more than one row,
/// population variance (here: one row, so denominator 1) otherwise.
pub open spec fn variance_divisor(n: int) -> int {
    if n > 1 {
        n - 1
    } else {
        1
    }
}

/// The standardized value of `x` under mean `m` and standard deviation `s`,
/// in units of `1 / SCALE`, rounded toward zero.
pub open spec fn standardized(x: int, m: int, s: int) -> int {
    if x >= m {
        (x - m) * (SCALE as int) / s
    } else {
        -((m - x) * (SCALE as int) / s)
    }
}

/// `s` is the fitted standard deviation of column `j`: the floor of the
/// square root of the variance around `m`, with 0 replaced by `SCALE`.
pub open spec fn std_fitted(rows: Seq<Seq<u64>>, m: int, j: int, s: int) -> bool {
    let v = feature_sq_dev(rows, m, j) / variance_divisor(rows.len() as int);
    &&& (v == 0 ==> s == SCALE)
    &&& (v > 0 ==> s * s <= v && v < (s + 1) * (s + 1))
}

/// Why fitting is refused.
#[derive(Clone, Copy, Debug, PartialEq, Eq, Structural)]
pub enum FitError {
    /// The reference set has no rows: mean and deviation are undefined.
    EmptyReference,
}

/// Per-feature standardization parameters, fitted once from a reference set.
#[derive(Debug)]
pub struct Normalizer {
    /// Fitted per-feature mean, in raw units.
    pub mean: Vec<u64>,
    /// Fitted per-feature standard deviation, in raw units, never zero.
    pub stdev: Vec<u64>,
}

/// The sums of column `j`, bounded by the number of rows times the largest
/// measurement.
proof fn lemma_feature_sum_bound(rows: Seq<Seq<u64>>, j: int)
    requires
        rows_shaped(rows, FEATURES as int),
        rows_bounded(rows),
        0 <= j < FEATURES,
    ensures
        0 <= feature_sum(rows, j) <= rows.len() * (MAX_RAW as int),
    decreases rows.len(),
{
    if rows.len() > 0 {
        let prefix = rows.drop_last();
        assert(rows_shaped(prefix, FEATURES as int) && rows_bounded(prefix)) by {
            assert(forall|i: int| 0 <= i < prefix.len() ==> prefix[i] == rows[i]);
        }
        lemma_feature_sum_bound(prefix, j);
        assert(rows.last()[j] <= MAX_RAW);
    }
}

/// The squared deviations of column `j` from a center within range, bounded
/// by the number of rows times the largest squared deviation.
proof fn lemma_feature_sq_dev_bound(rows: Seq<Seq<u64>>, m: int, j: int)
    requires
        rows_shaped(rows, FEATURES as int),
        rows_bounded(rows),
        0 <= m <= MAX_RAW,
        0 <= j < FEATURES,
    ensures
        0 <= feature_sq_dev(rows, m, j) <= rows.len() * (MAX_SQ_DEV as int),
    decreases rows.len(),
{
    if rows.len() > 0 {
        let prefix = rows.drop_last();
        assert(rows_shaped(prefix, FEATURES as int) && rows_bounded(prefix)) by {
            assert(forall|i: int| 0 <= i < prefix.len() ==> prefix[i] == rows[i]);
        }
        lemma_feature_sq_dev_bound(prefix, m, j);
        let d = abs_dev(rows.last()[j] as int, m);
        assert(0 <= d <= MAX_RAW as int);
        assert(d * d <= MAX_SQ_DEV as int) by (nonlinear_arith)
            requires
                0 <= d <= MAX_RAW as int,
                MAX_SQ_DEV as int == (MAX_RAW as int) * (MAX_RAW as int),
        ;
        assert(0 <= d * d) by (nonlinear_arith);
    }
}

/// Floor of the square root: `r * r <= v < (r + 1) * (r + 1)`.
fn isqrt(v: u128) -> (r: u64)
    requires
        v < 0x10000000000000000000000000u128,
    ensures
        (r as int) * (r as int) <= v as int,
        (v as int) < (r as int + 1) * (r as int + 1),
{
    let mut lo: u128 = 0;
    let mut hi: u128 = 0x4000000000000u128;
    proof {
        assert(0x4000000000000int * 0x4000000000000int == 0x10000000000000000000000000int);
    }
    while lo + 1 < hi
        invariant
            lo < hi <= 0x4000000000000u128,
            (lo as int) * (lo as int) <= v as int,
            (v as int) < (hi as int) * (hi as int),
        decreases hi - lo,
    {
        let mid = lo + (hi - lo) / 2;
        proof {
            assert((mid as int) * (mid as int) < 0x10000000000000000000000000int)
                by (nonlinear_arith)
                requires
                    mid < 0x4000000000000u128,
            ;
        }
        if mid * mid <= v {
            lo = mid;
        } else {
            hi = mid;
        }
    }
    lo as u64
}

/// Sum of column `j` of the reference set.
fn column_sum(rows: &Vec<Vec<u64>>, j: usize) -> (s: u128)
    requires
        rows@.len() <= MAX_SAMPLES,
        rows_shaped(rows.deep_view(), FEATURES as int),
        rows_bounded(rows.deep_view()),
        j < FEATURES,
    ensures
        s as int == feature_sum(rows.deep_view(), j as int),
        s as int <= rows@.len() * (MAX_RAW as int),
{
    let n = rows.len();
    let mut s: u128 = 0;
    let mut i: usize = 0;
    while i < n
        invariant
            n == rows@.len(),
            rows@.len() <= MAX_SAMPLES,
            rows_shaped(rows.deep_view(), FEATURES as int),
            rows_bounded(rows.deep_view()),
            j < FEATURES,
            0 <= i <= n,
            s as int == feature_sum(rows.deep_view().subrange(0, i as int), j as int),
            s as int <= i * (MAX_RAW as int),
        decreases n - i,
    {
        proof {
            let dv = rows.deep_view();
            assert(dv.subrange(0, i + 1).drop_last() =~= dv.subrange(0, i as int));
            assert(dv.subrange(0, i + 1).last() == dv[i as int]);
            assert(dv[i as int][j as int] <= MAX_RAW);
        }
        let x = rows[i][j];
        s = s + (x as u128);
        i = i + 1;
    }
    proof {
        assert(rows.deep_view().subrange(0, n as int) =~= rows.deep_view());
    }
    s
}

/// Sum of the squared deviations of column `j` of the reference set from `m`.
fn column_sq_dev(rows: &Vec<Vec<u64>>, m: u64, j: usize) -> (s: u128)
    requires
        rows@.len() <= MAX_SAMPLES,
        rows_shaped(rows.deep_view(), FEATURES as int),
        rows_bounded(rows.deep_view()),
        m <= MAX_RAW,
        j < FEATURES,
    ensures
        s as int == feature_sq_dev(rows.deep_view(), m as int, j as int),
        s as int <= rows@.len() * (MAX_SQ_DEV as int),
{
    let n = rows.len();
    let mut s: u128 = 0;
    let mut i: usize = 0;
    while i < n
        invariant
            n == rows@.len(),
            rows@.len() <= MAX_SAMPLES,
            rows_shaped(rows.deep_view(), FEATURES as int),
            rows_bounded(rows.deep_view()),
            m <= MAX_RAW,
            j < FEATURES,
            0 <= i <= n,
            s as int == feature_sq_dev(rows.deep_view().subrange(0, i as int), m as int, j as int),
            s as int <= i * (MAX_SQ_DEV as int),
        decreases n - i,
    {
        proof {
            let dv = rows.deep_view();
            assert(dv.subrange(0, i + 1).drop_last() =~= dv.subrange(0, i as int));
            assert(dv.subrange(0, i + 1).last() == dv[i as int]);
            assert(dv[i as int][j as int] <= MAX_RAW);
        }
        let x = rows[i][j];
        let d: u64 = if x >= m {
            x - m
        } else {
            m - x
        };
        proof {
            assert(d as int == abs_dev(x as int, m as int));
            assert((d as int) * (d as int) <= MAX_SQ_DEV as int) by (nonlinear_arith)
                requires
                    0 <= d <= MAX_RAW,
                    MAX_SQ_DEV as int == (MAX_RAW as int) * (MAX_RAW as int),
            ;
            assert(0 <= (d as int) * (d as int)) by (nonlinear_arith);
        }
        s = s + (d as u128) * (d as u128);
        i = i + 1;
    }
    proof {
        assert(rows.deep_view().subrange(0, n as int) =~= rows.deep_view());
    }
    s
}

impl Normalizer {
    /// Structural well-formedness: one mean and one positive standard
    /// deviation per feature, the mean within the measurement range.
    pub open spec fn wf(&self) -> bool {
        &&& self.mean@.len() == FEATURES
        &&& self.stdev@.len() == FEATURES
        &&& forall|j: int| 0 <= j < FEATURES ==> (#[trigger] self.mean@[j]) <= MAX_RAW
        &&& forall|j: int| 0 <= j < FEATURES ==> 1 <= (#[trigger] self.stdev@[j])
    }

    /// The state fitting on `rows` leaves behind: per feature, the floor of
    /// the column mean, and the floor of the square root of the column
    /// variance with zero replaced by `SCALE`.
    pub open spec fn fitted(&self, rows: Seq<Seq<u64>>) -> bool {
        &&& self.wf()
        &&& rows.len() > 0
        &&& forall|j: int|
            0 <= j < FEATURES ==> (#[trigger] self.mean@[j]) as int == feature_sum(rows, j) / (
            rows.len() as int)
        &&& forall|j: int|
            0 <= j < FEATURES ==> std_fitted(
                rows,
                self.mean@[j] as int,
                j,
                (#[trigger] self.stdev@[j]) as int,
            )
    }

    /// A fresh, unfitted normalizer: mean 0 and deviation 1.0 per feature,
    /// so that transforming before fitting only rescales.
    pub fn new() -> (r: Normalizer)
        ensures
            r.wf(),
            forall|j: int| 0 <= j < FEATURES ==> (#[trigger] r.mean@[j]) == 0,
            forall|j: int| 0 <= j < FEATURES ==> (#[trigger] r.stdev@[j]) == SCALE,
    {
        let mut mean: Vec<u64> = Vec::new();
        let mut stdev: Vec<u64> = Vec::new();
        let mut j: usize = 0;
        while j < FEATURES
            invariant
                0 <= j <= FEATURES,
                mean@.len() == j,
                stdev@.len() == j,
                forall|k: int| 0 <= k < j ==> (#[trigger] mean@[k]) == 0,
                forall|k: int| 0 <= k < j ==> (#[trigger] stdev@[k]) == SCALE,
            decreases FEATURES - j,
        {
            mean.push(0);
            stdev.push(SCALE);
            j = j + 1;
        }
        Normalizer { mean, stdev }
    }

    /// Fits the normalizer from a reference set: per feature the floor of
    /// the column mean and the floored square root of the column variance
    /// (Bessel-corrected for more than one row), a zero deviation replaced
    /// by `SCALE`.  An empty reference set is refused and the normalizer
    /// left untouched.
    pub fn fit(&mut self, rows: &Vec<Vec<u64>>) -> (r: Result<(), FitError>)
        requires
            rows@.len() <= MAX_SAMPLES,
            rows_shaped(rows.deep_view(), FEATURES as int),
            rows_bounded(rows.deep_view()),
        ensures
            match r {
                Ok(()) => rows@.len() > 0 && final(self).fitted(rows.deep_view()),
                Err(e) => rows@.len() == 0 && e == FitError::EmptyReference && *final(self)
                    == *old(self),
            },
    {
        let n = rows.len();
        if n == 0 {
            return Err(FitError::EmptyReference);
        }
        let divisor: u128 = if n > 1 {
            (n - 1) as u128
        } else {
            1
        };
        let mut mean: Vec<u64> = Vec::new();
        let mut stdev: Vec<u64> = Vec::new();
        let mut j: usize = 0;
        while j < FEATURES
            invariant
                n == rows@.len(),
                0 < n <= MAX_SAMPLES,
                rows_shaped(rows.deep_view(), FEATURES as int),
                rows_bounded(rows.deep_view()),
                divisor as int == variance_divisor(n as int),
                1 <= divisor,
                0 <= j <= FEATURES,
                mean@.len() == j,
                stdev@.len() == j,
                forall|k: int|
                    0 <= k < j ==> (#[trigger] mean@[k]) as int == feature_sum(
                        rows.deep_view(),
                        k,
                    ) / (n as int),
                forall|k: int| 0 <= k < j ==> (#[trigger] mean@[k]) <= MAX_RAW,
                forall|k: int|
                    0 <= k < j ==> std_fitted(
                        rows.deep_view(),
                        mean@[k] as int,
                        k,
                        (#[trigger] stdev@[k]) as int,
                    ),
                forall|k: int| 0 <= k < j ==> 1 <= (#[trigger] stdev@[k]),
            decreases FEATURES - j,
        {
            let s = column_sum(rows, j);
            let m_wide = s / (n as u128);
            proof {
                lemma_feature_sum_bound(rows.deep_view(), j as int);
                lemma_multiply_divide_le(s as int, n as int, MAX_RAW as int);
            }
            let m = m_wide as u64;
            let sq = column_sq_dev(rows, m, j);
            let v = sq / divisor;
            proof {
                lemma_feature_sq_dev_bound(rows.deep_view(), m as int, j as int);
                lemma_div_nonincreasing(sq as int, divisor as int);
                assert(n * (MAX_SQ_DEV as int) <= (MAX_SAMPLES as int) * (MAX_SQ_DEV as int));
                assert(v < 0x10000000000000000000000000u128);
            }
            let root = isqrt(v);
            let sd: u64 = if root == 0 {
                proof {
                    assert((root as int + 1) * (root as int + 1) == 1) by (nonlinear_arith)
                        requires
                            root == 0u64,
                    ;
                    assert((v as int) < 1);
                }
                SCALE
            } else {
                proof {
                    assert(1 <= (root as int) * (root as int)) by (nonlinear_arith)
                        requires
                            1 <= root,
                    ;
                }
                root
            };
            mean.push(m);
            stdev.push(sd);
            j = j + 1;
        }
        self.mean = mean;
        self.stdev = stdev;
        Ok(())
    }

    /// Standardizes every measurement of every row against the fitted state:
    /// entry `(i, j)` becomes `(x - mean[j]) * SCALE / stdev[j]`, rounded
    /// toward zero.  The normalizer itself is never changed.
    pub fn transform(&self, rows: &Vec<Vec<u64>>) -> (out: Vec<Vec<i64>>)
        requires
            self.wf(),
            rows_shaped(rows.deep_view(), FEATURES as int),
            rows_bounded(rows.deep_view()),
        ensures
            out@.len() == rows@.len(),
            forall|i: int| 0 <= i < out@.len() ==> (#[trigger] out@[i])@.len() == FEATURES,
            forall|i: int, j: int|
                #![trigger out@[i]@[j]]
                0 <= i < rows@.len() && 0 <= j < FEATURES ==> out@[i]@[j] as int == standardized(
                    rows.deep_view()[i][j] as int,
                    self.mean@[j] as int,
                    self.stdev@[j] as int,
                ),
    {
        let n = rows.len();
        let mut out: Vec<Vec<i64>> = Vec::new();
        let mut i: usize = 0;
        while i < n
            invariant
                n == rows@.len(),
                self.wf(),
                rows_shaped(rows.deep_view(), FEATURES as int),
                rows_bounded(rows.deep_view()),
                0 <= i <= n,
                out@.len() == i,
                forall|k: int| 0 <= k < i ==> (#[trigger] out@[k])@.len() == FEATURES,
                forall|k: int, j: int|
                    #![trigger out@[k]@[j]]
                    0 <= k < i && 0 <= j < FEATURES ==> out@[k]@[j] as int == standardized(
                        rows.deep_view()[k][j] as int,
                        self.mean@[j] as int,
                        self.stdev@[j] as int,
                    ),
            decreases n - i,
        {
            let mut row: Vec<i64> = Vec::new();
            let mut j: usize = 0;
            while j < FEATURES
                invariant
                    n == rows@.len(),
                    self.wf(),
                    rows_shaped(rows.deep_view(), FEATURES as int),
                    rows_bounded(rows.deep_view()),
                    0 <= i < n,
                    0 <= j <= FEATURES,
                    row@.len() == j,
                    forall|c: int|
                        #![trigger row@[c]]
                        0 <= c < j ==> row@[c] as int == standardized(
                            rows.deep_view()[i as int][c] as int,
                            self.mean@[c] as int,
                            self.stdev@[c] as int,
                        ),
                decreases FEATURES - j,
            {
                proof {
                    let dv = rows.deep_view();
                    assert(dv[i as int] =~= rows@[i as int]@);
                    assert(dv[i as int][j as int] <= MAX_RAW);
                }
                let x = rows[i][j];
                let m = self.mean[j];
                let sd = self.stdev[j];
                proof {
                    assert(rows.deep_view()[i as int][j as int] == x);
                    assert(x <= MAX_RAW);
                    assert(m <= MAX_RAW);
                }

                let val: i64 = if x >= m {
                    proof {
                        lemma_mul_inequality((x - m) as int, MAX_RAW as int, SCALE as int);
                    }
                    let p = ((x - m) as u128) * (SCALE as u128);
                    let q = p / (sd as u128);
                    proof {
                        lemma_div_nonincreasing(p as int, sd as int);
                    }
                    q as i64
                } else {
                    proof {
                        lemma_mul_inequality((m - x) as int, MAX_RAW as int, SCALE as int);
                    }
                    let p = ((m - x) as u128) * (SCALE as u128);
                    let q = p / (sd as u128);
                    proof {
                        lemma_div_nonincreasing(p as int, sd as int);
                    }
                    -(q as i64)
                };
                row.push(val);
                j = j + 1;
            }
            out.push(row);
            i = i + 1;
        }
        out
    }

    /// Standardizes the four measurements of one sample against the fitted
    /// state, exactly as one row of `transform`: the prediction path.
    pub fn normalize(&self, row: &Vec<u64>) -> (out: Vec<i64>)
        requires
            self.wf(),
            row@.len() == FEATURES,
            forall|j: int| 0 <= j < FEATURES ==> (#[trigger] row@[j]) <= MAX_RAW,
        ensures
            out@.len() == FEATURES,
            forall|j: int|
                #![trigger out@[j]]
                0 <= j < FEATURES ==> out@[j] as int == standardized(
                    row@[j] as int,
                    self.mean@[j] as int,
                    self.stdev@[j] as int,
                ),
    {
        let mut out: Vec<i64> = Vec::new();
        let mut j: usize = 0;
        while j < FEATURES
            invariant
                self.wf(),
                row@.len() == FEATURES,
                forall|c: int| 0 <= c < FEATURES ==> (#[trigger] row@[c]) <= MAX_RAW,
                0 <= j <= FEATURES,
                out@.len() == j,
                forall|c: int|
                    #![trigger out@[c]]
                    0 <= c < j ==> out@[c] as int == standardized(
                        row@[c] as int,
                        self.mean@[c] as int,
                        self.stdev@[c] as int,
                    ),
            decreases FEATURES - j,
        {
            let x = row[j];
            let m = self.mean[j];
            let sd = self.stdev[j];
            let val: i64 = if x >= m {
                proof {
                    lemma_mul_inequality((x - m) as int, MAX_RAW as int, SCALE as int);
                }
                let p = ((x - m) as u128) * (SCALE as u128);
                let q = p / (sd as u128);
                proof {
                    lemma_div_nonincreasing(p as int, sd as int);
                }
                q as i64
            } else {
                proof {
                    lemma_mul_inequality((m - x) as int, MAX_RAW as int, SCALE as int);
                }
                let p = ((m - x) as u128) * (SCALE as u128);
                let q = p / (sd as u128);
                proof {
                    lemma_div_nonincreasing(p as int, sd as int);
                }
                -(q as i64)
            };
            out.push(val);
            j = j + 1;
        }
        out
    }
}

/// A column that is constant sums to the row count times its value.
proof fn lemma_constant_column_sum(rows: Seq<Seq<u64>>, j: int, v: u64)
    requires
        rows_shaped(rows, FEATURES as int),
        0 <= j < FEATURES,
        forall|i: int| 0 <= i < rows.len() ==> (#[trigger] rows[i])[j] == v,
    ensures
        feature_sum(rows, j) == rows.len() * (v as int),
    decreases rows.len(),
{
    if rows.len() > 0 {
        let prefix = rows.drop_last();
        assert(forall|i: int| 0 <= i < prefix.len() ==> prefix[i] == rows[i]);
        lemma_constant_column_sum(prefix, j, v);
        assert(rows.last() == rows[rows.len() - 1]);
        assert(rows.last()[j] == v);
        assert((rows.len() as int) * (v as int) == (rows.len() as int - 1) * (v as int) + (
        v as int)) by (nonlinear_arith);
    }
}

/// A column that is constant has no squared deviation from its own value.
proof fn lemma_constant_column_sq_dev(rows: Seq<Seq<u64>>, j: int, v: u64)
    requires
        rows_shaped(rows, FEATURES as int),
        0 <= j < FEATURES,
        forall|i: int| 0 <= i < rows.len() ==> (#[trigger] rows[i])[j] == v,
    ensures
        feature_sq_dev(rows, v as int, j) == 0,
    decreases rows.len(),
{
    if rows.len() > 0 {
        let prefix = rows.drop_last();
        assert(forall|i: int| 0 <= i < prefix.len() ==> prefix[i] == rows[i]);
        lemma_constant_column_sq_dev(prefix, j, v);
        assert(rows.last() == rows[rows.len() - 1]);
        assert(rows.last()[j] == v);
        assert(abs_dev(rows.last()[j] as int, v as int) == 0);
    }
}

/// A feature that is constant across the reference set standardizes to zero
/// on that set: its fitted mean is the constant itself, its deviation takes
/// the `SCALE` floor, and every standardized value of the column is 0.
pub proof fn lemma_constant_feature_standardizes_to_zero(
    norm: Normalizer,
    rows: Seq<Seq<u64>>,
    j: int,
    v: u64,
)
    requires
        norm.fitted(rows),
        rows_shaped(rows, FEATURES as int),
        0 <= j < FEATURES,
        forall|i: int| 0 <= i < rows.len() ==> (#[trigger] rows[i])[j] == v,
    ensures
        norm.mean@[j] == v,
        norm.stdev@[j] == SCALE,
        standardized(v as int, norm.mean@[j] as int, norm.stdev@[j] as int) == 0,
{
    let n = rows.len() as int;
    lemma_constant_column_sum(rows, j, v);
    assert(feature_sum(rows, j) / n == (n * (v as int)) / n);
    lemma_mul_is_commutative(n, v as int);
    lemma_div_multiples_vanish(v as int, n);
    assert(norm.mean@[j] as int == v as int);
    lemma_constant_column_sq_dev(rows, j, v);
    assert(feature_sq_dev(rows, v as int, j) / variance_divisor(n) == 0) by {
        lemma_div_of0(variance_divisor(n));
    }
    assert(norm.stdev@[j] == SCALE);
    assert((v as int - v as int) * (SCALE as int) == 0);
    lemma_div_of0(SCALE as int);
}

} // verus!
