//! Batch schedule of one training epoch.
//!
//! An epoch walks the training rows in contiguous batches of exactly
//! `batch_size` rows.  A trailing partial batch (when `rows % batch_size != 0`)
//! is dropped on purpose: only full batches update the parameters, so exactly
//! `rows / batch_size` gradient steps happen per epoch.

use vstd::prelude::*;

verus! {

use vstd::arithmetic::div_mod::lemma_fundamental_div_mod;
use vstd::arithmetic::div_mod::lemma_remainder_lower;
use vstd::arithmetic::mul::lemma_mul_inequality;

/// Number of full gradient-descent batches that one epoch performs over
/// `rows` training rows.
pub fn num_batches(rows: usize, batch_size: usize) -> (n: usize)
    requires
        batch_size > 0,
    ensures
        n == rows / batch_size,
{
    rows / batch_size
}

/// The half-open row ranges `[start, end)` of the batches of one epoch, in
/// the order they are visited.  Exactly `rows / batch_size` ranges come back,
/// each of width `batch_size`, contiguous from row 0; the rows of a dropped
/// trailing partial batch appear in no range.
pub fn batch_bounds(rows: usize, batch_size: usize) -> (bounds: Vec<(usize, usize)>)
    requires
        batch_size > 0,
    ensures
        bounds@.len() == rows / batch_size,
        forall|i: int|
            0 <= i < bounds@.len() ==> (#[trigger] bounds@[i]).0 == i * batch_size
                && bounds@[i].1 == i * batch_size + batch_size,
        forall|i: int| 0 <= i < bounds@.len() ==> (#[trigger] bounds@[i]).1 <= rows,
{
    let n: usize = rows / batch_size;
    proof {
        lemma_fundamental_div_mod(rows as int, batch_size as int);
        lemma_remainder_lower(rows as int, batch_size as int);
        assert(n * batch_size <= rows);
    }
    let mut bounds: Vec<(usize, usize)> = Vec::new();
    let mut b: usize = 0;
    let mut start: usize = 0;
    while b < n
        invariant
            batch_size > 0,
            b <= n,
            n * batch_size <= rows,
            start == b * batch_size,
            bounds@.len() == b,
            forall|i: int|
                0 <= i < b ==> (#[trigger] bounds@[i]).0 == i * batch_size
                    && bounds@[i].1 == i * batch_size + batch_size,
        decreases n - b,
    {
        proof {
            lemma_mul_inequality(b as int + 1, n as int, batch_size as int);
            assert((b + 1) * batch_size <= n * batch_size);
            assert(b * batch_size + batch_size == (b + 1) * batch_size) by (nonlinear_arith);
        }
        let end: usize = start + batch_size;
        bounds.push((start, end));
        b = b + 1;
        start = end;
    }
    proof {
        assert(forall|i: int|
            0 <= i < bounds@.len() ==> (#[trigger] bounds@[i]).1 <= rows) by {
            assert forall|i: int| 0 <= i < bounds@.len() implies (#[trigger] bounds@[i]).1
                <= rows by {
                lemma_mul_inequality(i + 1, n as int, batch_size as int);
                assert(bounds@[i].1 == i * batch_size + batch_size);
                assert(i * batch_size + batch_size == (i + 1) * batch_size) by (nonlinear_arith);
            }
        }
    }
    bounds
}

/// Whether the training loop reports progress after epoch `epoch` (counted
/// from 0) out of `total` epochs: every `cadence`-th epoch and the final one.
pub fn should_report(epoch: usize, cadence: usize, total: usize) -> (r: bool)
    requires
        cadence > 0,
        total > 0,
    ensures
        r == (epoch % cadence == 0 || epoch == total - 1),
{
    epoch % cadence == 0 || epoch == total - 1
}

} // verus!
