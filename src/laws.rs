//! Laws that hold across calls: every operation's contract fixes its result,
//! so calling it again on the same inputs gives the same result, and every
//! operation refuses a zero total or a zero size, count or weight.
use vstd::prelude::*;
use crate::batch::SplitError;
use crate::split::{
    even_split_outcome,
    max_size_error,
    optimize_split_error,
    optimize_split_outcome,
    split_by_count_error,
    split_by_count_outcome,
    split_range_error,
    split_range_outcome,
    split_weighted_error,
    split_weighted_outcome,
    split_with_min_batch_error,
    split_with_min_batch_outcome,
    split_with_remainder_outcome,
};

verus! {

/// `even_split` is deterministic: two results that both meet its contract
/// on the same inputs are equal.
pub proof fn lemma_even_split_deterministic(
    total: nat,
    max_batch_size: nat,
    r1: Result<(nat, Seq<nat>), SplitError>,
    r2: Result<(nat, Seq<nat>), SplitError>,
)
    requires
        even_split_outcome(total, max_batch_size, r1),
        even_split_outcome(total, max_batch_size, r2),
    ensures
        r1 == r2,
{
    if let (Ok((n1, s1)), Ok((n2, s2))) = (r1, r2) {
        let d1 = s1[0];
        let d2 = s2[0];
        if d1 < d2 {
            assert((total as int % d2 as int) != 0);
        }
        if d2 < d1 {
            assert((total as int % d1 as int) != 0);
        }
        assert(d1 == d2);
        assert(n1 == n2) by (nonlinear_arith)
            requires
                n1 * d1 == total,
                n2 * d1 == total,
                d1 >= 1,
        ;
        assert(s1 =~= s2);
    }
}

/// `split_weighted` is deterministic: two results that both meet its
/// contract on the same inputs are equal.
pub proof fn lemma_split_weighted_deterministic(
    total: nat,
    weights: Seq<usize>,
    r1: Result<Seq<nat>, SplitError>,
    r2: Result<Seq<nat>, SplitError>,
)
    requires
        split_weighted_outcome(total, weights, r1),
        split_weighted_outcome(total, weights, r2),
    ensures
        r1 == r2,
{
    if let (Ok(s1), Ok(s2)) = (r1, r2) {
        assert(s1 =~= s2) by {
            assert forall|i: int| 0 <= i < s1.len() implies s1[i] == s2[i] by {
                if i == s1.len() - 1 {
                    assert(s1[i] == s1.last());
                    assert(s2[i] == s2.last());
                }
            }
        }
    }
}

/// `split_range` is deterministic: two results that both meet its contract
/// on the same inputs are equal.
pub proof fn lemma_split_range_deterministic(
    total: nat,
    min_batch_size: nat,
    max_batch_size: nat,
    r1: Result<Seq<(usize, usize, usize)>, SplitError>,
    r2: Result<Seq<(usize, usize, usize)>, SplitError>,
)
    requires
        split_range_outcome(total, min_batch_size, max_batch_size, r1),
        split_range_outcome(total, min_batch_size, max_batch_size, r2),
    ensures
        r1 == r2,
{
    if let (Ok(s1), Ok(s2)) = (r1, r2) {
        assert(s1 =~= s2) by {
            assert forall|i: int| 0 <= i < s1.len() implies s1[i] == s2[i] by {
                assert(s1[i].1 == s2[i].1);
            }
        }
    }
}

/// `optimize_split` is deterministic: two results that both meet its
/// contract on the same inputs are equal.
pub proof fn lemma_optimize_split_deterministic(
    total: nat,
    min_batches: nat,
    max_batches: nat,
    r1: Result<(nat, Seq<nat>), SplitError>,
    r2: Result<(nat, Seq<nat>), SplitError>,
)
    requires
        optimize_split_outcome(total, min_batches, max_batches, r1),
        optimize_split_outcome(total, min_batches, max_batches, r2),
    ensures
        r1 == r2,
{
    if let (Ok((n1, s1)), Ok((n2, s2))) = (r1, r2) {
        if n1 < n2 {
            assert((total as int % n1 as int) <= (total as int % n2 as int));
            assert((total as int % n2 as int) < (total as int % n1 as int));
        }
        if n2 < n1 {
            assert((total as int % n2 as int) <= (total as int % n1 as int));
            assert((total as int % n1 as int) < (total as int % n2 as int));
        }
        assert(s1 =~= s2);
    }
}

/// `split_with_min_batch` is deterministic: two results that both meet its
/// contract on the same inputs are equal.
pub proof fn lemma_split_with_min_batch_deterministic(
    total: nat,
    max_batch_size: nat,
    min_batch_size: nat,
    r1: Result<(nat, Seq<nat>), SplitError>,
    r2: Result<(nat, Seq<nat>), SplitError>,
)
    requires
        split_with_min_batch_outcome(total, max_batch_size, min_batch_size, r1),
        split_with_min_batch_outcome(total, max_batch_size, min_batch_size, r2),
    ensures
        r1 == r2,
{
    if let (Ok((n1, s1)), Ok((n2, s2))) = (r1, r2) {
        assert(s1 =~= s2);
    }
}

/// `split_by_count` is deterministic: two results that both meet its
/// contract on the same inputs are equal.
pub proof fn lemma_split_by_count_deterministic(
    total: nat,
    num_batches: nat,
    r1: Result<Seq<nat>, SplitError>,
    r2: Result<Seq<nat>, SplitError>,
)
    requires
        split_by_count_outcome(total, num_batches, r1),
        split_by_count_outcome(total, num_batches, r2),
    ensures
        r1 == r2,
{
    if let (Ok(s1), Ok(s2)) = (r1, r2) {
        assert(s1 =~= s2);
    }
}

/// `split_with_remainder` is deterministic: two results that both meet its
/// contract on the same inputs are equal.
pub proof fn lemma_split_with_remainder_deterministic(
    total: nat,
    max_batch_size: nat,
    r1: Result<(nat, Seq<nat>, nat), SplitError>,
    r2: Result<(nat, Seq<nat>, nat), SplitError>,
)
    requires
        split_with_remainder_outcome(total, max_batch_size, r1),
        split_with_remainder_outcome(total, max_batch_size, r2),
    ensures
        r1 == r2,
{
    if let (Ok((n1, s1, m1)), Ok((n2, s2, m2))) = (r1, r2) {
        assert(s1 =~= s2);
    }
}

/// Every operation refuses a zero total, and each one refuses a zero batch
/// size, batch count or weight among its own parameters.
pub proof fn lemma_zero_inputs_rejected(total: nat, a: nat, b: nat, weights: Seq<usize>)
    ensures
        total == 0 ==> {
            &&& max_size_error(total, a) == Some(SplitError::ZeroTotal)
            &&& split_weighted_error(total, weights) == Some(SplitError::ZeroTotal)
            &&& split_range_error(total, a, b) == Some(SplitError::ZeroTotal)
            &&& optimize_split_error(total, a, b) == Some(SplitError::ZeroTotal)
            &&& split_with_min_batch_error(total, a, b) == Some(SplitError::ZeroTotal)
            &&& split_by_count_error(total, a) == Some(SplitError::ZeroTotal)
        },
        total > 0 && a == 0 ==> {
            &&& max_size_error(total, a) == Some(SplitError::ZeroMaxBatchSize)
            &&& split_range_error(total, a, b) == Some(SplitError::ZeroMinBatchSize)
            &&& optimize_split_error(total, a, b) == Some(SplitError::ZeroNumBatches)
            &&& split_with_min_batch_error(total, a, b) == Some(SplitError::ZeroMaxBatchSize)
            &&& split_by_count_error(total, a) == Some(SplitError::ZeroNumBatches)
        },
        total > 0 && a > 0 && b == 0 ==> {
            &&& split_range_error(total, a, b) == Some(SplitError::InvalidRange)
            &&& optimize_split_error(total, a, b) == Some(SplitError::InvalidRange)
            &&& split_with_min_batch_error(total, a, b) == Some(SplitError::ZeroMinBatchSize)
        },
        total > 0 && weights.len() > 0 && (exists|i: int| 0 <= i < weights.len() && weights[i] == 0)
            ==> split_weighted_error(total, weights) == Some(SplitError::ZeroWeight),
{
}

} // verus!
