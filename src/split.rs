//! The seven splitting operations. Each one validates its inputs, returning
//! the first violated condition as a `SplitError`, and otherwise computes a
//! partition whose sizes are all positive.
use vstd::prelude::*;
use crate::batch::{
    BatchSize,
    SplitError,
    all_positive,
    batches_view,
    counted_view,
    front_loaded,
    front_loaded_size,
    remainder_view,
    repeat_size,
    sizes,
    sum_of,
};

verus! {

/// How `optimize_split` checks its inputs, in order.
pub open spec fn optimize_split_error(total: nat, min_batches: nat, max_batches: nat) -> Option<SplitError> {
    if total == 0 {
        Some(SplitError::ZeroTotal)
    } else if min_batches == 0 {
        Some(SplitError::ZeroNumBatches)
    } else if max_batches < min_batches {
        Some(SplitError::InvalidRange)
    } else if min_batches > total {
        Some(SplitError::ZeroComputedBatchSize)
    } else {
        None
    }
}

/// `k` is the smallest batch count in `[min_batches, max_batches]` whose
/// remainder `total % k` is the least over that range.
pub open spec fn is_best_count(total: nat, min_batches: nat, max_batches: nat, k: nat) -> bool {
    &&& min_batches <= k <= max_batches
    &&& forall|j: int| min_batches <= j <= max_batches ==> total % k <= #[trigger] (total as int % j)
    &&& forall|j: int| min_batches <= j < k ==> total % k < #[trigger] (total as int % j)
}

/// What `optimize_split` returns on the given inputs.
pub open spec fn optimize_split_outcome(total: nat, min_batches: nat, max_batches: nat, r: Result<(nat, Seq<nat>), SplitError>) -> bool {
    match r {
        Ok((n, s)) => {
            &&& optimize_split_error(total, min_batches, max_batches) is None
            &&& is_best_count(total, min_batches, max_batches, n)
            &&& s.len() == n
            &&& forall|i: int| 0 <= i < n ==> s[i] == front_loaded_size(total, n, i)
            &&& sum_of(s) == total
            &&& all_positive(s)
        },
        Err(e) => optimize_split_error(total, min_batches, max_batches) == Some(e),
    }
}

/// Finds the batch count in `[min_batches, max_batches]` that leaves the
/// smallest remainder, the smallest such count on a tie, and splits `total`
/// into that many batches, the first `total % count` taking one item more.
///
/// A range that starts above `total` would give empty batches and is refused.
pub fn optimize_split(total: usize, min_batches: usize, max_batches: usize) -> (r: Result<(usize, Vec<BatchSize>), SplitError>)
    ensures
        optimize_split_outcome(total as nat, min_batches as nat, max_batches as nat, counted_view(r)),
{
    if total == 0 {
        return Err(SplitError::ZeroTotal);
    }
    if min_batches == 0 {
        return Err(SplitError::ZeroNumBatches);
    }
    if max_batches < min_batches {
        return Err(SplitError::InvalidRange);
    }
    if min_batches > total {
        return Err(SplitError::ZeroComputedBatchSize);
    }
    let mut best: usize = min_batches;
    let mut best_rem: usize = total % min_batches;
    let mut nb: usize = min_batches;
    while best_rem != 0 && nb < max_batches
        invariant
            1 <= min_batches <= best <= nb <= max_batches,
            min_batches <= total,
            best_rem == total % best,
            forall|j: int| min_batches <= j <= nb ==> total % best <= #[trigger] (total as int % j),
            forall|j: int| min_batches <= j < best ==> total % best < #[trigger] (total as int % j),
        decreases max_batches - nb,
    {
        nb = nb + 1;
        let rem = total % nb;
        if rem < best_rem {
            best = nb;
            best_rem = rem;
        }
    }
    assert(best <= total) by {
        if best > total {
            assert(total % best < (total as int % min_batches as int));
            assert(total % best == total) by {
                vstd::arithmetic::div_mod::lemma_small_mod(total as nat, best as nat);
            }
            assert((total as int % min_batches as int) < (min_batches as int)) by {
                vstd::arithmetic::div_mod::lemma_mod_bound(total as int, min_batches as int);
            }
        }
    }
    Ok((best, front_loaded(total, best)))
}

/// The sum of the weights.
pub open spec fn weight_sum(w: Seq<usize>) -> int
    decreases w.len(),
{
    if w.len() == 0 {
        0
    } else {
        weight_sum(w.drop_last()) + w.last()
    }
}

/// The proportional share of batch `i`: `total * w[i] / sum(w)`, rounded down.
pub open spec fn weighted_share(total: nat, w: Seq<usize>, i: int) -> int {
    (total * w[i]) / weight_sum(w)
}

/// The sum of the proportional shares of the first `k` batches.
pub open spec fn shares_before(total: nat, w: Seq<usize>, k: int) -> int
    decreases k,
{
    if k <= 0 {
        0
    } else {
        shares_before(total, w, k - 1) + weighted_share(total, w, k - 1)
    }
}

/// How `split_weighted` checks its inputs, in order.
pub open spec fn split_weighted_error(total: nat, w: Seq<usize>) -> Option<SplitError> {
    if total == 0 {
        Some(SplitError::ZeroTotal)
    } else if w.len() == 0 {
        Some(SplitError::EmptyWeights)
    } else if exists|i: int| 0 <= i < w.len() && w[i] == 0 {
        Some(SplitError::ZeroWeight)
    } else if exists|i: int| 0 <= i < w.len() - 1 && weighted_share(total, w, i) == 0 {
        Some(SplitError::ZeroComputedBatchSize)
    } else {
        None
    }
}

proof fn lemma_weight_sum_prefix(w: Seq<usize>, k: int)
    requires
        0 <= k < w.len(),
    ensures
        weight_sum(w.subrange(0, k + 1)) == weight_sum(w.subrange(0, k)) + w[k],
{
    assert(w.subrange(0, k + 1).drop_last() =~= w.subrange(0, k));
}

proof fn lemma_weight_sum_mono(w: Seq<usize>, k: int, m: int)
    requires
        0 <= k <= m <= w.len(),
    ensures
        weight_sum(w.subrange(0, k)) <= weight_sum(w.subrange(0, m)),
    decreases m - k,
{
    if k < m {
        lemma_weight_sum_prefix(w, m - 1);
        lemma_weight_sum_mono(w, k, m - 1);
    }
}

proof fn lemma_weight_sum_nonneg(w: Seq<usize>)
    ensures
        weight_sum(w) >= 0,
    decreases w.len(),
{
    if w.len() > 0 {
        lemma_weight_sum_nonneg(w.drop_last());
    }
}

proof fn lemma_weight_le_sum(w: Seq<usize>, i: int)
    requires
        0 <= i < w.len(),
    ensures
        w[i] <= weight_sum(w),
{
    lemma_weight_sum_prefix(w, i);
    lemma_weight_sum_nonneg(w.subrange(0, i));
    lemma_weight_sum_mono(w, i + 1, w.len() as int);
    assert(w.subrange(0, w.len() as int) =~= w);
}

/// Rounding down loses items: the first `k` shares, scaled by the weight sum,
/// stay within `total` times the first `k` weights.
proof fn lemma_shares_scaled(total: nat, w: Seq<usize>, k: int)
    requires
        0 <= k <= w.len(),
        weight_sum(w) > 0,
    ensures
        shares_before(total, w, k) * weight_sum(w) <= total * weight_sum(w.subrange(0, k)),
    decreases k,
{
    if k > 0 {
        lemma_shares_scaled(total, w, k - 1);
        lemma_weight_sum_prefix(w, k - 1);
        let s = weight_sum(w);
        let a = total * w[k - 1];
        let q = weighted_share(total, w, k - 1);
        let p = shares_before(total, w, k - 1);
        let wp = weight_sum(w.subrange(0, k - 1));
        assert(q * s <= a) by (nonlinear_arith)
            requires
                q == a / s,
                s > 0,
        ;
        assert((p + q) * s <= total * (wp + w[k - 1])) by (nonlinear_arith)
            requires
                p * s <= total * wp,
                q * s <= a,
                a == total * w[k - 1],
        ;
    }
}

/// Before the last batch, the shares handed out leave at least one item.
proof fn lemma_shares_below_total(total: nat, w: Seq<usize>, k: int)
    requires
        0 <= k < w.len(),
        total > 0,
        w.last() > 0,
    ensures
        shares_before(total, w, k) < total,
{
    let n = w.len() as int;
    lemma_weight_sum_prefix(w, n - 1);
    lemma_weight_sum_mono(w, k, n - 1);
    assert(w.subrange(0, n) =~= w);
    let s = weight_sum(w);
    let wk = weight_sum(w.subrange(0, k));
    let p = shares_before(total, w, k);
    lemma_weight_sum_nonneg(w.subrange(0, k));
    lemma_shares_scaled(total, w, k);
    assert(p < total) by (nonlinear_arith)
        requires
            p * s <= total * wk,
            wk + w.last() <= s,
            w.last() > 0,
            total > 0,
            wk >= 0,
    ;
}

/// What `split_weighted` returns on the given inputs.
pub open spec fn split_weighted_outcome(total: nat, weights: Seq<usize>, r: Result<Seq<nat>, SplitError>) -> bool {
    match r {
        Ok(s) => {
            &&& split_weighted_error(total, weights) is None
            &&& s.len() == weights.len()
            &&& forall|i: int| 0 <= i < s.len() - 1 ==> s[i] == weighted_share(total, weights, i)
            &&& s.last() == total - shares_before(total, weights, s.len() - 1)
            &&& sum_of(s) == total
            &&& all_positive(s)
        },
        Err(e) => split_weighted_error(total, weights) == Some(e),
    }
}

/// Splits `total` in proportion to `weights`: batch `i` gets
/// `total * weights[i] / sum(weights)` rounded down, and the last batch gets
/// whatever the others left, so that nothing is lost to rounding.
///
/// A weight whose rounded share would be zero is refused.
pub fn split_weighted(total: usize, weights: Vec<usize>) -> (r: Result<Vec<BatchSize>, SplitError>)
    ensures
        split_weighted_outcome(total as nat, weights@, batches_view(r)),
{
    if total == 0 {
        return Err(SplitError::ZeroTotal);
    }
    let n = weights.len();
    if n == 0 {
        return Err(SplitError::EmptyWeights);
    }
    let mut sum: u128 = 0;
    let mut k: usize = 0;
    while k < n
        invariant
            n == weights@.len(),
            n > 0,
            total > 0,
            k <= n,
            sum == weight_sum(weights@.subrange(0, k as int)),
            sum <= k * (usize::MAX as int),
            forall|i: int| 0 <= i < k ==> weights@[i] > 0,
        decreases n - k,
    {
        if weights[k] == 0 {
            assert(weights@[k as int] == 0);
            return Err(SplitError::ZeroWeight);
        }
        proof {
            lemma_weight_sum_prefix(weights@, k as int);
            assert(sum + weights[k as int] <= (k + 1) * (usize::MAX as int)) by (nonlinear_arith)
                requires
                    sum <= k * (usize::MAX as int),
                    weights[k as int] <= usize::MAX,
            ;
            assert((k + 1) * (usize::MAX as int) <= u128::MAX) by (nonlinear_arith)
                requires
                    k < usize::MAX,
                    usize::MAX <= u64::MAX,
            ;
        }
        sum = sum + weights[k] as u128;
        k = k + 1;
    }
    assert(weights@.subrange(0, n as int) =~= weights@);
    proof {
        lemma_weight_le_sum(weights@, 0);
    }
    let ghost w = weights@;
    let mut v: Vec<BatchSize> = Vec::with_capacity(n);
    let mut remaining: usize = total;
    let mut i: usize = 0;
    while i < n - 1
        invariant
            w == weights@,
            n == w.len(),
            n >= 1,
            total > 0,
            i <= n - 1,
            sum == weight_sum(w),
            sum > 0,
            forall|j: int| 0 <= j < n ==> w[j] > 0,
            remaining == total - shares_before(total as nat, w, i as int),
            v@.len() == i,
            forall|j: int| 0 <= j < i ==> sizes(v@)[j] == weighted_share(total as nat, w, j),
            forall|j: int| 0 <= j < i ==> weighted_share(total as nat, w, j) > 0,
            sum_of(sizes(v@)) == shares_before(total as nat, w, i as int),
            all_positive(sizes(v@)),
        decreases n - 1 - i,
    {
        proof {
            lemma_weight_le_sum(w, i as int);
            lemma_shares_below_total(total as nat, w, i as int + 1);
            assert(total as int * w[i as int] <= total as int * sum) by (nonlinear_arith)
                requires
                    w[i as int] <= sum,
            ;
            assert(total as int * w[i as int] <= u128::MAX) by (nonlinear_arith)
                requires
                    total <= u64::MAX,
                    w[i as int] <= u64::MAX,
            ;
        }
        let share128: u128 = (total as u128) * (weights[i] as u128) / sum;
        proof {
            assert(share128 <= total) by (nonlinear_arith)
                requires
                    share128 == (total as int * w[i as int]) / (sum as int),
                    total as int * w[i as int] <= total as int * sum,
                    sum > 0,
            ;
        }
        let share = share128 as usize;
        assert(share == weighted_share(total as nat, w, i as int));
        if share == 0 {
            assert(0 <= i < w.len() - 1 && weighted_share(total as nat, w, i as int) == 0);
            assert(!(exists|j: int| 0 <= j < w.len() && w[j] == 0));
            return Err(SplitError::ZeroComputedBatchSize);
        }
        let b = BatchSize::positive(share);
        proof {
            crate::batch::lemma_sizes_push(v@, b);
            crate::batch::lemma_sum_push(sizes(v@), b@);
        }
        v.push(b);
        remaining = remaining - share;
        i = i + 1;
    }
    proof {
        lemma_shares_below_total(total as nat, w, n - 1);
    }
    let b = BatchSize::positive(remaining);
    proof {
        crate::batch::lemma_sizes_push(v@, b);
        crate::batch::lemma_sum_push(sizes(v@), b@);
    }
    v.push(b);
    assert(!(exists|j: int| 0 <= j < w.len() && w[j] == 0));
    assert(!(exists|j: int| 0 <= j < w.len() - 1 && weighted_share(total as nat, w, j) == 0));
    assert(split_weighted_error(total as nat, w) is None);
    Ok(v)
}

proof fn lemma_div_at_least_one(x: int, d: int)
    requires
        0 < d <= x,
    ensures
        x / d >= 1,
{
    vstd::arithmetic::div_mod::lemma_fundamental_div_mod(x, d);
    vstd::arithmetic::div_mod::lemma_mod_bound(x, d);
    if x / d <= 0 {
        vstd::arithmetic::div_mod::lemma_div_pos_is_pos(x, d);
        assert(d * (x / d) == 0);
    }
}

/// How the operations bounded by a maximum batch size (`even_split`,
/// `split_with_remainder`) check their inputs, in order.
pub open spec fn max_size_error(total: nat, max_batch_size: nat) -> Option<SplitError> {
    if total == 0 {
        Some(SplitError::ZeroTotal)
    } else if max_batch_size == 0 {
        Some(SplitError::ZeroMaxBatchSize)
    } else {
        None
    }
}

/// `d` is the largest divisor of `total` that is at most `max_batch_size`.
pub open spec fn is_largest_divisor_at_most(total: nat, max_batch_size: nat, d: nat) -> bool {
    &&& 1 <= d <= max_batch_size
    &&& total % d == 0
    &&& forall|k: int| d < k <= max_batch_size ==> #[trigger] (total as int % k) != 0
}

/// What `even_split` returns on the given inputs.
pub open spec fn even_split_outcome(total: nat, max_batch_size: nat, r: Result<(nat, Seq<nat>), SplitError>) -> bool {
    match r {
        Ok((n, s)) => {
            &&& max_size_error(total, max_batch_size) is None
            &&& s.len() == n
            &&& n >= 1
            &&& is_largest_divisor_at_most(total, max_batch_size, s[0])
            &&& forall|i: int| 0 <= i < n ==> #[trigger] s[i] == s[0]
            &&& n * s[0] == total
            &&& total <= max_batch_size ==> n == 1 && s[0] == total
            &&& sum_of(s) == total
            &&& all_positive(s)
        },
        Err(e) => max_size_error(total, max_batch_size) == Some(e),
    }
}

/// Splits `total` into equal batches whose size is the largest divisor of
/// `total` not above `max_batch_size`: one batch of `total` when it fits,
/// and `total` batches of one when no divisor from 2 up fits.
pub fn even_split(total: usize, max_batch_size: usize) -> (r: Result<(usize, Vec<BatchSize>), SplitError>)
    ensures
        even_split_outcome(total as nat, max_batch_size as nat, counted_view(r)),
{
    if total == 0 {
        return Err(SplitError::ZeroTotal);
    }
    if max_batch_size == 0 {
        return Err(SplitError::ZeroMaxBatchSize);
    }
    if total <= max_batch_size {
        assert forall|k: int| total < k <= max_batch_size implies #[trigger] (total as int % k) != 0 by {
            vstd::arithmetic::div_mod::lemma_small_mod(total as nat, k as nat);
        }
        return Ok((1, repeat_size(total, 1)));
    }
    let mut size: usize = max_batch_size;
    while size > 1
        invariant
            1 <= size <= max_batch_size < total,
            forall|k: int| size < k <= max_batch_size ==> #[trigger] (total as int % k) != 0,
        decreases size,
    {
        if total % size == 0 {
            let n = total / size;
            assert(n * size == total && n >= 1) by (nonlinear_arith)
                requires
                    n == total / size,
                    total % size == 0,
                    size >= 1,
                    total >= size,
            ;
            return Ok((n, repeat_size(size, n)));
        }
        size = size - 1;
    }
    Ok((total, repeat_size(1, total)))
}

/// How `split_range` checks its inputs, in order.
pub open spec fn split_range_error(total: nat, min_batch_size: nat, max_batch_size: nat) -> Option<SplitError> {
    if total == 0 {
        Some(SplitError::ZeroTotal)
    } else if min_batch_size == 0 {
        Some(SplitError::ZeroMinBatchSize)
    } else if max_batch_size < min_batch_size {
        Some(SplitError::InvalidRange)
    } else {
        None
    }
}

/// The largest batch size of the range that still gives a whole batch.
pub open spec fn range_top(total: nat, max_batch_size: nat) -> int {
    if total < max_batch_size {
        total as int
    } else {
        max_batch_size as int
    }
}

/// A result that carries split configurations.
pub open spec fn configs_view(r: Result<Vec<(usize, usize, usize)>, SplitError>) -> Result<Seq<(usize, usize, usize)>, SplitError> {
    match r {
        Ok(v) => Ok(v@),
        Err(e) => Err(e),
    }
}

/// What `split_range` returns on the given inputs.
pub open spec fn split_range_outcome(total: nat, min_batch_size: nat, max_batch_size: nat, r: Result<Seq<(usize, usize, usize)>, SplitError>) -> bool {
    match r {
        Ok(s) => {
            &&& split_range_error(total, min_batch_size, max_batch_size) is None
            &&& s.len() == (if min_batch_size > total {
                0
            } else {
                range_top(total, max_batch_size) - min_batch_size + 1
            })
            &&& forall|i: int|
                0 <= i < s.len() ==> {
                    let size = range_top(total, max_batch_size) - i;
                    &&& (#[trigger] s[i]).1 == size
                    &&& s[i].0 == total as int / size
                    &&& s[i].2 == total as int % size
                }
        },
        Err(e) => split_range_error(total, min_batch_size, max_batch_size) == Some(e),
    }
}

/// Lists, from the largest size down, every batch size in
/// `[min_batch_size, max_batch_size]` that gives at least one whole batch,
/// as `(batch count, batch size, remainder)`.
pub fn split_range(total: usize, min_batch_size: usize, max_batch_size: usize) -> (r: Result<Vec<(usize, usize, usize)>, SplitError>)
    ensures
        split_range_outcome(total as nat, min_batch_size as nat, max_batch_size as nat, configs_view(r)),
{
    if total == 0 {
        return Err(SplitError::ZeroTotal);
    }
    if min_batch_size == 0 {
        return Err(SplitError::ZeroMinBatchSize);
    }
    if max_batch_size < min_batch_size {
        return Err(SplitError::InvalidRange);
    }
    let ghost top = range_top(total as nat, max_batch_size as nat);
    let mut v: Vec<(usize, usize, usize)> = Vec::new();
    let mut size: usize = max_batch_size;
    while size >= min_batch_size
        invariant
            1 <= min_batch_size <= max_batch_size,
            total > 0,
            top == range_top(total as nat, max_batch_size as nat),
            min_batch_size - 1 <= size <= max_batch_size,
            v@.len() == (if size < top { top - size } else { 0 }),
            forall|i: int|
                0 <= i < v@.len() ==> {
                    &&& (#[trigger] v@[i]).1 == top - i
                    &&& v@[i].0 == total as int / (top - i)
                    &&& v@[i].2 == total as int % (top - i)
                },
        decreases size,
    {
        let num_batches = total / size;
        let remainder = total % size;
        if num_batches > 0 {
            assert(size <= total) by {
                if size > total {
                    vstd::arithmetic::div_mod::lemma_basic_div(total as int, size as int);
                }
            }
            v.push((num_batches, size, remainder));
        } else {
            assert(size > total) by {
                if size <= total {
                    lemma_div_at_least_one(total as int, size as int);
                }
            }
        }
        size = size - 1;
    }
    Ok(v)
}

/// How `split_with_min_batch` checks its inputs, in order.
pub open spec fn split_with_min_batch_error(total: nat, max_batch_size: nat, min_batch_size: nat) -> Option<SplitError> {
    if total == 0 {
        Some(SplitError::ZeroTotal)
    } else if max_batch_size == 0 {
        Some(SplitError::ZeroMaxBatchSize)
    } else if min_batch_size == 0 {
        Some(SplitError::ZeroMinBatchSize)
    } else if min_batch_size > max_batch_size {
        Some(SplitError::InvalidRange)
    } else {
        None
    }
}

/// `a / b` rounded up.
pub open spec fn ceil_div(a: nat, b: nat) -> nat {
    if a % b == 0 {
        a / b
    } else {
        a / b + 1
    }
}

/// What `split_with_min_batch` returns on the given inputs.
pub open spec fn split_with_min_batch_outcome(total: nat, max_batch_size: nat, min_batch_size: nat, r: Result<(nat, Seq<nat>), SplitError>) -> bool {
    match r {
        Ok((n, s)) => {
            &&& split_with_min_batch_error(total, max_batch_size, min_batch_size) is None
            &&& n == ceil_div(total, min_batch_size)
            &&& s.len() == n
            &&& forall|i: int| 0 <= i < n ==> s[i] == front_loaded_size(total, n, i)
            &&& sum_of(s) == total
            &&& all_positive(s)
        },
        Err(e) => split_with_min_batch_error(total, max_batch_size, min_batch_size) == Some(e),
    }
}

/// Splits `total` into `ceil(total / min_batch_size)` batches, as evenly as
/// possible, the first `total % count` batches taking one item more.
///
/// The resulting sizes are not checked against `max_batch_size`.
pub fn split_with_min_batch(total: usize, max_batch_size: usize, min_batch_size: usize) -> (r: Result<(usize, Vec<BatchSize>), SplitError>)
    ensures
        split_with_min_batch_outcome(total as nat, max_batch_size as nat, min_batch_size as nat, counted_view(r)),
{
    if total == 0 {
        return Err(SplitError::ZeroTotal);
    }
    if max_batch_size == 0 {
        return Err(SplitError::ZeroMaxBatchSize);
    }
    if min_batch_size == 0 {
        return Err(SplitError::ZeroMinBatchSize);
    }
    if min_batch_size > max_batch_size {
        return Err(SplitError::InvalidRange);
    }
    let q = total / min_batch_size;
    assert(total % min_batch_size != 0 ==> q < total) by {
        if total % min_batch_size != 0 {
            assert(min_batch_size > 1);
            vstd::arithmetic::div_mod::lemma_div_decreases(total as int, min_batch_size as int);
        }
    }
    let n = if total % min_batch_size == 0 { q } else { q + 1 };
    assert(1 <= n <= total) by (nonlinear_arith)
        requires
            q == total / min_batch_size,
            total % min_batch_size == 0 ==> n == q,
            total % min_batch_size != 0 ==> n == q + 1,
            min_batch_size >= 1,
            total >= 1,
    ;
    Ok((n, front_loaded(total, n)))
}

/// How `split_by_count` checks its inputs, in order.
pub open spec fn split_by_count_error(total: nat, num_batches: nat) -> Option<SplitError> {
    if total == 0 {
        Some(SplitError::ZeroTotal)
    } else if num_batches == 0 {
        Some(SplitError::ZeroNumBatches)
    } else if num_batches > total {
        Some(SplitError::ZeroComputedBatchSize)
    } else {
        None
    }
}

/// What `split_by_count` returns on the given inputs.
pub open spec fn split_by_count_outcome(total: nat, num_batches: nat, r: Result<Seq<nat>, SplitError>) -> bool {
    match r {
        Ok(s) => {
            &&& split_by_count_error(total, num_batches) is None
            &&& s.len() == num_batches
            &&& forall|i: int| 0 <= i < num_batches ==> s[i] == front_loaded_size(total, num_batches, i)
            &&& sum_of(s) == total
            &&& all_positive(s)
        },
        Err(e) => split_by_count_error(total, num_batches) == Some(e),
    }
}

/// Splits `total` into exactly `num_batches` batches, the first
/// `total % num_batches` of size `total / num_batches + 1` and the rest of
/// size `total / num_batches`.
///
/// More batches than items would give empty batches and is refused.
pub fn split_by_count(total: usize, num_batches: usize) -> (r: Result<Vec<BatchSize>, SplitError>)
    ensures
        split_by_count_outcome(total as nat, num_batches as nat, batches_view(r)),
{
    if total == 0 {
        return Err(SplitError::ZeroTotal);
    }
    if num_batches == 0 {
        return Err(SplitError::ZeroNumBatches);
    }
    if num_batches > total {
        return Err(SplitError::ZeroComputedBatchSize);
    }
    Ok(front_loaded(total, num_batches))
}

/// What `split_with_remainder` returns on the given inputs.
pub open spec fn split_with_remainder_outcome(total: nat, max_batch_size: nat, r: Result<(nat, Seq<nat>, nat), SplitError>) -> bool {
    match r {
        Ok((n, s, rem)) => {
            &&& max_size_error(total, max_batch_size) is None
            &&& s.len() == n
            &&& total < max_batch_size ==> n == 1 && s[0] == total && rem == 0
            &&& total >= max_batch_size ==> {
                &&& n == total / max_batch_size
                &&& rem == total % max_batch_size
                &&& forall|i: int| 0 <= i < n ==> s[i] == max_batch_size
            }
            &&& sum_of(s) + rem == total
            &&& all_positive(s)
        },
        Err(e) => max_size_error(total, max_batch_size) == Some(e),
    }
}

/// Splits `total` into full batches of `max_batch_size` and reports the
/// leftover separately; when `total` is below `max_batch_size` the whole
/// total is one batch and nothing is left over.
pub fn split_with_remainder(total: usize, max_batch_size: usize) -> (r: Result<(usize, Vec<BatchSize>, usize), SplitError>)
    ensures
        split_with_remainder_outcome(total as nat, max_batch_size as nat, remainder_view(r)),
{
    if total == 0 {
        return Err(SplitError::ZeroTotal);
    }
    if max_batch_size == 0 {
        return Err(SplitError::ZeroMaxBatchSize);
    }
    let n = total / max_batch_size;
    let rem = total % max_batch_size;
    if n == 0 {
        assert(total < max_batch_size) by {
            if total >= max_batch_size {
                lemma_div_at_least_one(total as int, max_batch_size as int);
            }
        }
        Ok((1, repeat_size(total, 1), 0))
    } else {
        assert(n * max_batch_size + rem == total) by (nonlinear_arith)
            requires
                n == total / max_batch_size,
                rem == total % max_batch_size,
                max_batch_size >= 1,
        ;
        assert(total >= max_batch_size) by {
            if total < max_batch_size {
                vstd::arithmetic::div_mod::lemma_basic_div(total as int, max_batch_size as int);
            }
        }
        Ok((n, repeat_size(max_batch_size, n), rem))
    }
}

} // verus!
