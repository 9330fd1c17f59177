//! The batch-size type, the error type and the arithmetic model shared by
//! every splitting operation.
use vstd::prelude::*;

verus! {

/// The number of items in one batch: an integer that is never zero.
#[derive(Clone, Copy, Debug, PartialEq, Eq, Structural)]
pub struct BatchSize {
    value: usize,
}

impl View for BatchSize {
    type V = nat;

    closed spec fn view(&self) -> nat {
        self.value as nat
    }
}

impl BatchSize {
    #[verifier::type_invariant]
    spec fn is_positive(self) -> bool {
        self.value > 0
    }

    /// Wraps `n` when it is positive.
    pub fn new(n: usize) -> (r: Option<BatchSize>)
        ensures
            r is Some <==> n > 0,
            r matches Some(b) ==> b@ == n,
    {
        if n > 0 {
            Some(BatchSize { value: n })
        } else {
            None
        }
    }

    /// Wraps `n`, which the caller knows to be positive.
    pub(crate) fn positive(n: usize) -> (r: BatchSize)
        requires
            n > 0,
        ensures
            r@ == n,
    {
        BatchSize { value: n }
    }

    /// The size as a plain integer.
    pub fn get(&self) -> (r: usize)
        ensures
            r == self@,
            r > 0,
    {
        proof {
            use_type_invariant(self);
        }
        self.value
    }
}

/// Why a split was refused. Every variant is a caller-correctable input error.
#[derive(Clone, Copy, Debug, PartialEq, Eq, Structural)]
pub enum SplitError {
    ZeroTotal,
    ZeroMaxBatchSize,
    ZeroMinBatchSize,
    ZeroNumBatches,
    ZeroWeight,
    EmptyWeights,
    InvalidRange,
    ZeroComputedBatchSize,
}

impl SplitError {
    /// A human-readable description of the error.
    pub fn message(&self) -> &'static str {
        match self {
            SplitError::ZeroTotal => "total must be a positive number",
            SplitError::ZeroMaxBatchSize => "max batch size must be a positive number",
            SplitError::ZeroMinBatchSize => "min batch size must be a positive number",
            SplitError::ZeroNumBatches => "number of batches must be a positive number",
            SplitError::ZeroWeight => "all weights must be positive numbers",
            SplitError::EmptyWeights => "weights must not be empty",
            SplitError::InvalidRange => "maximum must be greater than or equal to minimum",
            SplitError::ZeroComputedBatchSize => "a computed batch size would be zero",
        }
    }
}

/// The sizes of a sequence of batches, as numbers.
pub open spec fn sizes(v: Seq<BatchSize>) -> Seq<nat> {
    v.map_values(|b: BatchSize| b@)
}

/// A result that carries a batch count and the batches, with the sizes as numbers.
pub open spec fn counted_view(r: Result<(usize, Vec<BatchSize>), SplitError>) -> Result<(nat, Seq<nat>), SplitError> {
    match r {
        Ok((n, v)) => Ok((n as nat, sizes(v@))),
        Err(e) => Err(e),
    }
}

/// A result that carries the batches, with the sizes as numbers.
pub open spec fn batches_view(r: Result<Vec<BatchSize>, SplitError>) -> Result<Seq<nat>, SplitError> {
    match r {
        Ok(v) => Ok(sizes(v@)),
        Err(e) => Err(e),
    }
}

/// A result that carries a batch count, the batches and a leftover count,
/// with the sizes as numbers.
pub open spec fn remainder_view(r: Result<(usize, Vec<BatchSize>, usize), SplitError>) -> Result<(nat, Seq<nat>, nat), SplitError> {
    match r {
        Ok((n, v, rem)) => Ok((n as nat, sizes(v@), rem as nat)),
        Err(e) => Err(e),
    }
}

/// The sum of a sequence of numbers.
pub open spec fn sum_of(s: Seq<nat>) -> int
    decreases s.len(),
{
    if s.len() == 0 {
        0
    } else {
        sum_of(s.drop_last()) + s.last()
    }
}

/// Every number of the sequence is at least one.
pub open spec fn all_positive(s: Seq<nat>) -> bool {
    forall|i: int| 0 <= i < s.len() ==> s[i] >= 1
}

/// The size of batch `i` when `total` items go into `count` batches as evenly
/// as possible, the first `total % count` batches taking one item more.
pub open spec fn front_loaded_size(total: nat, count: nat, i: int) -> nat {
    if i < total % count {
        total / count + 1
    } else {
        total / count
    }
}

/// Appending a number adds it to the sum.
pub proof fn lemma_sum_push(s: Seq<nat>, x: nat)
    ensures
        sum_of(s.push(x)) == sum_of(s) + x,
{
    assert(s.push(x).drop_last() =~= s);
}

/// Appending a batch appends its size.
pub proof fn lemma_sizes_push(v: Seq<BatchSize>, b: BatchSize)
    ensures
        sizes(v.push(b)) == sizes(v).push(b@),
{
    assert(sizes(v.push(b)) =~= sizes(v).push(b@));
}

/// `count` batches of `size` items each.
pub(crate) fn repeat_size(size: usize, count: usize) -> (r: Vec<BatchSize>)
    requires
        size > 0,
    ensures
        r@.len() == count,
        forall|i: int| 0 <= i < count ==> sizes(r@)[i] == size,
        sum_of(sizes(r@)) == size * count,
        all_positive(sizes(r@)),
{
    let mut r: Vec<BatchSize> = Vec::with_capacity(count);
    let b = BatchSize::positive(size);
    let mut k: usize = 0;
    while k < count
        invariant
            k <= count,
            size > 0,
            b@ == size,
            r@.len() == k,
            forall|i: int| 0 <= i < k ==> sizes(r@)[i] == size,
            sum_of(sizes(r@)) == size * k,
        decreases count - k,
    {
        proof {
            lemma_sizes_push(r@, b);
            lemma_sum_push(sizes(r@), b@);
            assert(size * (k + 1) == size * k + size) by (nonlinear_arith);
        }
        r.push(b);
        k = k + 1;
    }
    r
}

/// `total` items in `count` batches as evenly as possible, the extra items
/// going to the front.
pub(crate) fn front_loaded(total: usize, count: usize) -> (r: Vec<BatchSize>)
    requires
        1 <= count <= total,
    ensures
        r@.len() == count,
        forall|i: int| 0 <= i < count ==> sizes(r@)[i] == front_loaded_size(total as nat, count as nat, i),
        sum_of(sizes(r@)) == total,
        all_positive(sizes(r@)),
{
    let base = total / count;
    let extra = total % count;
    assert(base >= 1) by (nonlinear_arith)
        requires
            1 <= count <= total,
            base == total / count,
    ;
    let mut r: Vec<BatchSize> = Vec::with_capacity(count);
    let mut k: usize = 0;
    while k < count
        invariant
            k <= count,
            1 <= count <= total,
            base == total / count,
            extra == total % count,
            base >= 1,
            r@.len() == k,
            forall|i: int| 0 <= i < k ==> sizes(r@)[i] == front_loaded_size(total as nat, count as nat, i),
            sum_of(sizes(r@)) == base * k + (if k < extra { k as int } else { extra as int }),
            all_positive(sizes(r@)),
        decreases count - k,
    {
        assert(base * count + extra == total) by (nonlinear_arith)
            requires
                base == total / count,
                extra == total % count,
                count >= 1,
        ;
        if k < extra {
            assert(base + 1 <= total) by (nonlinear_arith)
                requires
                    base * count + extra == total,
                    count >= 1,
                    extra > 0,
            ;
        }
        let size = if k < extra { base + 1 } else { base };
        let b = BatchSize::positive(size);
        proof {
            lemma_sizes_push(r@, b);
            lemma_sum_push(sizes(r@), b@);
            assert(base * (k + 1) == base * k + base) by (nonlinear_arith);
        }
        r.push(b);
        k = k + 1;
    }
    proof {
        assert(base * count + extra == total) by (nonlinear_arith)
            requires
                base == total / count,
                extra == total % count,
                count >= 1,
        ;
    }
    r
}

} // verus!
