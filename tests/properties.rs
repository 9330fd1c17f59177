use batch_maestro::{
    even_split, optimize_split, split_by_count, split_range, split_weighted,
    split_with_min_batch, split_with_remainder, BatchSize, SplitError,
};

fn total_of(v: &[BatchSize]) -> usize {
    v.iter().map(|b| b.get()).sum()
}

fn sizes_of(v: &[BatchSize]) -> Vec<usize> {
    v.iter().map(|b| b.get()).collect()
}

#[test]
fn conservation_holds_for_every_operation() {
    for total in 1..60usize {
        for p in 1..12usize {
            assert_eq!(total_of(&even_split(total, p).unwrap().1), total);
            let (_, v, rem) = split_with_remainder(total, p).unwrap();
            assert_eq!(total_of(&v) + rem, total);
            if p <= total {
                assert_eq!(total_of(&split_by_count(total, p).unwrap()), total);
                assert_eq!(total_of(&optimize_split(total, p, p + 3).unwrap().1), total);
            }
            assert_eq!(total_of(&split_with_min_batch(total, p + 2, p).unwrap().1), total);
            for (count, size, rem) in split_range(total, p, p + 5).unwrap() {
                assert_eq!(count * size + rem, total);
            }
        }
    }
    assert_eq!(total_of(&split_weighted(1000, vec![3, 1, 4, 1, 5, 9]).unwrap()), 1000);
}

#[test]
fn every_batch_size_is_positive() {
    for total in 1..40usize {
        for p in 1..10usize {
            assert!(even_split(total, p).unwrap().1.iter().all(|b| b.get() >= 1));
            assert!(split_with_min_batch(total, p, p).unwrap().1.iter().all(|b| b.get() >= 1));
        }
    }
    assert!(BatchSize::new(0).is_none());
    assert_eq!(BatchSize::new(9).unwrap().get(), 9);
}

#[test]
fn even_split_fits_in_one_batch() {
    for max in 1..30usize {
        for total in 1..=max {
            assert_eq!(even_split(total, max), Ok((1, vec![BatchSize::new(total).unwrap()])));
        }
    }
}

#[test]
fn even_split_divisor_scenarios() {
    assert_eq!(even_split(50, 8), Ok((10, vec![BatchSize::new(5).unwrap(); 10])));
    assert_eq!(even_split(128, 8), Ok((16, vec![BatchSize::new(8).unwrap(); 16])));
    assert_eq!(even_split(17, 8), Ok((17, vec![BatchSize::new(1).unwrap(); 17])));
}

#[test]
fn weighted_last_batch_takes_the_rounding() {
    let v = split_weighted(100, vec![1, 2, 3]).unwrap();
    assert_eq!(sizes_of(&v), vec![16, 33, 51]);
    // The last weight, not the largest, absorbs the remainder.
    let v = split_weighted(100, vec![3, 2, 1]).unwrap();
    assert_eq!(sizes_of(&v), vec![50, 33, 17]);
}

#[test]
fn weighted_split_with_the_largest_values() {
    let v = split_weighted(usize::MAX, vec![usize::MAX, usize::MAX]).unwrap();
    assert_eq!(sizes_of(&v), vec![usize::MAX / 2, usize::MAX - usize::MAX / 2]);
}

#[test]
fn range_enumeration_descends_by_size() {
    let v = split_range(100, 20, 40).unwrap();
    assert!(v.contains(&(3, 33, 1)));
    assert!(v.contains(&(4, 25, 0)));
    assert!(v.contains(&(5, 20, 0)));
    for w in v.windows(2) {
        assert!(w[0].1 > w[1].1);
    }
    // Sizes above the total give no whole batch and are left out.
    assert_eq!(split_range(5, 3, 8), Ok(vec![(1, 5, 0), (1, 4, 1), (1, 3, 2)]));
    assert_eq!(split_range(2, 3, 8), Ok(vec![]));
}

#[test]
fn optimize_split_prefers_exact_division() {
    assert_eq!(optimize_split(100, 3, 5), Ok((4, vec![BatchSize::new(25).unwrap(); 4])));
    assert_eq!(optimize_split(100, 3, usize::MAX), Ok((4, vec![BatchSize::new(25).unwrap(); 4])));
    // 11 % 3 = 2, 11 % 4 = 3, 11 % 5 = 1: five batches, the first one larger.
    assert_eq!(sizes_of(&optimize_split(11, 3, 5).unwrap().1), vec![3, 2, 2, 2, 2]);
    // 13 % 4 = 1 and 13 % 6 = 1: the tie goes to the smaller count.
    assert_eq!(optimize_split(13, 4, 6).unwrap().0, 4);
}

#[test]
fn front_loaded_distribution() {
    assert_eq!(sizes_of(&split_with_min_batch(10, 5, 3).unwrap().1), vec![3, 3, 2, 2]);
    assert_eq!(sizes_of(&split_by_count(11, 4).unwrap()), vec![3, 3, 3, 2]);
    assert_eq!(split_with_remainder(8, 8), Ok((1, vec![BatchSize::new(8).unwrap()], 0)));
}

#[test]
fn repeated_calls_agree() {
    assert_eq!(even_split(46, 8), even_split(46, 8));
    assert_eq!(split_weighted(77, vec![2, 5, 1]), split_weighted(77, vec![2, 5, 1]));
    assert_eq!(split_range(50, 3, 9), split_range(50, 3, 9));
    assert_eq!(optimize_split(97, 5, 12), optimize_split(97, 5, 12));
    assert_eq!(split_with_min_batch(97, 12, 5), split_with_min_batch(97, 12, 5));
    assert_eq!(split_by_count(97, 5), split_by_count(97, 5));
    assert_eq!(split_with_remainder(97, 5), split_with_remainder(97, 5));
}

#[test]
fn each_error_is_reported() {
    assert_eq!(even_split(0, 8), Err(SplitError::ZeroTotal));
    assert_eq!(even_split(8, 0), Err(SplitError::ZeroMaxBatchSize));
    assert_eq!(split_with_remainder(0, 0), Err(SplitError::ZeroTotal));
    assert_eq!(split_with_remainder(8, 0), Err(SplitError::ZeroMaxBatchSize));
    assert_eq!(split_weighted(0, vec![]), Err(SplitError::ZeroTotal));
    assert_eq!(split_weighted(10, vec![]), Err(SplitError::EmptyWeights));
    assert_eq!(split_weighted(10, vec![1, 0]), Err(SplitError::ZeroWeight));
    assert_eq!(split_weighted(1, vec![1, 1]), Err(SplitError::ZeroComputedBatchSize));
    assert_eq!(split_range(10, 0, 5), Err(SplitError::ZeroMinBatchSize));
    assert_eq!(split_range(10, 6, 5), Err(SplitError::InvalidRange));
    assert_eq!(optimize_split(10, 0, 5), Err(SplitError::ZeroNumBatches));
    assert_eq!(optimize_split(10, 6, 5), Err(SplitError::InvalidRange));
    assert_eq!(optimize_split(3, 5, 6), Err(SplitError::ZeroComputedBatchSize));
    assert_eq!(split_with_min_batch(10, 0, 0), Err(SplitError::ZeroMaxBatchSize));
    assert_eq!(split_with_min_batch(10, 5, 0), Err(SplitError::ZeroMinBatchSize));
    assert_eq!(split_with_min_batch(10, 5, 6), Err(SplitError::InvalidRange));
    assert_eq!(split_by_count(10, 0), Err(SplitError::ZeroNumBatches));
    assert_eq!(split_by_count(3, 5), Err(SplitError::ZeroComputedBatchSize));
    assert_eq!(SplitError::ZeroTotal.message(), "total must be a positive number");
}
