use batch_maestro::{
    even_split, optimize_split, split_by_count, split_range, split_weighted,
    split_with_min_batch, split_with_remainder, BatchSize,
};

#[test]
fn test_even_split_basic() {
    assert_eq!(even_split(50, 8), Ok((10, vec![BatchSize::new(5).unwrap(); 10])));
    assert_eq!(even_split(128, 8), Ok((16, vec![BatchSize::new(8).unwrap(); 16])));
    // 2 is the largest divisor of 46 that is at most 8.
    assert_eq!(even_split(46, 8), Ok((23, vec![BatchSize::new(2).unwrap(); 23])));
    assert_eq!(even_split(7, 8), Ok((1, vec![BatchSize::new(7).unwrap()])));
}

#[test]
fn test_even_split_edge_cases() {
    assert_eq!(even_split(1, 1), Ok((1, vec![BatchSize::new(1).unwrap()])));
    assert_eq!(even_split(100, 100), Ok((1, vec![BatchSize::new(100).unwrap()])));
}

#[test]
fn test_even_split_errors() {
    assert!(even_split(0, 8).is_err());
    assert!(even_split(10, 0).is_err());
}

#[test]
fn test_even_split_large_numbers() {
    assert_eq!(even_split(1000000, 1000), Ok((1000, vec![BatchSize::new(1000).unwrap(); 1000])));
}

#[test]
fn test_even_split_prime_numbers() {
    // A prime above the maximum has no divisor in [2, max]: batches of one.
    assert_eq!(even_split(17, 8), Ok((17, vec![BatchSize::new(1).unwrap(); 17])));
    assert_eq!(even_split(23, 8), Ok((23, vec![BatchSize::new(1).unwrap(); 23])));
}

#[test]
fn test_split_by_count() {
    assert_eq!(split_by_count(10, 3), Ok(vec![BatchSize::new(4).unwrap(), BatchSize::new(3).unwrap(), BatchSize::new(3).unwrap()]));
    assert_eq!(split_by_count(20, 4), Ok(vec![BatchSize::new(5).unwrap(); 4]));
    assert_eq!(split_by_count(7, 3), Ok(vec![BatchSize::new(3).unwrap(), BatchSize::new(2).unwrap(), BatchSize::new(2).unwrap()]));
}

#[test]
fn test_split_by_count_errors() {
    assert!(split_by_count(0, 5).is_err());
    assert!(split_by_count(10, 0).is_err());
}

#[test]
fn test_split_with_remainder() {
    assert_eq!(split_with_remainder(50, 8), Ok((6, vec![BatchSize::new(8).unwrap(); 6], 2)));
    assert_eq!(split_with_remainder(100, 30), Ok((3, vec![BatchSize::new(30).unwrap(); 3], 10)));
    assert_eq!(split_with_remainder(10, 20), Ok((1, vec![BatchSize::new(10).unwrap()], 0)));
}

#[test]
fn test_split_with_remainder_errors() {
    assert!(split_with_remainder(0, 5).is_err());
    assert!(split_with_remainder(10, 0).is_err());
}

#[test]
fn test_split_weighted() {
    // Shares are rounded down; the last batch takes what the others left.
    assert_eq!(split_weighted(100, vec![1, 2, 3]), Ok(vec![BatchSize::new(16).unwrap(), BatchSize::new(33).unwrap(), BatchSize::new(51).unwrap()]));
    assert_eq!(split_weighted(10, vec![1, 1]), Ok(vec![BatchSize::new(5).unwrap(), BatchSize::new(5).unwrap()]));
}

#[test]
fn test_split_weighted_errors() {
    assert!(split_weighted(0, vec![1, 2, 3]).is_err());
    assert!(split_weighted(100, vec![]).is_err());
    assert!(split_weighted(100, vec![0, 1, 2]).is_err());
}

#[test]
fn test_split_range() {
    // Every size of the range is listed, from the largest down.
    let configurations = split_range(100, 20, 40).unwrap();
    assert_eq!(configurations.len(), 21);
    assert_eq!(configurations[0], (2, 40, 20));
    assert_eq!(configurations[7], (3, 33, 1));
    assert_eq!(configurations[15], (4, 25, 0));
    assert_eq!(configurations[20], (5, 20, 0));
    assert_eq!(split_range(10, 2, 5), Ok(vec![(2, 5, 0), (2, 4, 2), (3, 3, 1), (5, 2, 0)]));
}

#[test]
fn test_split_range_errors() {
    assert!(split_range(0, 20, 40).is_err());
    assert!(split_range(100, 0, 40).is_err());
    assert!(split_range(100, 40, 20).is_err());
}

#[test]
fn test_optimize_split() {
    assert_eq!(optimize_split(100, 3, 5), Ok((4, vec![BatchSize::new(25).unwrap(); 4])));
    assert_eq!(optimize_split(10, 2, 4), Ok((2, vec![BatchSize::new(5).unwrap(); 2])));
}

#[test]
fn test_optimize_split_errors() {
    assert!(optimize_split(0, 3, 5).is_err());
    assert!(optimize_split(100, 0, 5).is_err());
    assert!(optimize_split(100, 5, 3).is_err());
}

#[test]
fn test_split_with_min_batch() {
    // ceil(100 / 20) = 5 batches and ceil(50 / 10) = 5 batches.
    assert_eq!(split_with_min_batch(100, 30, 20), Ok((5, vec![BatchSize::new(20).unwrap(); 5])));
    assert_eq!(split_with_min_batch(50, 20, 10), Ok((5, vec![BatchSize::new(10).unwrap(); 5])));
}

#[test]
fn test_split_with_min_batch_errors() {
    assert!(split_with_min_batch(0, 30, 20).is_err());
    assert!(split_with_min_batch(100, 0, 20).is_err());
    assert!(split_with_min_batch(100, 30, 40).is_err());
    assert!(split_with_min_batch(100, 30, 31).is_err());
}
