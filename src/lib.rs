//! Pure arithmetic for dividing a positive total into positive batch sizes
//! under various policies: largest uniform divisor, proportional weights,
//! size ranges, batch-count ranges, minimum sizes, fixed counts and
//! full batches with a separate leftover.

pub mod batch;
pub mod split;
pub mod laws;

pub use batch::{BatchSize, SplitError};
pub use split::{
    even_split,
    optimize_split,
    split_by_count,
    split_range,
    split_weighted,
    split_with_min_batch,
    split_with_remainder,
};

