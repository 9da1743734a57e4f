//! Zero-sum triples of a bounded-range integer sequence, found by counting
//! sort and a two-pointer scan, with a brute-force enumeration to check it.

pub mod model;
pub mod finder;
pub mod oracle;
pub mod laws;

pub use finder::{three_sum, try_three_sum, ThreeSumError};
pub use model::{MAX_NUMBER, MIN_NUMBER};
pub use oracle::naive_three_sum;
