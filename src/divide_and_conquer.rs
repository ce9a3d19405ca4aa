//! Divide and conquer: split a problem into smaller instances of itself,
//! solve those, and combine their solutions.

pub use crate::max_subarray::max_subarray_with_divide_and_conquer as max_subarray;
