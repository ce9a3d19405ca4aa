//! Dynamic programming: build a solution from the solutions of overlapping
//! subproblems, each computed once.

pub use crate::max_subarray::max_subarray_with_dp as max_subarray;
