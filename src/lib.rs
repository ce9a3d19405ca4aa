//! Comparator-driven sorting algorithms (insertion, heap, bottom-up merge and
//! stack-driven quick sort) over sequences of any element type, and the
//! maximum-subarray problem solved by divide and conquer and by dynamic
//! programming.

pub mod order;
pub mod insertion;
pub mod heap;
pub mod merge;
pub mod quick;
pub mod max_subarray;
pub mod laws;
pub mod compare_sort;
pub mod divide_and_conquer;
pub mod dynamic_programming;
