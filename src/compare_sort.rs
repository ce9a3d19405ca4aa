//! The comparison sorts, each in three forms: `<name>` sorts integers
//! ascending, `<name>_desc` descending, and `<name>_by` sorts elements of
//! any type in the order of a given `Comparator`.

pub use crate::order::{ByKey, Comparator, SortOrder};
pub use crate::insertion::{insert_sort, insert_sort_by, insert_sort_desc};
pub use crate::heap::{heap_sort, heap_sort_by, heap_sort_desc};
pub use crate::merge::{merge_sort, merge_sort_by, merge_sort_desc};
pub use crate::quick::{fast_sort, fast_sort_by, fast_sort_desc};
