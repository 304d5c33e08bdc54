//! An adaptive divide-and-conquer sorting engine, verified: quicksort and
//! merge-sort variants over index-addressed regions of one owned buffer,
//! with a quadratic fallback below a size threshold and a policy that marks
//! which half of each split would earn its own worker. Every sort's
//! contract pins its output — a sorted permutation of its input — so the
//! threshold policy, the sibling order of the recursion, and the optional
//! call-trace recorder can never change what comes out. Around the core sit
//! the recorder's flat arena of parent-linked work records, the divider
//! recurrences that count units of work and workers under a policy, and a
//! set of disjoint index ranges for checking that regions handed to workers
//! never overlap.

pub mod order;
pub mod bubble_sort;
pub mod rng;
pub mod search;
pub mod insertion_sort;
pub mod merge_sort;
pub mod counter;
pub mod quicksort_safe;
pub mod quicksort_ptr;
pub mod quicksort_crossbeam;
pub mod merge_sort_loop;
pub mod between_threads;
pub mod range;
pub mod test_data;
