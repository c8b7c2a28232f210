//! Sorting of 64-bit integers by two engines, a hybrid quicksort and a hybrid
//! merge sort, both of which finish small ranges by insertion sort, and the
//! text form in which a list of integers is kept in a file.

pub mod file;
pub mod insertion;
pub mod merge;
pub mod order;
pub mod quick;
pub mod stable;
pub mod text;
