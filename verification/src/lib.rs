//! Merge sort over any element type with a total preorder, in a sequential
//! and a parallel variant. Both return a freshly allocated, sorted
//! permutation of the input; the merge step is stable (ties favor the left
//! input), and both variants return exactly the same sequence.

pub mod merge;
pub mod order;
pub mod sort;
