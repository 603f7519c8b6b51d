//! Duplicate-file grouping: progressive refinement of candidate groups by
//! file signatures, followed by a byte-exact confirmation stage.
pub mod file_hash;
pub mod file_diff;
pub mod merger;
pub mod grouper;
pub mod bitwise;
pub mod order;
