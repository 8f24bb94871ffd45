//! The diff engine: fingerprinting, tree-diff computation and
//! mutation-to-operation translation.

pub mod hash;
pub mod ops_generator;
pub mod tree_diff;
