//! A persistent segment tree: every point update yields a new version that
//! shares all untouched subtrees with the version it was made from, and every
//! version can still be asked for the sum over any index range.
pub mod sums;
pub mod segment_tree;
pub mod persistent;
