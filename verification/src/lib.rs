//! An ordered key-value map backed by a left-leaning red-black (LLRB) tree.
//!
//! The tree supports insertion with overwrite-on-duplicate-key semantics and
//! point lookup, and keeps logarithmic height regardless of insertion order.
//! Every operation is verified: the tree is modeled as a mathematical map
//! keyed by the key type's view, and the red-black balance discipline (no
//! right-leaning red link, no two red links in a row, uniform black height,
//! black root) is maintained by every insert.

pub mod order;
pub mod tree;
