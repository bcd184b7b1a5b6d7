//! # jtree: tree-shaped ordered collections
//!
//! - `Jbst`: an unbalanced binary search tree of unique values (an ordered set).
//! - `Jblst`: an unbalanced binary search tree that keeps repeated values (an ordered list).
//! - `Javlt`: a self-balancing AVL tree of unique values (an ordered set with
//!   logarithmic height).
//! - `BinTree`: a plain binary search tree of unique `u32` values.
//!
//! Values are ordered through the `TreeValue` trait; the contracts state the
//! resulting tree shapes over the spec functions of `shape`.
pub mod bintree;
pub mod errors;
pub mod javlt;
pub mod jblst;
pub mod jbst;
pub mod order;
pub mod ordered_set;
pub mod shape;

pub use bintree::BinTree;
pub use javlt::Javlt;
pub use jblst::Jblst;
pub use jbst::Jbst;
