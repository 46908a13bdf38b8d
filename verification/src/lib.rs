//! A forest: an ordered tree with any number of roots, whose nodes live in the
//! slots of one reusable arena and are linked by slot index.
//!
//! - [`arena`] holds the slots and reuses freed ones, the most recently freed
//!   first.
//! - [`forest`] describes the shape of a forest, the operations that relate
//!   nodes, and why they keep the links consistent.
//! - [`tree`] and [`relate`] are the tree itself and its operations.
//! - [`iter`], [`cursor`] and [`nested`] read a tree: in preorder, step by
//!   step, and as nested lists.
//! - [`preorder`] shows that the traversal of a forest without cycles visits
//!   every node once, parents first.

pub mod arena;
pub mod cursor;
pub mod error;
pub mod forest;
pub mod id;
pub mod index;
pub mod iter;
pub mod nested;
pub mod node;
pub mod preorder;
pub mod relate;
pub mod tree;

pub use tree::Tree;
