//! Drag-and-drop reindexing for flat and nested item lists.
//!
//! A host user-interface layer walks a tree of lists once per frame, giving
//! every visited slot (item or list footer) a single increasing integer
//! position. When the host reports a completed drag as a pair of such
//! positions, this crate resolves them back to structured locations (which
//! list, which index) and applies the move to the tree.

pub mod item;
pub mod laws;
pub mod multiple_lists;
pub mod mutate;
pub mod nested_lists;
pub mod separate_nested_lists;
pub mod two_lists;
pub mod two_scroll_areas;
pub mod resolve;
pub mod tree;
pub mod util;

pub use item::Item;
