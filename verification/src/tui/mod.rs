//! The file browser, apart from the terminal: the tree that it shows, its cursor,
//! the plan and the progress of an extraction, and the texts on the screen.

pub mod browser;
pub mod order;
pub mod plan;
pub mod progress;
pub mod sort;
pub mod subtree;
pub mod tree;
pub mod tree_laws;
