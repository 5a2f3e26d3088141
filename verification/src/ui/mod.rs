//! Retained widget state shared by the tree, the window and custom widgets.
pub mod focus;
pub mod hooks;
pub mod keys;
pub mod order;
pub mod stacking;
pub mod tree;
pub mod state;
pub mod updates;
pub mod widget;
