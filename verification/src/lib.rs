//! Tiling layout engine for a terminal dashboard: a recursive pane/split
//! tree, the mutations that keep it structurally valid, the geometry solver
//! that turns the tree into screen rectangles, the pointer/keyboard
//! interaction protocol, and the tree's persistence format.

pub mod layout;
pub mod geometry;
pub mod interact;
pub mod codec;
pub mod catalog;
pub mod records;
