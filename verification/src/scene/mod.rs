//! The scene graph and what finds things in it.

pub mod arena;
pub mod quadtree;
pub mod tile;
pub mod view;
