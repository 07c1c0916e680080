//! Paths: their structure, boolean operations on them and their strokes.

pub mod arrange;
pub mod boolean;
pub mod border;
pub mod corner;
pub mod cutting;
pub mod dash;
pub mod halfedge;
pub mod offset;
pub mod outline;
pub mod overlay;
pub mod pieces;
pub mod ray;
pub mod stroke;
pub mod winding;
