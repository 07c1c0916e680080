//! Pixels: the buffers, the files they are kept in and how they are compared.

pub mod clip;
pub mod coverage;
pub mod diff;
pub mod fill;
pub mod paint;
pub mod png;
pub mod scene;
pub mod shade;
