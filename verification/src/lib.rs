//! The document and rendering core of a vector graphics editor.

pub mod geom;
pub mod path;
pub mod raster;
pub mod scene;
pub mod svg;
pub mod text;
