//! Reading and writing SVG.

pub mod document;
pub mod export;
pub mod figure;
pub mod graph;
pub mod import;
pub mod layout;
pub mod markup;
pub mod number;
pub mod page;
pub mod path_data;
pub mod round_trip;
pub mod scene;
pub mod style;
pub mod tag;
pub mod transform;
pub mod xml;
