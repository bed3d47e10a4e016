//! Converts gridded weather fields into vector tiles.
//!
//! Messages are read section by section ([`grib`]), the cells of each product are cut into tiles at
//! a base zoom ([`prepare`]), products are chosen and brought in line ([`select`], [`archive`]), and
//! each tile of the pyramid ([`pyramid`]) gathers the cells that it shows and renders them as
//! polygons ([`tile`]). The tiles with anything to show are written ([`output`]).
pub mod archive;
pub mod error;
pub mod geo;
pub mod grib;
pub mod header;
pub mod hilbert;
pub mod metadata;
pub mod model;
pub mod number;
pub mod omit;
pub mod options;
pub mod output;
pub mod prepare;
pub mod products;
pub mod pyramid;
pub mod quantize;
pub mod select;
pub mod text;
pub mod tile;
pub mod time;
pub mod vectors;

pub use options::ConvertOptions;
