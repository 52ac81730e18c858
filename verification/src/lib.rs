//! Structural metadata of gridded scientific datasets and its renderings.

pub mod text;
pub mod decimal;
pub mod floatfmt;
pub mod order;
pub mod model;
pub mod group;
pub mod cdl;
pub mod html;
pub mod icechunk;
pub mod zarr;
pub mod dispatch;
pub mod grib;
pub mod cli;
pub mod json;
pub mod nctype;
pub mod flat;
pub mod store;
pub mod tree;
pub mod remote;
pub mod repr;
