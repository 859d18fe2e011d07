//! Verified core of an ocean-heat-content ingest.

pub mod basinmask;
pub mod bytes;
pub mod cli;
pub mod codec;
pub mod config;
pub mod consts;
pub mod double;
pub mod grid;
pub mod ingest;
pub mod json;
pub mod laws;
pub mod masks;
pub mod matread;
pub mod ncread;
pub mod ncstore;
pub mod provenance;
pub mod rounding;
pub mod text;
pub mod zarrwrite;

pub use crate::grid::GridDef;
