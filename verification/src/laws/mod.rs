//! What the operations of the library are for, each said of their results directly: digits by their
//! place values, flags bit by bit, files by path and content, points by their distance.

pub mod axis;
pub mod basin;
pub mod degrees;
pub mod flags;
pub mod mat;
pub mod numbers;
pub mod relief;
pub mod settings;
pub mod store;
pub mod text;
