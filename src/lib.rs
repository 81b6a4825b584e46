//! Coordinate-addressed JSON records kept in the compressed text entries of a PNG
//! image: the store, its container encoding, and a small filter language over it.

pub mod codec;
pub mod container;
pub mod error;
pub mod filter;
pub mod store;
pub mod text;
pub mod value;
