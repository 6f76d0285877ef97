//! An encoder/decoder to/from dense files.
//!
//! A dense file is a binary file of sequential training examples and nothing
//! else: each example is a fixed number of data values followed by one label
//! value, with no headers, delimiters, or metadata.

pub mod bytes;
pub mod codec;
pub mod error;
pub mod grid;
pub mod laws;

pub use codec::decode;
pub use codec::encode;
pub use error::DenseError;
pub use grid::Grid;
