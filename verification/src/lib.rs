//! Shape, stride, dtype and indexing logic of a NumPy-style array-ops layer.

pub mod array;
pub mod creation;
pub mod broadcast;
pub mod comparison;
pub mod dtype;
pub mod elementwise;
pub mod error;
pub mod fft;
pub mod host_reduce;
pub mod indexing;
pub mod kernels;
pub mod layout;
pub mod linalg;
pub mod op_builder;
pub mod random;
pub mod reduction;
pub mod sparse;

