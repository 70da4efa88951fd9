//! An authenticated, fixed-depth, complete binary Merkle tree over a
//! caller-supplied storage backend: index arithmetic, proof construction,
//! leaf updates and proof verification, each with a machine-checked
//! contract; and the byte conversions that field elements need on their way
//! in and out.

pub mod host;
pub mod utils;
