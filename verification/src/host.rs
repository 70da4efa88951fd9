//! Host-side data structures.

pub mod error;
pub mod index;
pub mod laws;
pub mod merkle;
pub mod model;
