//! Resolution of delta-compressed pack entries in dependency order, and a
//! bounded look-ahead iterator that buffers a source in chunks.

pub mod eager;
pub mod traverse;
pub mod tree;
