//! An in-memory graph store: nodes and edges with visual attributes,
//! round-tripped through a flat numeric wire buffer and packed into a
//! render-ready vertex stream.
//!
//! Every value on the wire is a 32-bit IEEE 754 single-precision scalar.
//! The store holds each scalar as its raw bit pattern (`u32`); identifiers
//! and record counts, which travel as scalars, are converted to and from
//! integers by the verified routines in [`scalar`].

pub mod graph;
pub mod model;
pub mod scalar;

pub use graph::Graph;
pub use model::{Edge, Node};
