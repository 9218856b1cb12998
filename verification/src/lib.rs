//! Random spanning trees of undirected graphs.
//!
//! Two samplers are provided: [`USTSampler`] draws from the uniform
//! distribution over spanning trees by loop-erased random walks, and
//! [`RMSTSampler`] returns the minimum spanning tree under random edge
//! weights. Both write the tree into a caller-owned [`SpanningTreeBuffer`],
//! and both are proved to produce a spanning tree whenever they succeed.
pub mod buffers;
pub mod components;
pub mod connectivity;
pub mod error;
pub mod graph;
pub mod minimality;
pub mod random;
pub mod rmst;
pub mod sampler;
pub mod tree_laws;
pub mod union_find;
pub mod ust;

pub use crate::buffers::{RandomRangeBuffer, SpanningTreeBuffer};
pub use crate::error::SampleError;
pub use crate::graph::{Edge, Graph};
pub use crate::rmst::RMSTSampler;
pub use crate::sampler::SpanningTreeSampler;
pub use crate::ust::{USTBuffer, USTSampler};
