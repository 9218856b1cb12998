//! What every sampler of spanning trees offers.
use rand::rngs::SmallRng;
use vstd::prelude::*;

use crate::buffers::{adjacency, SpanningTreeBuffer};
use crate::error::SampleError;
use crate::graph::Graph;

verus! {

/// A sampler of random spanning trees.
pub trait SpanningTreeSampler {
    /// The invariant of the sampler's own buffers.
    spec fn wf(&self) -> bool;

    /// Samples a random spanning tree of `graph` using `rng`, and writes it
    /// into `buf`, replacing what `buf` held. When sampling fails, `buf` is
    /// left without edges. A graph of one node has the empty tree, and
    /// sampling it succeeds; a graph that is not connected has no spanning
    /// tree, and sampling it fails.
    fn random_spanning_tree(
        &mut self,
        graph: &Graph,
        buf: &mut SpanningTreeBuffer,
        rng: &mut SmallRng,
    ) -> (r: Result<(), SampleError>)
        requires
            old(self).wf(),
            graph.wf(),
            old(buf)@.len() == graph.node_count(),
        ensures
            final(self).wf(),
            final(buf)@.len() == graph.node_count(),
            r is Ok ==> final(buf).is_spanning_tree_of(graph),
            !graph.is_connected() ==> r is Err,
            r is Err ==> final(buf)@ == adjacency(graph.node_count(), Seq::empty()),
            r == Err::<(), SampleError>(SampleError::NoNodes) <==> graph.node_count() == 0,
            r == Err::<(), SampleError>(SampleError::TooManyNodes) <==> graph.node_count()
                > u32::MAX,
            r == Err::<(), SampleError>(SampleError::Disconnected) ==> !graph.is_connected(),
            graph.node_count() == 1 ==> r is Ok,
    ;
}

} // verus!
