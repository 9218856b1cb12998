//! Why a sampler gave up.
use vstd::prelude::*;

verus! {

/// The reasons for which sampling fails. No tree is produced in any of
/// these cases.
#[derive(Clone, Copy, Debug, PartialEq, Eq, Structural)]
pub enum SampleError {
    /// The graph has no node.
    NoNodes,
    /// The graph has more nodes than the sampler can index.
    TooManyNodes,
    /// The graph is not connected, so it has no spanning tree.
    Disconnected,
    /// A node has more neighbors than the random byte reservoir can choose
    /// among.
    DegreeLimit,
    /// The random walk took more steps than the sampler allows.
    StepLimit,
}

} // verus!
