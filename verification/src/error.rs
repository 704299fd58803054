//! The ways in which a computation on a graph can fail.

use vstd::prelude::*;

verus! {

/// Why no result could be given.
#[derive(Debug, Clone, Copy, PartialEq, Eq, Structural)]
pub enum MstError {
    /// An index names a node, or an element of a disjoint set, that does not
    /// exist.
    InvalidIndex,
    /// The graph is not connected, so no spanning tree exists.
    DisconnectedGraph,
}

impl MstError {
    /// A sentence for the host to show.
    pub fn message(&self) -> (text: &'static str)
        ensures
            *self == MstError::InvalidIndex ==> text@ == "index out of range"@,
            *self == MstError::DisconnectedGraph ==> text@
                == "graph not connected, no spanning tree exists"@,
    {
        match self {
            MstError::InvalidIndex => "index out of range",
            MstError::DisconnectedGraph => "graph not connected, no spanning tree exists",
        }
    }
}

} // verus!
