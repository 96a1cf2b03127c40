//! Identifiers of nodes and interfaces, and the kinds of interface.
use vstd::prelude::*;

verus! {

/// Identifier of a node, unique within a topology.
#[derive(Debug, Clone, Copy, PartialEq, Eq, Hash, Structural)]
pub struct NodeId(pub u32);

/// Identifier of an interface, unique only within the node that owns it.
#[derive(Debug, Clone, Copy, PartialEq, Eq, Hash, Structural)]
pub struct IfaceIndex(pub u8);

impl Default for IfaceIndex {
    fn default() -> (r: Self)
        ensures
            r == IfaceIndex(0),
    {
        IfaceIndex(0)
    }
}

/// What an interface attaches to.
#[derive(Debug, Clone, Copy, PartialEq, Eq, Structural)]
pub enum InterfaceType {
    /// The node's own endpoint; never has neighbors.
    LocalApp,
    /// A link to other nodes of the topology; carries the search.
    LocalNet,
    /// An outward boundary; never has neighbors.
    Internet,
}

} // verus!
