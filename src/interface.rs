//! An interface: a typed attachment point of a node with its neighbor links.
use vstd::prelude::*;

use crate::ids::{IfaceIndex, InterfaceType, NodeId};

verus! {

/// An interface of a node. Each neighbor link names the node on the other
/// side and the interface of that node that the link arrives at.
#[derive(Debug)]
pub struct Interface {
    pub id: IfaceIndex,
    pub if_type: InterfaceType,
    pub neighbors: Vec<(NodeId, IfaceIndex)>,
}

impl Interface {
    /// Whether this interface has a link to interface `nb_if` of node `nb`.
    pub open spec fn links_to(&self, nb: NodeId, nb_if: IfaceIndex) -> bool {
        self.neighbors@.contains((nb, nb_if))
    }

    pub fn new(id: IfaceIndex, if_type: InterfaceType, neighbors: Vec<(NodeId, IfaceIndex)>) -> (r:
        Self)
        ensures
            r.id == id,
            r.if_type == if_type,
            r.neighbors@ == neighbors@,
    {
        Self { id, if_type, neighbors }
    }
}

} // verus!
