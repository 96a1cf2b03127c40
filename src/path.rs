//! Routes: ordered hops, each tagged with the interfaces it entered and left by.
use vstd::prelude::*;

use crate::ids::{IfaceIndex, NodeId};

verus! {

/// One hop of a route: the node, the interface the route left it by
/// (`forward_if_id`) and the interface it entered it by (`reverse_if_id`).
#[derive(Debug, Clone, Copy, PartialEq, Eq, Structural)]
pub struct PathNode {
    pub id: NodeId,
    pub forward_if_id: IfaceIndex,
    pub reverse_if_id: IfaceIndex,
}

impl PathNode {
    /// A hop at node `id` whose two interface tags are index 0.
    pub fn new(id: NodeId) -> (r: Self)
        ensures
            r.id == id,
            r.forward_if_id == IfaceIndex(0),
            r.reverse_if_id == IfaceIndex(0),
    {
        PathNode { id, forward_if_id: IfaceIndex::default(), reverse_if_id: IfaceIndex::default() }
    }
}

/// A route from its first hop to its last.
#[derive(Debug)]
pub struct Path {
    pub nodes: Vec<PathNode>,
}

/// Whether some hop of `hops` is at node `id`.
pub open spec fn visits(hops: Seq<PathNode>, id: NodeId) -> bool {
    exists|i: int| 0 <= i < hops.len() && #[trigger] hops[i].id == id
}

/// No node occurs twice among `hops`.
pub open spec fn is_simple(hops: Seq<PathNode>) -> bool {
    forall|i: int, j: int|
        0 <= i < j < hops.len() ==> #[trigger] hops[i].id != #[trigger] hops[j].id
}

/// A node is visited after a push exactly when it was visited before or is
/// the pushed hop's node.
pub proof fn lemma_visits_push(hops: Seq<PathNode>, x: PathNode, id: NodeId)
    ensures
        visits(hops.push(x), id) == (visits(hops, id) || x.id == id),
{
    if visits(hops, id) {
        let i = choose|i: int| 0 <= i < hops.len() && #[trigger] hops[i].id == id;
        assert(hops.push(x)[i].id == id);
    }
    if x.id == id {
        assert(hops.push(x)[hops.len() as int].id == id);
    }
    if visits(hops.push(x), id) {
        let i = choose|i: int| 0 <= i < hops.len() + 1 && #[trigger] hops.push(x)[i].id == id;
        if i < hops.len() {
            assert(hops[i].id == id);
        }
    }
}

impl Path {
    /// An empty route.
    pub fn new() -> (r: Self)
        ensures
            r.nodes@ == Seq::<PathNode>::empty(),
    {
        Path { nodes: Vec::new() }
    }

    /// A copy of the route's hops.
    pub fn snapshot(&self) -> (r: Self)
        ensures
            r.nodes@ == self.nodes@,
    {
        let mut v: Vec<PathNode> = Vec::new();
        let mut i: usize = 0;
        while i < self.nodes.len()
            invariant
                0 <= i <= self.nodes@.len(),
                v@ == self.nodes@.subrange(0, i as int),
            decreases self.nodes@.len() - i,
        {
            v.push(self.nodes[i]);
            i += 1;
            assert(v@ =~= self.nodes@.subrange(0, i as int));
        }
        assert(v@ =~= self.nodes@);
        Path { nodes: v }
    }
}

} // verus!
