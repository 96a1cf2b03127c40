//! The topology: every node, keyed by its id, and the queries on it.
use vstd::prelude::*;

use crate::ids::{IfaceIndex, InterfaceType, NodeId};
use crate::interface::Interface;
use crate::node::TopologyNode;
use crate::path::{visits, Path};

verus! {

/// The nodes of a network. The nodes are kept in a vector whose ids are
/// pairwise distinct (see `wf`); the vector's order is the order in which
/// the nodes are walked.
pub struct Topology {
    pub nodes: Vec<TopologyNode>,
}

impl View for Topology {
    type V = Map<NodeId, TopologyNode>;

    /// The nodes by id.
    open spec fn view(&self) -> Map<NodeId, TopologyNode> {
        Map::new(|id: NodeId| self.has_node(id), |id: NodeId| self.nodes@[self.node_pos(id)])
    }
}

/// Whether `nb` has an entry `(to, _)`, and `x` is the interface of its first one.
pub open spec fn is_first_link_to(nb: Seq<(NodeId, IfaceIndex)>, to: NodeId, x: IfaceIndex) -> bool {
    exists|q: int|
        0 <= q < nb.len() && #[trigger] nb[q] == (to, x) && forall|p: int|
            0 <= p < q ==> #[trigger] nb[p].0 != to
}

impl Topology {
    /// No two nodes share an id, and every node is well formed.
    pub open spec fn wf(&self) -> bool {
        &&& forall|i: int, j: int|
            0 <= i < j < self.nodes@.len() ==> #[trigger] self.nodes@[i].id
                != #[trigger] self.nodes@[j].id
        &&& forall|i: int| 0 <= i < self.nodes@.len() ==> #[trigger] self.nodes@[i].wf()
    }

    pub open spec fn has_node(&self, id: NodeId) -> bool {
        exists|i: int| 0 <= i < self.nodes@.len() && #[trigger] self.nodes@[i].id == id
    }

    /// Where the node with id `id` stands in the vector.
    pub open spec fn node_pos(&self, id: NodeId) -> int {
        choose|i: int| 0 <= i < self.nodes@.len() && #[trigger] self.nodes@[i].id == id
    }

    /// Interface `via` of node `a` has a link to interface `b_if` of node `b`.
    pub open spec fn linked(&self, a: NodeId, via: IfaceIndex, b: NodeId, b_if: IfaceIndex) -> bool {
        &&& self@.contains_key(a)
        &&& self@[a]@.contains_key(via)
        &&& self@[a]@[via].links_to(b, b_if)
    }

    /// Every neighbor link leads to a node of the topology.
    pub open spec fn links_closed(&self) -> bool {
        forall|a: NodeId, via: IfaceIndex, b: NodeId, b_if: IfaceIndex|
            #[trigger] self.linked(a, via, b, b_if) ==> self@.contains_key(b)
    }

    /// Node `id` owns an interface of type `Internet`.
    pub open spec fn is_gateway(&self, id: NodeId) -> bool {
        self@.contains_key(id) && self@[id].has_iface_of_type(InterfaceType::Internet)
    }

    /// In a well-formed topology the node at position `i` is the one that the
    /// view gives for its id.
    pub proof fn lemma_node_at(&self, i: int)
        requires
            self.wf(),
            0 <= i < self.nodes@.len(),
        ensures
            self@.contains_key(self.nodes@[i].id),
            self.node_pos(self.nodes@[i].id) == i,
            self@[self.nodes@[i].id] == self.nodes@[i],
    {
        let k = self.nodes@[i].id;
        assert(self.has_node(k));
        let p = self.node_pos(k);
        if p != i {
            if p < i {
                assert(self.nodes@[p].id != self.nodes@[i].id);
            } else {
                assert(self.nodes@[i].id != self.nodes@[p].id);
            }
        }
    }

    pub fn new() -> (r: Self)
        ensures
            r.wf(),
            r@ == Map::<NodeId, TopologyNode>::empty(),
    {
        let r = Self { nodes: Vec::new() };
        assert(r@ =~= Map::<NodeId, TopologyNode>::empty());
        r
    }
    /// Position of the node with id `id`, which must exist.
    fn find_pos(&self, id: NodeId) -> (r: usize)
        requires
            self.wf(),
            self@.contains_key(id),
        ensures
            r == self.node_pos(id),
            r < self.nodes@.len(),
    {
        let ghost p = self.node_pos(id);
        proof {
            self.lemma_node_at(p);
        }
        let n = self.nodes.len();
        let mut i: usize = 0;
        while self.nodes[i].id.0 != id.0
            invariant
                n == self.nodes@.len(),
                self.wf(),
                0 <= p < self.nodes@.len(),
                self.nodes@[p].id == id,
                self.node_pos(id) == p,
                0 <= i <= p,
            decreases self.nodes@.len() - i,
        {
            i += 1;
        }
        proof {
            self.lemma_node_at(i as int);
        }
        i
    }

    /// Adds a node, replacing any node with the same id.
    pub fn add_node(&mut self, node: TopologyNode)
        requires
            old(self).wf(),
            node.wf(),
        ensures
            final(self).wf(),
            final(self)@ == old(self)@.insert(node.id, node),
    {
        let ghost before = *self;
        let ghost k = node.id;
        let mut i: usize = 0;
        while i < self.nodes.len()
            invariant
                *self == before,
                before == *old(self),
                k == node.id,
                node.wf(),
                before.wf(),
                0 <= i <= self.nodes@.len(),
                forall|j: int| 0 <= j < i ==> #[trigger] self.nodes@[j].id != k,
            decreases self.nodes@.len() - i,
        {
            if self.nodes[i].id == node.id {
                proof {
                    before.lemma_node_at(i as int);
                }
                self.nodes.set(i, node);
                proof {
                    assert forall|j: int| 0 <= j < self.nodes@.len() && j != i implies
                        #[trigger] self.nodes@[j].id != k by {
                        assert(self.nodes@[j] == before.nodes@[j]);
                        if j > i {
                            assert(before.nodes@[i as int].id != before.nodes@[j].id);
                        }
                    }
                    assert forall|j: int| 0 <= j < self.nodes@.len() implies
                        #[trigger] self.nodes@[j].wf() by {
                        if j != i {
                            assert(self.nodes@[j] == before.nodes@[j]);
                        }
                    }
                    assert forall|x: NodeId|
                        #![auto]
                        self@.contains_key(x) == before@.insert(k, node).contains_key(x) by {
                        if before.has_node(x) && x != k {
                            let p = before.node_pos(x);
                            assert(self.nodes@[p] == before.nodes@[p]);
                        }
                        if self.has_node(x) && x != k {
                            let p = self.node_pos(x);
                            assert(self.nodes@[p] == before.nodes@[p]);
                        }
                        if x == k {
                            assert(self.nodes@[i as int].id == x);
                        }
                    }
                    assert forall|x: NodeId| #[trigger]
                        self@.contains_key(x) implies self@[x] == before@.insert(k, node)[x] by {
                        let p = self.node_pos(x);
                        self.lemma_node_at(p);
                        if x != k {
                            before.lemma_node_at(p);
                        }
                    }
                    assert(self@ =~= before@.insert(k, node));
                }
                return ;
            }
            i += 1;
        }
        let ghost n = self.nodes@.len();
        self.nodes.push(node);
        proof {
            assert forall|j: int| 0 <= j < self.nodes@.len() implies
                #[trigger] self.nodes@[j].wf() by {
                if j < n {
                    assert(self.nodes@[j] == before.nodes@[j]);
                }
            }
            assert forall|x: NodeId|
                #![auto]
                self@.contains_key(x) == before@.insert(k, node).contains_key(x) by {
                if before.has_node(x) {
                    let p = before.node_pos(x);
                    assert(self.nodes@[p].id == x);
                }
                if self.has_node(x) && x != k {
                    let p = self.node_pos(x);
                    assert(before.nodes@[p].id == x);
                }
                if x == k {
                    assert(self.nodes@[n as int].id == x);
                }
            }
            assert forall|x: NodeId| #[trigger]
                self@.contains_key(x) implies self@[x] == before@.insert(k, node)[x] by {
                let p = self.node_pos(x);
                self.lemma_node_at(p);
                if x != k {
                    before.lemma_node_at(p);
                }
            }
            assert(self@ =~= before@.insert(k, node));
        }
    }

    /// The node with id `id`, which must exist.
    pub fn get_node(&self, id: NodeId) -> (r: &TopologyNode)
        requires
            self.wf(),
            self@.contains_key(id),
        ensures
            *r == self@[id],
            r.wf(),
    {
        let i = self.find_pos(id);
        &self.nodes[i]
    }

    /// The node with id `id`, which must exist, for changing in place. The
    /// topology stays well formed where the changed node keeps its id and
    /// stays well formed itself.
    pub fn get_node_mut(&mut self, node_id: NodeId) -> (r: &mut TopologyNode)
        requires
            old(self).wf(),
            old(self)@.contains_key(node_id),
        ensures
            *r == old(self)@[node_id],
            final(self).nodes@ == old(self).nodes@.update(
                old(self).node_pos(node_id),
                *final(r),
            ),
    {
        let i = self.find_pos(node_id);
        &mut self.nodes[i]
    }
    /// The ids of the nodes that own an `Internet` interface, each once.
    pub fn find_internet_gateway(&self) -> (r: Vec<NodeId>)
        requires
            self.wf(),
        ensures
            r@.no_duplicates(),
            forall|id: NodeId| r@.contains(id) <==> self.is_gateway(id),
    {
        let mut res: Vec<NodeId> = Vec::new();
        let mut i: usize = 0;
        while i < self.nodes.len()
            invariant
                self.wf(),
                0 <= i <= self.nodes@.len(),
                res@.no_duplicates(),
                forall|x: NodeId|
                    res@.contains(x) <==> exists|p: int|
                        0 <= p < i && #[trigger] self.nodes@[p].id == x
                            && self.nodes@[p].has_iface_of_type(InterfaceType::Internet),
            decreases self.nodes@.len() - i,
        {
            let node = &self.nodes[i];
            let found = node.find_iface_of_type(InterfaceType::Internet);
            let ghost before = res@;
            if found.is_some() {
                proof {
                    if before.contains(node.id) {
                        let p = choose|p: int|
                            0 <= p < i && #[trigger] self.nodes@[p].id == node.id
                                && self.nodes@[p].has_iface_of_type(InterfaceType::Internet);
                        assert(self.nodes@[p].id != self.nodes@[i as int].id);
                    }
                }
                res.push(node.id);
            }
            proof {
                assert forall|x: NodeId|
                    res@.contains(x) <==> exists|p: int|
                        0 <= p < i + 1 && #[trigger] self.nodes@[p].id == x
                            && self.nodes@[p].has_iface_of_type(InterfaceType::Internet) by {
                    if res@.contains(x) && !before.contains(x) {
                        assert(res@.last() == x);
                        assert(self.nodes@[i as int].id == x);
                    }
                    if before.contains(x) {
                        assert(before[before.index_of(x)] == x);
                        assert(res@[before.index_of(x)] == x);
                    }
                    if found.is_some() {
                        assert(res@[before.len() as int] == node.id);
                    }
                }
            }
            i += 1;
        }
        proof {
            assert forall|id: NodeId| res@.contains(id) <==> self.is_gateway(id) by {
                if self.is_gateway(id) {
                    let p = self.node_pos(id);
                    self.lemma_node_at(p);
                }
                if res@.contains(id) {
                    let p = choose|p: int|
                        0 <= p < i && #[trigger] self.nodes@[p].id == id
                            && self.nodes@[p].has_iface_of_type(InterfaceType::Internet);
                    self.lemma_node_at(p);
                }
            }
        }
        res
    }

    /// The interface of node `to` that interface `via_if` of node
    /// `from_node` has its first link to, or `None` where it has none.
    /// Other interfaces of `from_node` are not looked at.
    pub fn get_adjacent_interface(&self, from_node: NodeId, via_if: IfaceIndex, to_node: NodeId) -> (r:
        Option<IfaceIndex>)
        requires
            self.wf(),
            self@.contains_key(from_node),
            self@[from_node]@.contains_key(via_if),
        ensures
            r.is_none() == forall|q: int|
                0 <= q < self@[from_node]@[via_if].neighbors@.len()
                    ==> #[trigger] self@[from_node]@[via_if].neighbors@[q].0 != to_node,
            r.is_some() ==> is_first_link_to(
                self@[from_node]@[via_if].neighbors@,
                to_node,
                r.unwrap(),
            ),
    {
        let node = self.get_node(from_node);
        let iface = node.get_iface(via_if);
        let mut i: usize = 0;
        while i < iface.neighbors.len()
            invariant
                *iface == self@[from_node]@[via_if],
                0 <= i <= iface.neighbors@.len(),
                forall|p: int| 0 <= p < i ==> #[trigger] iface.neighbors@[p].0 != to_node,
            decreases iface.neighbors@.len() - i,
        {
            let (neigh_id, adj_iface) = iface.neighbors[i];
            if neigh_id == to_node {
                assert(iface.neighbors@[i as int] == (to_node, adj_iface));
                return Some(adj_iface);
            }
            i += 1;
        }
        None
    }

    /// An interface of type `if_type` on node `id`, which must exist, or
    /// `None` where the node has none. Which one is returned where several
    /// have that type is not specified.
    pub fn get_local_iface_id_type(&self, id: NodeId, if_type: InterfaceType) -> (r: Option<
        IfaceIndex,
    >)
        requires
            self.wf(),
            self@.contains_key(id),
        ensures
            r.is_none() == !self@[id].has_iface_of_type(if_type),
            r.is_some() ==> self@[id]@.contains_key(r.unwrap()) && self@[id]@[r.unwrap()].if_type
                == if_type,
    {
        let node = self.get_node(id);
        node.find_iface_of_type(if_type)
    }

    /// A `LocalApp` interface of node `id`, which must exist.
    pub fn get_local_app_iface_id(&self, id: NodeId) -> (r: Option<IfaceIndex>)
        requires
            self.wf(),
            self@.contains_key(id),
        ensures
            r.is_none() == !self@[id].has_iface_of_type(InterfaceType::LocalApp),
            r.is_some() ==> self@[id]@.contains_key(r.unwrap()) && self@[id]@[r.unwrap()].if_type
                == InterfaceType::LocalApp,
    {
        self.get_local_iface_id_type(id, InterfaceType::LocalApp)
    }

    /// An `Internet` interface of node `id`, which must exist.
    pub fn get_internet_iface_id(&self, id: NodeId) -> (r: Option<IfaceIndex>)
        requires
            self.wf(),
            self@.contains_key(id),
        ensures
            r.is_none() == !self@[id].has_iface_of_type(InterfaceType::Internet),
            r.is_some() ==> self@[id]@.contains_key(r.unwrap()) && self@[id]@[r.unwrap()].if_type
                == InterfaceType::Internet,
    {
        self.get_local_iface_id_type(id, InterfaceType::Internet)
    }

    /// Whether `path` already passes through node `id`.
    pub fn check_if_visitted(&self, id: NodeId, path: &Path) -> (r: bool)
        ensures
            r == visits(path.nodes@, id),
    {
        let mut i: usize = 0;
        while i < path.nodes.len()
            invariant
                0 <= i <= path.nodes@.len(),
                forall|p: int| 0 <= p < i ==> #[trigger] path.nodes@[p].id != id,
            decreases path.nodes@.len() - i,
        {
            if path.nodes[i].id == id {
                assert(path.nodes@[i as int].id == id);
                return true;
            }
            i += 1;
        }
        false
    }
}

} // verus!
