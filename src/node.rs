//! A node of the topology: the interfaces it owns, keyed by their index.
use vstd::prelude::*;

use crate::ids::{IfaceIndex, InterfaceType, NodeId};
use crate::interface::Interface;

verus! {

/// A node and its interfaces. The interfaces are kept in a vector whose
/// indices are pairwise distinct (see `wf`); the vector's order is the order
/// in which the node's interfaces are walked.
#[derive(Debug)]
pub struct TopologyNode {
    pub id: NodeId,
    pub ifaces: Vec<Interface>,
}

impl View for TopologyNode {
    type V = Map<IfaceIndex, Interface>;

    /// The node's interfaces by index.
    open spec fn view(&self) -> Map<IfaceIndex, Interface> {
        Map::new(|k: IfaceIndex| self.has_iface(k), |k: IfaceIndex| self.ifaces@[self.iface_pos(k)])
    }
}

impl TopologyNode {
    /// No two interfaces of the node share an index.
    pub open spec fn wf(&self) -> bool {
        forall|i: int, j: int|
            0 <= i < j < self.ifaces@.len() ==> #[trigger] self.ifaces@[i].id
                != #[trigger] self.ifaces@[j].id
    }

    pub open spec fn has_iface(&self, k: IfaceIndex) -> bool {
        exists|i: int| 0 <= i < self.ifaces@.len() && #[trigger] self.ifaces@[i].id == k
    }

    /// Where the interface with index `k` stands in the vector.
    pub open spec fn iface_pos(&self, k: IfaceIndex) -> int {
        choose|i: int| 0 <= i < self.ifaces@.len() && #[trigger] self.ifaces@[i].id == k
    }

    /// Whether the node owns an interface of type `t`.
    pub open spec fn has_iface_of_type(&self, t: InterfaceType) -> bool {
        exists|k: IfaceIndex| #[trigger] self@.contains_key(k) && self@[k].if_type == t
    }

    /// In a well-formed node the interface at position `i` is the one that the
    /// view gives for its index.
    pub proof fn lemma_iface_at(&self, i: int)
        requires
            self.wf(),
            0 <= i < self.ifaces@.len(),
        ensures
            self@.contains_key(self.ifaces@[i].id),
            self.iface_pos(self.ifaces@[i].id) == i,
            self@[self.ifaces@[i].id] == self.ifaces@[i],
    {
        let k = self.ifaces@[i].id;
        assert(self.has_iface(k));
        let p = self.iface_pos(k);
        if p != i {
            if p < i {
                assert(self.ifaces@[p].id != self.ifaces@[i].id);
            } else {
                assert(self.ifaces@[i].id != self.ifaces@[p].id);
            }
        }
    }

    pub fn new(id: NodeId) -> (r: Self)
        ensures
            r.id == id,
            r.wf(),
            r@ == Map::<IfaceIndex, Interface>::empty(),
    {
        let r = Self { id, ifaces: Vec::new() };
        assert(r@ =~= Map::<IfaceIndex, Interface>::empty());
        r
    }

    /// Adds an interface, replacing any interface of the node with the same index.
    pub fn add_iface(&mut self, iface: Interface)
        requires
            old(self).wf(),
        ensures
            final(self).wf(),
            final(self).id == old(self).id,
            final(self)@ == old(self)@.insert(iface.id, iface),
    {
        let ghost before = *self;
        let ghost k = iface.id;
        let mut i: usize = 0;
        while i < self.ifaces.len()
            invariant
                *self == before,
                before == *old(self),
                k == iface.id,
                before.wf(),
                0 <= i <= self.ifaces@.len(),
                forall|j: int| 0 <= j < i ==> #[trigger] self.ifaces@[j].id != k,
            decreases self.ifaces@.len() - i,
        {
            if self.ifaces[i].id == iface.id {
                proof {
                    before.lemma_iface_at(i as int);
                }
                self.ifaces.set(i, iface);
                proof {
                    assert forall|j: int| 0 <= j < self.ifaces@.len() && j != i implies
                        #[trigger] self.ifaces@[j].id != k by {
                        assert(self.ifaces@[j] == before.ifaces@[j]);
                        if j < i {
                        } else {
                            assert(before.ifaces@[i as int].id != before.ifaces@[j].id);
                        }
                    }
                    assert forall|x: IfaceIndex|
                        #![auto]
                        self@.contains_key(x) == before@.insert(k, iface).contains_key(x) by {
                        if before.has_iface(x) && x != k {
                            let p = before.iface_pos(x);
                            assert(self.ifaces@[p] == before.ifaces@[p]);
                        }
                        if self.has_iface(x) && x != k {
                            let p = self.iface_pos(x);
                            assert(self.ifaces@[p] == before.ifaces@[p]);
                        }
                        if x == k {
                            assert(self.ifaces@[i as int].id == x);
                        }
                    }
                    assert forall|x: IfaceIndex| #[trigger]
                        self@.contains_key(x) implies self@[x] == before@.insert(k, iface)[x] by {
                        let p = self.iface_pos(x);
                        self.lemma_iface_at(p);
                        if x != k {
                            before.lemma_iface_at(p);
                        }
                    }
                    assert(self@ =~= before@.insert(k, iface));
                }
                return ;
            }
            i += 1;
        }
        let ghost n = self.ifaces@.len();
        self.ifaces.push(iface);
        proof {
            assert forall|x: IfaceIndex|
                #![auto]
                self@.contains_key(x) == before@.insert(k, iface).contains_key(x) by {
                if before.has_iface(x) {
                    let p = before.iface_pos(x);
                    assert(self.ifaces@[p].id == x);
                }
                if self.has_iface(x) && x != k {
                    let p = self.iface_pos(x);
                    assert(before.ifaces@[p].id == x);
                }
                if x == k {
                    assert(self.ifaces@[n as int].id == x);
                }
            }
            assert forall|x: IfaceIndex| #[trigger]
                self@.contains_key(x) implies self@[x] == before@.insert(k, iface)[x] by {
                let p = self.iface_pos(x);
                self.lemma_iface_at(p);
                if x != k {
                    before.lemma_iface_at(p);
                }
            }
            assert(self@ =~= before@.insert(k, iface));
        }
    }
    /// The interface with index `k`, which the node must own.
    pub fn get_iface(&self, k: IfaceIndex) -> (r: &Interface)
        requires
            self.wf(),
            self@.contains_key(k),
        ensures
            *r == self@[k],
    {
        let ghost p = self.iface_pos(k);
        proof {
            self.lemma_iface_at(p);
        }
        let n = self.ifaces.len();
        let mut i: usize = 0;
        while self.ifaces[i].id.0 != k.0
            invariant
                n == self.ifaces@.len(),
                self.wf(),
                0 <= p < self.ifaces@.len(),
                self.ifaces@[p].id == k,
                self.iface_pos(k) == p,
                0 <= i <= p,
            decreases self.ifaces@.len() - i,
        {
            i += 1;
        }
        proof {
            self.lemma_iface_at(i as int);
        }
        &self.ifaces[i]
    }

    /// The index of an interface of type `t`, or `None` where the node owns
    /// none. Which one is returned where several have that type is not
    /// specified.
    pub fn find_iface_of_type(&self, t: InterfaceType) -> (r: Option<IfaceIndex>)
        requires
            self.wf(),
        ensures
            r.is_none() == !self.has_iface_of_type(t),
            r.is_some() ==> self@.contains_key(r.unwrap()) && self@[r.unwrap()].if_type == t,
    {
        let mut i: usize = 0;
        while i < self.ifaces.len()
            invariant
                self.wf(),
                0 <= i <= self.ifaces@.len(),
                forall|j: int| 0 <= j < i ==> #[trigger] self.ifaces@[j].if_type != t,
            decreases self.ifaces@.len() - i,
        {
            if self.ifaces[i].if_type == t {
                proof {
                    self.lemma_iface_at(i as int);
                }
                return Some(self.ifaces[i].id);
            }
            i += 1;
        }
        proof {
            assert forall|k: IfaceIndex| #[trigger] self@.contains_key(k) implies self@[k].if_type
                != t by {
                let p = self.iface_pos(k);
                self.lemma_iface_at(p);
            }
        }
        None
    }
}

} // verus!
