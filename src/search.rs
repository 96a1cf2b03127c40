//! Depth-first enumeration of the simple routes between two endpoints.
//!
//! The search walks every interface of a node and every neighbor link of
//! each interface, and backtracks past nodes that the route in progress
//! already holds. It reports every simple route, not only some of them.
use vstd::prelude::*;

use crate::ids::{IfaceIndex, NodeId};
use crate::node::TopologyNode;
use crate::path::{is_simple, lemma_visits_push, visits, Path, PathNode};
use crate::topology::Topology;

verus! {

/// How many of `nodes` have an id that `hops` does not visit.
pub open spec fn unvisited(nodes: Seq<TopologyNode>, hops: Seq<PathNode>) -> nat
    decreases nodes.len(),
{
    if nodes.len() == 0 {
        0
    } else {
        unvisited(nodes.drop_last(), hops) + if visits(hops, nodes.last().id) {
            0nat
        } else {
            1nat
        }
    }
}

/// The routes that `out` holds at positions `lo` and after.
pub open spec fn path_set(out: Seq<Path>, lo: int) -> Set<Seq<PathNode>> {
    Set::new(|p: Seq<PathNode>| exists|k: int| lo <= k < out.len() && #[trigger] out[k].nodes@ == p)
}

proof fn lemma_unvisited_push(nodes: Seq<TopologyNode>, hops: Seq<PathNode>, x: PathNode)
    ensures
        unvisited(nodes, hops.push(x)) <= unvisited(nodes, hops),
        !visits(hops, x.id) && (exists|i: int| 0 <= i < nodes.len() && #[trigger] nodes[i].id == x.id)
            ==> unvisited(nodes, hops.push(x)) < unvisited(nodes, hops),
    decreases nodes.len(),
{
    if nodes.len() > 0 {
        lemma_unvisited_push(nodes.drop_last(), hops, x);
        lemma_visits_push(hops, x, nodes.last().id);
        if !visits(hops, x.id) && (exists|i: int|
            0 <= i < nodes.len() && #[trigger] nodes[i].id == x.id) {
            let i = choose|i: int| 0 <= i < nodes.len() && #[trigger] nodes[i].id == x.id;
            if i < nodes.len() - 1 {
                assert(nodes.drop_last()[i].id == x.id);
            }
        }
    }
}

impl Topology {
    /// Hop `k` of `t` leaves its node by an interface that links to the node
    /// and interface that hop `k + 1` enters by.
    pub open spec fn hop_ok(&self, t: Seq<PathNode>, k: int) -> bool {
        self.linked(t[k].id, t[k].forward_if_id, t[k + 1].id, t[k + 1].reverse_if_id)
    }

    /// Every hop of `t` but the last links to the next.
    pub open spec fn is_route(&self, t: Seq<PathNode>) -> bool {
        forall|k: int| 0 <= k < t.len() - 1 ==> #[trigger] self.hop_ok(t, k)
    }

    /// `t` is a simple route that enters node `start` by `start_if`, leaves
    /// node `finish` by `finish_if`, and after its first hop visits no node
    /// of `prefix`.
    pub open spec fn is_continuation(
        &self,
        t: Seq<PathNode>,
        prefix: Seq<PathNode>,
        start: NodeId,
        start_if: IfaceIndex,
        finish: NodeId,
        finish_if: IfaceIndex,
    ) -> bool {
        &&& t.len() >= 1
        &&& t[0].id == start
        &&& t[0].reverse_if_id == start_if
        &&& t.last().id == finish
        &&& t.last().forward_if_id == finish_if
        &&& forall|k: int| 1 <= k < t.len() ==> !visits(prefix, #[trigger] t[k].id)
        &&& is_simple(t)
        &&& self.is_route(t)
    }

    /// `p` is `prefix` followed by a continuation from `start` to `finish`.
    pub open spec fn is_found_path(
        &self,
        p: Seq<PathNode>,
        prefix: Seq<PathNode>,
        start: NodeId,
        start_if: IfaceIndex,
        finish: NodeId,
        finish_if: IfaceIndex,
    ) -> bool {
        &&& p.len() > prefix.len()
        &&& p.subrange(0, prefix.len() as int) == prefix
        &&& self.is_continuation(
            p.subrange(prefix.len() as int, p.len() as int),
            prefix,
            start,
            start_if,
            finish,
            finish_if,
        )
    }

    /// The paths of `out` from position `lo` on are found paths, and every
    /// found path is among them.
    pub open spec fn finds_exactly(
        &self,
        out: Seq<Path>,
        lo: int,
        prefix: Seq<PathNode>,
        start: NodeId,
        start_if: IfaceIndex,
        finish: NodeId,
        finish_if: IfaceIndex,
    ) -> bool {
        &&& forall|k: int|
            lo <= k < out.len() ==> self.is_found_path(
                #[trigger] out[k].nodes@,
                prefix,
                start,
                start_if,
                finish,
                finish_if,
            )
        &&& forall|p: Seq<PathNode>|
            #[trigger] self.is_found_path(p, prefix, start, start_if, finish, finish_if) ==> exists|
                k: int,
            | lo <= k < out.len() && #[trigger] out[k].nodes@ == p
    }
    /// A found path of the search one hop further on, from a neighbor that
    /// the route in progress does not visit, is a found path of this search.
    proof fn lemma_extend(
        &self,
        q: Seq<PathNode>,
        prefix: Seq<PathNode>,
        n: PathNode,
        b: NodeId,
        b_if: IfaceIndex,
        finish: NodeId,
        finish_if: IfaceIndex,
    )
        requires
            self.is_found_path(q, prefix.push(n), b, b_if, finish, finish_if),
            !visits(prefix.push(n), b),
            self.linked(n.id, n.forward_if_id, b, b_if),
        ensures
            self.is_found_path(q, prefix, n.id, n.reverse_if_id, finish, finish_if),
    {
        let cl = prefix.len() as int;
        let c2 = prefix.push(n);
        let u = q.subrange(cl + 1, q.len() as int);
        let t = q.subrange(cl, q.len() as int);
        assert(q.subrange(0, cl + 1)[cl] == n);
        assert(t =~= seq![n] + u);
        assert(q.subrange(0, cl) =~= prefix) by {
            assert forall|i: int| 0 <= i < cl implies q.subrange(0, cl)[i] == prefix[i] by {
                assert(q.subrange(0, cl + 1)[i] == c2[i]);
            }
        }
        assert forall|k: int| 1 <= k < t.len() implies !visits(prefix, #[trigger] t[k].id) by {
            assert(t[k] == u[k - 1]);
            lemma_visits_push(prefix, n, u[k - 1].id);
        }
        assert forall|i: int, j: int| 0 <= i < j < t.len() implies #[trigger] t[i].id
            != #[trigger] t[j].id by {
            assert(t[j] == u[j - 1]);
            if i > 0 {
                assert(t[i] == u[i - 1]);
            } else {
                lemma_visits_push(prefix, n, u[j - 1].id);
            }
        }
        assert forall|k: int| 0 <= k < t.len() - 1 implies #[trigger] self.hop_ok(t, k) by {
            if k > 0 {
                assert(self.hop_ok(u, k - 1));
            }
        }
    }

    /// A found path of a search whose two ends differ goes on from its first
    /// hop as a found path of the search one hop further on.
    proof fn lemma_split(
        &self,
        p: Seq<PathNode>,
        prefix: Seq<PathNode>,
        start: NodeId,
        start_if: IfaceIndex,
        finish: NodeId,
        finish_if: IfaceIndex,
    )
        requires
            self.is_found_path(p, prefix, start, start_if, finish, finish_if),
            start != finish,
        ensures
            p.len() >= prefix.len() + 2,
            p[prefix.len() as int].id == start,
            p[prefix.len() as int].reverse_if_id == start_if,
            !visits(prefix.push(p[prefix.len() as int]), p[prefix.len() + 1int].id),
            self.linked(
                start,
                p[prefix.len() as int].forward_if_id,
                p[prefix.len() + 1int].id,
                p[prefix.len() + 1int].reverse_if_id,
            ),
            self.is_found_path(
                p,
                prefix.push(p[prefix.len() as int]),
                p[prefix.len() + 1int].id,
                p[prefix.len() + 1int].reverse_if_id,
                finish,
                finish_if,
            ),
    {
        let cl = prefix.len() as int;
        let t = p.subrange(cl, p.len() as int);
        let n = t[0];
        let c2 = prefix.push(n);
        let u = p.subrange(cl + 1, p.len() as int);
        assert(t.len() >= 2);
        assert(u =~= t.drop_first());
        assert(p.subrange(0, cl + 1) =~= c2) by {
            assert forall|i: int| 0 <= i < cl implies p.subrange(0, cl + 1)[i] == c2[i] by {
                assert(p.subrange(0, cl)[i] == prefix[i]);
            }
        }
        assert(self.hop_ok(t, 0));
        assert(t[1].id != t[0].id);
        lemma_visits_push(prefix, n, t[1].id);
        assert forall|k: int| 1 <= k < u.len() implies !visits(c2, #[trigger] u[k].id) by {
            assert(u[k] == t[k + 1]);
            assert(t[0].id != t[k + 1].id);
            lemma_visits_push(prefix, n, u[k].id);
        }
        assert forall|i: int, j: int| 0 <= i < j < u.len() implies #[trigger] u[i].id
            != #[trigger] u[j].id by {
            assert(t[i + 1].id != t[j + 1].id);
        }
        assert forall|k: int| 0 <= k < u.len() - 1 implies #[trigger] self.hop_ok(u, k) by {
            assert(self.hop_ok(t, k + 1));
        }
    }

    /// Where both ends are one node, the one found path is the prefix with a
    /// single hop at that node.
    proof fn lemma_single(
        &self,
        p: Seq<PathNode>,
        prefix: Seq<PathNode>,
        start: NodeId,
        start_if: IfaceIndex,
        finish_if: IfaceIndex,
    )
        requires
            self.is_found_path(p, prefix, start, start_if, start, finish_if),
        ensures
            p == prefix.push(
                PathNode { id: start, forward_if_id: finish_if, reverse_if_id: start_if },
            ),
    {
        let cl = prefix.len() as int;
        let t = p.subrange(cl, p.len() as int);
        if t.len() >= 2 {
            assert(t[0].id != t[t.len() - 1].id);
        }
        assert(p =~= p.subrange(0, cl) + t);
        assert(p =~= prefix.push(
            PathNode { id: start, forward_if_id: finish_if, reverse_if_id: start_if },
        ));
    }

    /// A found path is simple where the prefix is simple and does not visit
    /// the start.
    pub proof fn lemma_found_path_simple(
        &self,
        p: Seq<PathNode>,
        prefix: Seq<PathNode>,
        start: NodeId,
        start_if: IfaceIndex,
        finish: NodeId,
        finish_if: IfaceIndex,
    )
        requires
            self.is_found_path(p, prefix, start, start_if, finish, finish_if),
            is_simple(prefix),
            !visits(prefix, start),
        ensures
            is_simple(p),
    {
        let cl = prefix.len() as int;
        let t = p.subrange(cl, p.len() as int);
        assert forall|i: int, j: int| 0 <= i < j < p.len() implies #[trigger] p[i].id
            != #[trigger] p[j].id by {
            if j < cl {
                assert(p.subrange(0, cl)[i] == prefix[i]);
                assert(p.subrange(0, cl)[j] == prefix[j]);
            } else if i < cl {
                assert(p.subrange(0, cl)[i] == prefix[i]);
                assert(t[j - cl] == p[j]);
                if p[i].id == p[j].id {
                    assert(visits(prefix, p[j].id));
                    if j > cl {
                        assert(!visits(prefix, t[j - cl].id));
                    }
                }
            } else {
                assert(t[i - cl] == p[i]);
                assert(t[j - cl] == p[j]);
            }
        }
    }
    /// Extends the route in progress `curr_path` from node `start_id`,
    /// entered by `start_if_id`, towards node `finish_id`, to be left by
    /// `finish_if_id`, and appends to `path_vec` every route found: the route
    /// in progress followed by a simple route to the finish that visits no
    /// node of the route in progress after its first hop. Returns whether any
    /// was found. `curr_path` is left one hop longer: a hop at `start_id`
    /// entered by `start_if_id`.
    pub fn find_path(
        &self,
        start_id: NodeId,
        start_if_id: IfaceIndex,
        finish_id: NodeId,
        finish_if_id: IfaceIndex,
        curr_path: &mut Path,
        path_vec: &mut Vec<Path>,
    ) -> (r: bool)
        requires
            self.wf(),
            self.links_closed(),
            self@.contains_key(start_id),
        ensures
            final(curr_path).nodes@.len() == old(curr_path).nodes@.len() + 1,
            final(curr_path).nodes@.drop_last() == old(curr_path).nodes@,
            final(curr_path).nodes@.last().id == start_id,
            final(curr_path).nodes@.last().reverse_if_id == start_if_id,
            final(path_vec)@.len() >= old(path_vec)@.len(),
            forall|k: int|
                0 <= k < old(path_vec)@.len() ==> #[trigger] final(path_vec)@[k] == old(
                    path_vec,
                )@[k],
            self.finds_exactly(
                final(path_vec)@,
                old(path_vec)@.len() as int,
                old(curr_path).nodes@,
                start_id,
                start_if_id,
                finish_id,
                finish_if_id,
            ),
            r == (final(path_vec)@.len() > old(path_vec)@.len()),
            r == exists|p: Seq<PathNode>|
                self.is_found_path(
                    p,
                    old(curr_path).nodes@,
                    start_id,
                    start_if_id,
                    finish_id,
                    finish_if_id,
                ),
            forall|k: int|
                old(path_vec)@.len() <= k < final(path_vec)@.len() ==> {
                    &&& (#[trigger] final(path_vec)@[k]).nodes@[old(
                        curr_path,
                    ).nodes@.len() as int].reverse_if_id == start_if_id
                    &&& final(path_vec)@[k].nodes@.last().forward_if_id == finish_if_id
                },
            is_simple(old(curr_path).nodes@) && !visits(old(curr_path).nodes@, start_id) ==> forall|
                k: int,
            |
                old(path_vec)@.len() <= k < final(path_vec)@.len() ==> is_simple(
                    (#[trigger] final(path_vec)@[k]).nodes@,
                ),
            start_id == finish_id ==> {
                &&& final(path_vec)@.len() == old(path_vec)@.len() + 1
                &&& final(path_vec)@[old(path_vec)@.len() as int].nodes@ == old(
                    curr_path,
                ).nodes@.push(
                    PathNode {
                        id: start_id,
                        forward_if_id: finish_if_id,
                        reverse_if_id: start_if_id,
                    },
                )
            },
        decreases unvisited(self.nodes@, old(curr_path).nodes@) + if visits(
            old(curr_path).nodes@,
            start_id,
        ) {
            1int
        } else {
            0int
        },
    {
        let ghost c = curr_path.nodes@;
        let ghost lo = path_vec@.len() as int;
        let start_node = self.get_node(start_id);
        let mut path_node = PathNode::new(start_id);
        path_node.reverse_if_id = start_if_id;
        curr_path.nodes.push(path_node);
        proof {
            assert(curr_path.nodes@.drop_last() =~= c);
        }
        if start_id == finish_id {
            let last = curr_path.nodes.len() - 1;
            let mut last_node = curr_path.nodes[last];
            last_node.forward_if_id = finish_if_id;
            curr_path.nodes.set(last, last_node);
            let found = curr_path.snapshot();
            path_vec.push(found);
            proof {
                assert(curr_path.nodes@.drop_last() =~= c);
                let one = c.push(last_node);
                let t = one.subrange(c.len() as int, one.len() as int);
                assert(t =~= seq![last_node]);
                assert(one.subrange(0, c.len() as int) =~= c);
                assert(self.is_found_path(one, c, start_id, start_if_id, finish_id, finish_if_id));
                assert forall|p: Seq<PathNode>|
                    #[trigger] self.is_found_path(
                        p,
                        c,
                        start_id,
                        start_if_id,
                        finish_id,
                        finish_if_id,
                    ) implies exists|k: int|
                    lo <= k < path_vec@.len() && #[trigger] path_vec@[k].nodes@ == p by {
                    self.lemma_single(p, c, start_id, start_if_id, finish_if_id);
                    assert(path_vec@[lo].nodes@ == p);
                }
                if is_simple(c) && !visits(c, start_id) {
                    self.lemma_found_path_simple(
                        one,
                        c,
                        start_id,
                        start_if_id,
                        finish_id,
                        finish_if_id,
                    );
                }
            }
            return true;
        }
        let mut found_any = false;
        let mut i: usize = 0;
        proof {
            assert forall|p: Seq<PathNode>|
                #[trigger] self.is_found_path(
                    p,
                    c,
                    start_id,
                    start_if_id,
                    finish_id,
                    finish_if_id,
                ) implies start_node.iface_pos(p[c.len() as int].forward_if_id) >= 0 by {
                self.lemma_split(p, c, start_id, start_if_id, finish_id, finish_if_id);
                assert(start_node.has_iface(p[c.len() as int].forward_if_id));
            }
        }
        while i < start_node.ifaces.len()
            invariant
                self.wf(),
                self.links_closed(),
                *start_node == self@[start_id],
                start_node.wf(),
                self@.contains_key(start_id),
                start_id != finish_id,
                0 <= i <= start_node.ifaces@.len(),
                curr_path.nodes@.len() == c.len() + 1,
                curr_path.nodes@.drop_last() == c,
                curr_path.nodes@.last().id == start_id,
                curr_path.nodes@.last().reverse_if_id == start_if_id,
                path_vec@.len() >= lo,
                lo == old(path_vec)@.len(),
                c == old(curr_path).nodes@,
                forall|k: int| 0 <= k < lo ==> #[trigger] path_vec@[k] == old(path_vec)@[k],
                found_any == (path_vec@.len() > lo),
                forall|k: int|
                    lo <= k < path_vec@.len() ==> self.is_found_path(
                        #[trigger] path_vec@[k].nodes@,
                        c,
                        start_id,
                        start_if_id,
                        finish_id,
                        finish_if_id,
                    ),
                forall|p: Seq<PathNode>|
                    #[trigger] self.is_found_path(
                        p,
                        c,
                        start_id,
                        start_if_id,
                        finish_id,
                        finish_if_id,
                    ) && start_node.iface_pos(p[c.len() as int].forward_if_id) < i ==> exists|
                        k: int,
                    | lo <= k < path_vec@.len() && #[trigger] path_vec@[k].nodes@ == p,
            decreases start_node.ifaces@.len() - i,
        {
            let iface = &start_node.ifaces[i];
            let if_id = iface.id;
            proof {
                start_node.lemma_iface_at(i as int);
            }
            let mut j: usize = 0;
            while j < iface.neighbors.len()
                invariant
                    self.wf(),
                    self.links_closed(),
                    *start_node == self@[start_id],
                    start_node.wf(),
                    self@.contains_key(start_id),
                    start_id != finish_id,
                    0 <= i < start_node.ifaces@.len(),
                    *iface == start_node.ifaces@[i as int],
                    if_id == iface.id,
                    start_node@[if_id] == *iface,
                    start_node.iface_pos(if_id) == i,
                    0 <= j <= iface.neighbors@.len(),
                    curr_path.nodes@.len() == c.len() + 1,
                    curr_path.nodes@.drop_last() == c,
                    curr_path.nodes@.last().id == start_id,
                    curr_path.nodes@.last().reverse_if_id == start_if_id,
                    path_vec@.len() >= lo,
                    lo == old(path_vec)@.len(),
                    c == old(curr_path).nodes@,
                    forall|k: int| 0 <= k < lo ==> #[trigger] path_vec@[k] == old(path_vec)@[k],
                    found_any == (path_vec@.len() > lo),
                    forall|k: int|
                        lo <= k < path_vec@.len() ==> self.is_found_path(
                            #[trigger] path_vec@[k].nodes@,
                            c,
                            start_id,
                            start_if_id,
                            finish_id,
                            finish_if_id,
                        ),
                    forall|p: Seq<PathNode>|
                        #[trigger] self.is_found_path(
                            p,
                            c,
                            start_id,
                            start_if_id,
                            finish_id,
                            finish_if_id,
                        ) && (start_node.iface_pos(p[c.len() as int].forward_if_id) < i || (
                        p[c.len() as int].forward_if_id == if_id && exists|m: int|
                            0 <= m < j && #[trigger] iface.neighbors@[m] == (
                                p[c.len() + 1int].id,
                                p[c.len() + 1int].reverse_if_id,
                            ))) ==> exists|k: int|
                            lo <= k < path_vec@.len() && #[trigger] path_vec@[k].nodes@ == p,
                decreases iface.neighbors@.len() - j,
            {
                let (neigh_id, neigh_if_id) = iface.neighbors[j];
                let ghost before = path_vec@;
                let visited = self.check_if_visitted(neigh_id, curr_path);
                if !visited {
                    let last = curr_path.nodes.len() - 1;
                    let mut last_node = curr_path.nodes[last];
                    last_node.forward_if_id = if_id;
                    curr_path.nodes.set(last, last_node);
                    let ghost c2 = curr_path.nodes@;
                    proof {
                        assert(c2 =~= c.push(last_node));
                        assert(iface.neighbors@[j as int] == (neigh_id, neigh_if_id));
                        assert(self.linked(start_id, if_id, neigh_id, neigh_if_id));
                        lemma_unvisited_push(self.nodes@, c, last_node);
                        let pos = self.node_pos(start_id);
                        self.lemma_node_at(pos);
                    }
                    let ok = self.find_path(
                        neigh_id,
                        neigh_if_id,
                        finish_id,
                        finish_if_id,
                        curr_path,
                        path_vec,
                    );
                    curr_path.nodes.pop();
                    if ok {
                        found_any = true;
                    }
                    proof {
                        assert(curr_path.nodes@ =~= c2);
                        assert(curr_path.nodes@.last().forward_if_id == if_id);
                        assert forall|k: int|
                            lo <= k < path_vec@.len() implies self.is_found_path(
                            #[trigger] path_vec@[k].nodes@,
                            c,
                            start_id,
                            start_if_id,
                            finish_id,
                            finish_if_id,
                        ) by {
                            if k >= before.len() {
                                self.lemma_extend(
                                    path_vec@[k].nodes@,
                                    c,
                                    last_node,
                                    neigh_id,
                                    neigh_if_id,
                                    finish_id,
                                    finish_if_id,
                                );
                            } else {
                                assert(path_vec@[k] == before[k]);
                            }
                        }
                    }
                }
                proof {
                    assert forall|p: Seq<PathNode>|
                        #[trigger] self.is_found_path(
                            p,
                            c,
                            start_id,
                            start_if_id,
                            finish_id,
                            finish_if_id,
                        ) && (start_node.iface_pos(p[c.len() as int].forward_if_id) < i || (
                        p[c.len() as int].forward_if_id == if_id && exists|m: int|
                            0 <= m < j + 1 && #[trigger] iface.neighbors@[m] == (
                                p[c.len() + 1int].id,
                                p[c.len() + 1int].reverse_if_id,
                            ))) implies exists|k: int|
                        lo <= k < path_vec@.len() && #[trigger] path_vec@[k].nodes@ == p by {
                        let pair = (p[c.len() + 1int].id, p[c.len() + 1int].reverse_if_id);
                        if start_node.iface_pos(p[c.len() as int].forward_if_id) < i || (
                        p[c.len() as int].forward_if_id == if_id && exists|m: int|
                            0 <= m < j && #[trigger] iface.neighbors@[m] == pair) {
                            let k = choose|k: int|
                                lo <= k < before.len() && #[trigger] before[k].nodes@ == p;
                            assert(path_vec@[k] == before[k]);
                        } else {
                            self.lemma_split(p, c, start_id, start_if_id, finish_id, finish_if_id);
                            let m = choose|m: int|
                                0 <= m < j + 1 && #[trigger] iface.neighbors@[m] == pair;
                            assert(m == j);
                            let x = curr_path.nodes@.last();
                            assert(curr_path.nodes@ =~= c.push(x));
                            lemma_visits_push(c, x, pair.0);
                            lemma_visits_push(c, p[c.len() as int], pair.0);
                            assert(!visited);
                            assert(p[c.len() as int] == curr_path.nodes@.last());
                            assert(curr_path.nodes@ =~= c.push(p[c.len() as int]));
                        }
                    }
                }
                j += 1;
            }
            proof {
                assert forall|p: Seq<PathNode>|
                    #[trigger] self.is_found_path(
                        p,
                        c,
                        start_id,
                        start_if_id,
                        finish_id,
                        finish_if_id,
                    ) && start_node.iface_pos(p[c.len() as int].forward_if_id) < i + 1 implies exists|
                        k: int,
                    | lo <= k < path_vec@.len() && #[trigger] path_vec@[k].nodes@ == p by {
                    if start_node.iface_pos(p[c.len() as int].forward_if_id) == i {
                        self.lemma_split(p, c, start_id, start_if_id, finish_id, finish_if_id);
                        let via = p[c.len() as int].forward_if_id;
                        let pair = (p[c.len() + 1int].id, p[c.len() + 1int].reverse_if_id);
                        assert(start_node.ifaces@[i as int].id == via);
                        assert(iface.neighbors@.contains(pair));
                        let m = choose|m: int|
                            0 <= m < iface.neighbors@.len() && iface.neighbors@[m] == pair;
                        assert(iface.neighbors@[m] == pair);
                    }
                }
            }
            i += 1;
        }
        proof {
            assert forall|p: Seq<PathNode>|
                #[trigger] self.is_found_path(
                    p,
                    c,
                    start_id,
                    start_if_id,
                    finish_id,
                    finish_if_id,
                ) implies exists|k: int|
                lo <= k < path_vec@.len() && #[trigger] path_vec@[k].nodes@ == p by {
                self.lemma_split(p, c, start_id, start_if_id, finish_id, finish_if_id);
                let via = p[c.len() as int].forward_if_id;
                let q = start_node.iface_pos(via);
                assert(start_node.has_iface(via));
            }
            assert forall|k: int| lo <= k < path_vec@.len() implies {
                &&& (#[trigger] path_vec@[k]).nodes@[c.len() as int].reverse_if_id == start_if_id
                &&& path_vec@[k].nodes@.last().forward_if_id == finish_if_id
            } by {
                let p = path_vec@[k].nodes@;
                let t = p.subrange(c.len() as int, p.len() as int);
                assert(t[0] == p[c.len() as int]);
                assert(t.last() == p.last());
            }
            if is_simple(c) && !visits(c, start_id) {
                assert forall|k: int| lo <= k < path_vec@.len() implies is_simple(
                    (#[trigger] path_vec@[k]).nodes@,
                ) by {
                    self.lemma_found_path_simple(
                        path_vec@[k].nodes@,
                        c,
                        start_id,
                        start_if_id,
                        finish_id,
                        finish_if_id,
                    );
                }
            }
            if found_any {
                assert(self.is_found_path(
                    path_vec@[lo].nodes@,
                    c,
                    start_id,
                    start_if_id,
                    finish_id,
                    finish_if_id,
                ));
            }
        }
        found_any
    }
}

/// Searching twice with the same arguments on the same topology finds the
/// same routes: any two outcomes that meet the contract of `find_path` for
/// one topology, route in progress and pair of endpoints hold the same set
/// of routes, whatever order they come in.
pub proof fn lemma_find_path_repeatable(
    topo: Topology,
    prefix: Seq<PathNode>,
    start: NodeId,
    start_if: IfaceIndex,
    finish: NodeId,
    finish_if: IfaceIndex,
    out1: Seq<Path>,
    lo1: int,
    out2: Seq<Path>,
    lo2: int,
)
    requires
        topo.finds_exactly(out1, lo1, prefix, start, start_if, finish, finish_if),
        topo.finds_exactly(out2, lo2, prefix, start, start_if, finish, finish_if),
    ensures
        path_set(out1, lo1) == path_set(out2, lo2),
{
    assert forall|p: Seq<PathNode>| path_set(out1, lo1).contains(p) <==> path_set(
        out2,
        lo2,
    ).contains(p) by {
        if path_set(out1, lo1).contains(p) {
            let k = choose|k: int| lo1 <= k < out1.len() && #[trigger] out1[k].nodes@ == p;
            assert(topo.is_found_path(out1[k].nodes@, prefix, start, start_if, finish, finish_if));
        }
        if path_set(out2, lo2).contains(p) {
            let k = choose|k: int| lo2 <= k < out2.len() && #[trigger] out2[k].nodes@ == p;
            assert(topo.is_found_path(out2[k].nodes@, prefix, start, start_if, finish, finish_if));
        }
    }
    assert(path_set(out1, lo1) =~= path_set(out2, lo2));
}

} // verus!
