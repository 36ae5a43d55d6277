//! The constraint world: all nodes and links, the adjacency index from node
//! to incident link indices, the deferred removal queues, and the physics
//! scale and time step.
//!
//! Indices are positions in the dense `nodes` / `links` arrays; removal is
//! two-phase (queue, then `flush`), so indices stay stable for a whole frame.
//! `wf` is the well-formedness invariant every operation preserves: scalars
//! in range, link endpoints valid and distinct, at most one link per
//! unordered node pair, and the adjacency index exactly mirroring `links`.

use vstd::prelude::*;

use crate::fixed::{fx_clip, fx_div, fx_div_raw, fx_mul, fx_mul_raw, fx_ok};
use crate::vec2::Vec2;
use crate::link::Link;
use crate::node::Node;

verus! {

/// Raw fixed-point factor for the default node radius (0.05).
pub const RADIUS_K: i64 = 3277;

/// Raw fixed-point factor from radius to world scale (20).
pub const SCALE_K: i64 = 1310720;

/// Raw fixed-point factor from radius to link width (0.65).
pub const LINK_WIDTH_K: i64 = 42598;

/// Some entry of the sequence equals `li`.
pub open spec fn seq_has(s: Seq<u32>, li: int) -> bool {
    exists|k: int| 0 <= k < s.len() && #[trigger] s[k] == li
}

/// Some link of the sequence joins the unordered pair `{a, b}`.
pub open spec fn any_connects(s: Seq<Link>, a: u32, b: u32) -> bool {
    exists|i: int| 0 <= i < s.len() && (#[trigger] s[i]).connects(a, b)
}

pub struct World {
    pub nodes: Vec<Node>,
    pub links: Vec<Link>,
    pub radius: i64,
    pub dt: i64,
    pub energy: i64,
    pub node_links: Vec<Vec<u32>>,
    pub node_remove_queue: Vec<u32>,
    pub link_remove_queue: Vec<u32>,
}

impl World {
    pub open spec fn n_nodes(self) -> int {
        self.nodes@.len() as int
    }

    pub open spec fn n_links(self) -> int {
        self.links@.len() as int
    }

    /// Every node's scalars lie in range.
    pub open spec fn nodes_ok(self) -> bool {
        forall|i: int| 0 <= i < self.n_nodes() ==> (#[trigger] self.nodes@[i]).ok()
    }

    /// Every link is in range, joins two distinct existing nodes.
    pub open spec fn links_ok(self) -> bool {
        forall|i: int|
            0 <= i < self.n_links() ==> {
                let l = #[trigger] self.links@[i];
                &&& l.ok()
                &&& l.spec_n1() != l.spec_n2()
                &&& (l.spec_n1() as int) < self.n_nodes()
                &&& (l.spec_n2() as int) < self.n_nodes()
            }
    }

    /// At most one link joins any unordered pair of nodes.
    pub open spec fn no_dup_links(self) -> bool {
        forall|i: int, j: int|
            0 <= i < j < self.n_links() ==> !(#[trigger] self.links@[i]).connects(
                (#[trigger] self.links@[j]).spec_n1(),
                self.links@[j].spec_n2(),
            )
    }

    /// Link index `li` is recorded in the adjacency list of node `n`.
    pub open spec fn adj_has(self, n: int, li: int) -> bool {
        seq_has(self.node_links@[n]@, li)
    }

    /// The adjacency index mirrors `links` exactly: one list per node, whose
    /// entries are exactly the indices of the links incident to that node,
    /// each recorded once.
    pub open spec fn adj_ok(self) -> bool {
        &&& self.node_links@.len() == self.nodes@.len()
        &&& forall|n: int, k: int|
            0 <= n < self.n_nodes() && 0 <= k < self.node_links@[n]@.len() ==> {
                let li = #[trigger] self.node_links@[n]@[k];
                (li as int) < self.n_links() && self.links@[li as int].spec_linked_to(n as u32)
            }
        &&& forall|li: int|
            0 <= li < self.n_links() ==> self.adj_has(
                (#[trigger] self.links@[li]).spec_n1() as int,
                li,
            ) && self.adj_has(self.links@[li].spec_n2() as int, li)
        &&& forall|n: int, k1: int, k2: int|
            0 <= n < self.n_nodes() && 0 <= k1 < k2 < self.node_links@[n]@.len()
                ==> #[trigger] self.node_links@[n]@[k1] != #[trigger] self.node_links@[n]@[k2]
    }

    /// Queued removals reference existing entries.
    pub open spec fn queues_ok(self) -> bool {
        &&& forall|i: int|
            0 <= i < self.node_remove_queue@.len() ==> (#[trigger] self.node_remove_queue@[i]
                as int) < self.n_nodes()
        &&& forall|i: int|
            0 <= i < self.link_remove_queue@.len() ==> (#[trigger] self.link_remove_queue@[i]
                as int) < self.n_links()
    }

    /// The world invariant.
    pub open spec fn wf(self) -> bool {
        &&& self.nodes_ok()
        &&& self.links_ok()
        &&& self.no_dup_links()
        &&& self.adj_ok()
        &&& self.queues_ok()
        &&& self.n_nodes() <= u32::MAX as int
        &&& self.n_links() <= u32::MAX as int
        &&& fx_ok(self.radius as int)
        &&& self.radius > 0
        &&& fx_ok(self.dt as int)
        &&& fx_ok(self.energy as int)
        &&& self.energy >= 0
    }

    /// Some stored link joins the unordered pair `{a, b}`.
    pub open spec fn has_link_between(self, a: u32, b: u32) -> bool {
        any_connects(self.links@, a, b)
    }

    /// A link request the world accepts: distinct, existing endpoints, not
    /// yet joined.
    pub open spec fn link_valid(self, l: Link) -> bool {
        &&& l.spec_n1() != l.spec_n2()
        &&& (l.spec_n1() as int) < self.n_nodes()
        &&& (l.spec_n2() as int) < self.n_nodes()
        &&& !self.has_link_between(l.spec_n1(), l.spec_n2())
    }

    /// Append a node; its index is the previous node count.
    pub fn add(&mut self, node: Node) -> (r: u32)
        requires
            old(self).wf(),
            node.ok(),
            old(self).n_nodes() < u32::MAX as int,
        ensures
            r as int == old(self).n_nodes(),
            final(self).nodes@ == old(self).nodes@.push(node),
            final(self).node_links@.len() == old(self).node_links@.len() + 1,
            final(self).node_links@ == old(self).node_links@.push(final(self).node_links@[
                old(self).n_nodes()
            ]),
            final(self).node_links@[old(self).n_nodes()]@.len() == 0,
            final(self).links == old(self).links,
            final(self).radius == old(self).radius,
            final(self).dt == old(self).dt,
            final(self).energy == old(self).energy,
            final(self).node_remove_queue == old(self).node_remove_queue,
            final(self).link_remove_queue == old(self).link_remove_queue,
            final(self).wf(),
    {
        self.nodes.push(node);
        self.node_links.push(Vec::new());
        proof {
            let post = *self;
            let pre = *old(self);
            assert forall|n: int, k: int|
                0 <= n < post.n_nodes() && 0 <= k < post.node_links@[n]@.len() implies {
                let li = #[trigger] post.node_links@[n]@[k];
                (li as int) < post.n_links() && post.links@[li as int].spec_linked_to(n as u32)
            } by {
                assert(n < pre.n_nodes());
            }
            assert forall|li: int| 0 <= li < post.n_links() implies post.adj_has(
                (#[trigger] post.links@[li]).spec_n1() as int,
                li,
            ) && post.adj_has(post.links@[li].spec_n2() as int, li) by {
                let a = pre.links@[li].spec_n1() as int;
                let b = pre.links@[li].spec_n2() as int;
                assert(pre.adj_has(a, li));
                assert(pre.adj_has(b, li));
                let ka = choose|k: int|
                    0 <= k < pre.node_links@[a]@.len() && #[trigger] pre.node_links@[a]@[k] == li;
                assert(post.node_links@[a]@[ka] == li);
                let kb = choose|k: int|
                    0 <= k < pre.node_links@[b]@.len() && #[trigger] pre.node_links@[b]@[k] == li;
                assert(post.node_links@[b]@[kb] == li);
            }
        }
        (self.nodes.len() - 1) as u32
    }

    /// The index of the link joining the two nodes, if one exists.
    pub fn nodes_link(&self, node1: u32, node2: u32) -> (r: Option<u32>)
        requires
            self.wf(),
            (node1 as int) < self.n_nodes(),
            node1 != node2,
        ensures
            match r {
                Some(li) => (li as int) < self.n_links() && self.links@[li as int].connects(
                    node1,
                    node2,
                ),
                None => !self.has_link_between(node1, node2),
            },
    {
        let adj = &self.node_links[node1 as usize];
        let n = adj.len();
        for k in 0..n
            invariant
                self.wf(),
                (node1 as int) < self.n_nodes(),
                node1 != node2,
                n == self.node_links@[node1 as int]@.len(),
                adj@ == self.node_links@[node1 as int]@,
                forall|k2: int|
                    0 <= k2 < k ==> !self.links@[
                        #[trigger] self.node_links@[node1 as int]@[k2] as int
                    ].spec_linked_to(node2),
        {
            let li = adj[k];
            if self.links[li as usize].linked_to(node2) {
                proof {
                    assert(self.node_links@[node1 as int]@[k as int] == li);
                    assert(self.links@[li as int].spec_linked_to(node1 as u32));
                }
                return Some(li);
            }
        }
        proof {
            if self.has_link_between(node1, node2) {
                let i = choose|i: int|
                    0 <= i < self.n_links() && (#[trigger] self.links@[i]).connects(node1, node2);
                assert(self.adj_has(node1 as int, i));
                let k = choose|k: int|
                    0 <= k < self.node_links@[node1 as int]@.len()
                        && #[trigger] self.node_links@[node1 as int]@[k] == i;
                assert(self.links@[self.node_links@[node1 as int]@[k] as int].spec_linked_to(
                    node2,
                ));
            }
        }
        None
    }

    /// Whether a node is anchored: axis-fixed, or joined to some link.
    pub fn node_linked(&self, node_idx: u32) -> (r: bool)
        requires
            self.wf(),
            (node_idx as int) < self.n_nodes(),
        ensures
            r == (self.nodes@[node_idx as int].spec_fixed_x()
                || self.nodes@[node_idx as int].spec_fixed_y()
                || self.node_links@[node_idx as int]@.len() > 0),
    {
        let node = &self.nodes[node_idx as usize];
        node.fixed_x() || node.fixed_y() || self.node_links[node_idx as usize].len() > 0
    }

    /// Accept a link between two nodes, keeping the rest length it carries:
    /// reject self-links, out-of-range endpoints and duplicates silently;
    /// otherwise append it and index it from both endpoints.
    pub(crate) fn link_node_keep_dist(&mut self, link: Link)
        requires
            old(self).wf(),
            link.ok(),
            old(self).n_links() < u32::MAX as int,
        ensures
            final(self).wf(),
            !old(self).link_valid(link) ==> *final(self) == *old(self),
            old(self).link_valid(link) ==> {
                let stored = link;
                &&& final(self).links@ == old(self).links@.push(stored)
                &&& final(self).nodes == old(self).nodes
                &&& final(self).node_links@.len() == old(self).node_links@.len()
                &&& final(self).node_links@[link.spec_n1() as int]@ == old(self).node_links@[
                    link.spec_n1() as int
                ]@.push(old(self).n_links() as u32)
                &&& final(self).node_links@[link.spec_n2() as int]@ == old(self).node_links@[
                    link.spec_n2() as int
                ]@.push(old(self).n_links() as u32)
                &&& forall|n: int|
                    0 <= n < old(self).n_nodes() && n != link.spec_n1() as int && n
                        != link.spec_n2() as int ==> final(self).node_links@[n]
                        == old(self).node_links@[n]
                &&& final(self).radius == old(self).radius
                &&& final(self).dt == old(self).dt
                &&& final(self).energy == old(self).energy
                &&& final(self).node_remove_queue == old(self).node_remove_queue
                &&& final(self).link_remove_queue == old(self).link_remove_queue
            },
    {
        let n1 = link.n1();
        let n2 = link.n2();
        if n1 == n2 || (n1 as usize) >= self.nodes.len() || (n2 as usize) >= self.nodes.len() {
            return ;
        }
        if let Some(_) = self.nodes_link(n1, n2) {
            return ;
        }
        let ghost pre = *self;
        let new_idx: u32 = self.links.len() as u32;
        let stored = link;
        self.links.push(stored);
        let adj1 = &mut self.node_links[n1 as usize];
        adj1.push(new_idx);
        let adj2 = &mut self.node_links[n2 as usize];
        adj2.push(new_idx);
        proof {
            let post = *self;
            assert(post.node_links@[n1 as int]@ == pre.node_links@[n1 as int]@.push(new_idx));
            assert(post.node_links@[n2 as int]@ == pre.node_links@[n2 as int]@.push(new_idx));
            // each adjacency entry points at an incident link
            assert forall|n: int, k: int|
                0 <= n < post.n_nodes() && 0 <= k < post.node_links@[n]@.len() implies {
                let li = #[trigger] post.node_links@[n]@[k];
                (li as int) < post.n_links() && post.links@[li as int].spec_linked_to(n as u32)
            } by {
                if n == n1 as int && k == post.node_links@[n]@.len() - 1 {
                } else if n == n2 as int && k == post.node_links@[n]@.len() - 1 {
                } else {
                    assert(post.node_links@[n]@[k] == pre.node_links@[n]@[k]);
                }
            }
            // every link is indexed from both endpoints
            assert forall|li: int| 0 <= li < post.n_links() implies post.adj_has(
                (#[trigger] post.links@[li]).spec_n1() as int,
                li,
            ) && post.adj_has(post.links@[li].spec_n2() as int, li) by {
                if li < pre.n_links() {
                    let a = pre.links@[li].spec_n1() as int;
                    let b = pre.links@[li].spec_n2() as int;
                    let ka = choose|k: int|
                        0 <= k < pre.node_links@[a]@.len() && #[trigger] pre.node_links@[a]@[k]
                            == li;
                    assert(post.node_links@[a]@[ka] == li);
                    let kb = choose|k: int|
                        0 <= k < pre.node_links@[b]@.len() && #[trigger] pre.node_links@[b]@[k]
                            == li;
                    assert(post.node_links@[b]@[kb] == li);
                } else {
                    let a = post.links@[li].spec_n1() as int;
                    let b = post.links@[li].spec_n2() as int;
                    assert(post.node_links@[a]@[post.node_links@[a]@.len() - 1] == li);
                    assert(post.node_links@[b]@[post.node_links@[b]@.len() - 1] == li);
                }
            }
            // entries stay pairwise distinct: the new entry exceeds the old
            assert forall|n: int, k1: int, k2: int|
                0 <= n < post.n_nodes() && 0 <= k1 < k2 < post.node_links@[n]@.len()
                implies #[trigger] post.node_links@[n]@[k1] != #[trigger] post.node_links@[n]@[k2]
            by {
                if n == n1 as int || n == n2 as int {
                    if k2 == post.node_links@[n]@.len() - 1 {
                        assert((pre.node_links@[n]@[k1] as int) < pre.n_links());
                    } else {
                        assert(post.node_links@[n]@[k1] == pre.node_links@[n]@[k1]);
                        assert(post.node_links@[n]@[k2] == pre.node_links@[n]@[k2]);
                    }
                } else {
                    assert(post.node_links@[n]@[k1] == pre.node_links@[n]@[k1]);
                    assert(post.node_links@[n]@[k2] == pre.node_links@[n]@[k2]);
                }
            }
            // the new link joins a pair no stored link joined
            assert forall|i: int, j: int|
                0 <= i < j < post.n_links() implies !(#[trigger] post.links@[i]).connects(
                (#[trigger] post.links@[j]).spec_n1(),
                post.links@[j].spec_n2(),
            ) by {
                if j == post.n_links() - 1 {
                    if post.links@[i].connects(stored.spec_n1(), stored.spec_n2()) {
                        assert(pre.links@[i].connects(n1, n2));
                        assert(pre.has_link_between(n1, n2));
                    }
                }
            }
        }
    }
    /// Accept a link between two nodes: reject self-links, out-of-range
    /// endpoints and duplicates silently; otherwise store it with its rest
    /// length recomputed to the endpoints' current distance, so a freshly
    /// drawn link starts unstressed, and index it from both endpoints.
    pub fn link_node(&mut self, link: Link)
        requires
            old(self).wf(),
            link.ok(),
            old(self).n_links() < u32::MAX as int,
        ensures
            final(self).wf(),
            !old(self).link_valid(link) ==> *final(self) == *old(self),
            old(self).link_valid(link) ==> {
                let stored = link.spec_with_dist(
                    old(self).nodes@[link.spec_n1() as int].p.spec_dist(
                        &old(self).nodes@[link.spec_n2() as int].p,
                    ),
                );
                &&& final(self).links@ == old(self).links@.push(stored)
                &&& final(self).nodes == old(self).nodes
                &&& final(self).node_links@.len() == old(self).node_links@.len()
                &&& final(self).node_links@[link.spec_n1() as int]@ == old(self).node_links@[
                    link.spec_n1() as int
                ]@.push(old(self).n_links() as u32)
                &&& final(self).node_links@[link.spec_n2() as int]@ == old(self).node_links@[
                    link.spec_n2() as int
                ]@.push(old(self).n_links() as u32)
                &&& forall|n: int|
                    0 <= n < old(self).n_nodes() && n != link.spec_n1() as int && n
                        != link.spec_n2() as int ==> final(self).node_links@[n]
                        == old(self).node_links@[n]
                &&& final(self).radius == old(self).radius
                &&& final(self).dt == old(self).dt
                &&& final(self).energy == old(self).energy
                &&& final(self).node_remove_queue == old(self).node_remove_queue
                &&& final(self).link_remove_queue == old(self).link_remove_queue
            },
    {
        let n1 = link.n1();
        let n2 = link.n2();
        if n1 == n2 || (n1 as usize) >= self.nodes.len() || (n2 as usize) >= self.nodes.len() {
            return ;
        }
        let mut stored = link;
        let d = self.nodes[n1 as usize].p.dist(&self.nodes[n2 as usize].p);
        stored.set_dist(d);
        self.link_node_keep_dist(stored);
    }

    /// World scale: `radius` times 20.
    pub fn scale(&self) -> (r: i64)
        requires
            self.wf(),
        ensures
            r == fx_clip(fx_mul_raw(self.radius as int, SCALE_K as int)),
            fx_ok(r as int),
            r > 0,
    {
        proof {
            assert(fx_mul_raw(self.radius as int, SCALE_K as int) >= 20) by (nonlinear_arith)
                requires
                    self.radius >= 1,
                    SCALE_K == 1310720,
            ;
        }
        fx_mul(self.radius, SCALE_K)
    }

    /// Width links are drawn at: `radius` times 0.65.
    pub fn link_width(&self) -> (r: i64)
        requires
            self.wf(),
        ensures
            r == fx_clip(fx_mul_raw(self.radius as int, LINK_WIDTH_K as int)),
            fx_ok(r as int),
    {
        fx_mul(self.radius, LINK_WIDTH_K)
    }

    /// Set the world scale by resizing the node radius to a twentieth of it.
    /// The product must stay positive, the smallest radius the fixed-point
    /// grid can hold.
    pub fn set_scale(&mut self, scale: i64)
        requires
            old(self).wf(),
            fx_ok(scale as int),
            fx_mul_raw(scale as int, RADIUS_K as int) > 0,
        ensures
            final(self).radius == fx_clip(fx_mul_raw(scale as int, RADIUS_K as int)),
            *final(self) == (World { radius: final(self).radius, ..*old(self) }),
            final(self).wf(),
    {
        self.radius = fx_mul(scale, RADIUS_K);
    }

    /// Node `node_idx` translated by `(x, y)`, with its velocity zeroed.
    pub open spec fn moved_node(self, node_idx: u32, x: i64, y: i64) -> Node {
        Node {
            v: crate::vec2::Vec2::spec_zero(),
            ..self.nodes@[node_idx as int].spec_moved_by(x, y)
        }
    }

    /// The node sequence after `move_node(node_idx, x, y, _)`.
    pub open spec fn moved_nodes(self, node_idx: u32, x: i64, y: i64) -> Seq<Node> {
        self.nodes@.update(node_idx as int, self.moved_node(node_idx, x, y))
    }

    /// Link `li` with its rest length re-anchored against the moved node
    /// sequence `ns`: recomputed from current positions when requested, and
    /// always from the pinned coordinates when both endpoints are fully
    /// fixed.
    pub open spec fn relinked(self, ns: Seq<Node>, update_constraints: bool, li: int) -> Link {
        let l = self.links@[li];
        let a = ns[l.spec_n1() as int];
        let b = ns[l.spec_n2() as int];
        let l1 = if update_constraints {
            l.spec_with_dist(a.p.spec_dist(&b.p))
        } else {
            l
        };
        if a.spec_fixed() && b.spec_fixed() {
            l1.spec_with_dist(a.fixed_p.spec_dist(&b.fixed_p))
        } else {
            l1
        }
    }

    /// Translate a node by `(x, y)` and zero its velocity. When dragging
    /// freely (`update_constraints`) or when the node is fully fixed, every
    /// incident link is re-anchored: its rest length follows the new
    /// geometry instead of stretching elastically.
    #[verifier::rlimit(60)]
    pub fn move_node(&mut self, node_idx: u32, x: i64, y: i64, update_constraints: bool)
        requires
            old(self).wf(),
            (node_idx as int) < old(self).n_nodes(),
            fx_ok(x as int),
            fx_ok(y as int),
        ensures
            final(self).nodes@ == old(self).moved_nodes(node_idx, x, y),
            final(self).links@.len() == old(self).n_links(),
            forall|li: int|
                0 <= li < old(self).n_links() ==> final(self).links@[li] == (
                if (update_constraints || old(self).moved_node(node_idx, x, y).spec_fixed()) && (
                #[trigger] old(self).links@[li]).spec_linked_to(node_idx) {
                    old(self).relinked(old(self).moved_nodes(node_idx, x, y), update_constraints, li)
                } else {
                    old(self).links@[li]
                }),
            final(self).node_links == old(self).node_links,
            final(self).radius == old(self).radius,
            final(self).dt == old(self).dt,
            final(self).energy == old(self).energy,
            final(self).node_remove_queue == old(self).node_remove_queue,
            final(self).link_remove_queue == old(self).link_remove_queue,
            final(self).wf(),
    {
        let ghost pre = *old(self);
        let mut a = self.nodes[node_idx as usize];
        a.move_by(x, y);
        a.v = crate::vec2::Vec2::zero();
        self.nodes.set(node_idx as usize, a);
        let ghost ns = pre.moved_nodes(node_idx, x, y);
        assert(self.nodes@ == ns);
        if update_constraints || a.fixed() {
            let adj_len = self.node_links[node_idx as usize].len();
            for k in 0..adj_len
                invariant
                    pre.wf(),
                    (node_idx as int) < pre.n_nodes(),
                    fx_ok(x as int),
                    fx_ok(y as int),
                    ns == pre.moved_nodes(node_idx, x, y),
                    self.nodes@ == ns,
                    adj_len == pre.node_links@[node_idx as int]@.len(),
                    self.links@.len() == pre.n_links(),
                    forall|li: int|
                        0 <= li < pre.n_links() ==> #[trigger] self.links@[li] == (
                        if seq_has(pre.node_links@[node_idx as int]@.take(k as int), li) {
                            pre.relinked(ns, update_constraints, li)
                        } else {
                            pre.links@[li]
                        }),
                    *self == (World { nodes: self.nodes, links: self.links, ..pre }),
            {
                let li = self.node_links[node_idx as usize][k];
                proof {
                    assert(pre.node_links@[node_idx as int]@[k as int] == li);
                }
                let l = self.links[li as usize];
                proof {
                    assert(pre.links@[li as int].spec_linked_to(node_idx));
                    if seq_has(pre.node_links@[node_idx as int]@.take(k as int), li as int) {
                        let k2 = choose|k2: int|
                            0 <= k2 < k && #[trigger] pre.node_links@[node_idx as int]@.take(
                                k as int,
                            )[k2] == li as int;
                        assert(pre.node_links@[node_idx as int]@[k2] == pre.node_links@[
                            node_idx as int
                        ]@[k as int]);
                        assert(false);
                    }
                    assert(self.links@[li as int] == pre.links@[li as int]);
                }
                let n1 = l.n1();
                let n2 = l.n2();
                let na = self.nodes[n1 as usize];
                let nb = self.nodes[n2 as usize];
                let mut l2 = l;
                if update_constraints {
                    l2.set_dist(na.p.dist(&nb.p));
                }
                if na.fixed() && nb.fixed() {
                    l2.set_dist(na.fixed_p.dist(&nb.fixed_p));
                }
                let ghost links_before = self.links@;
                self.links.set(li as usize, l2);
                proof {
                    let s = pre.node_links@[node_idx as int]@;
                    assert(self.links@ == links_before.update(li as int, l2));
                    assert(l2 == pre.relinked(ns, update_constraints, li as int));
                    assert(s.take(k as int + 1)[k as int] == li);
                    assert(seq_has(s.take(k as int + 1), li as int));
                    assert forall|li2: int| 0 <= li2 < pre.n_links() implies #[trigger] self.links@[
                        li2
                    ] == (if seq_has(s.take(k as int + 1), li2) {
                        pre.relinked(ns, update_constraints, li2)
                    } else {
                        pre.links@[li2]
                    }) by {
                        if li2 == li as int {
                        } else {
                            assert(self.links@[li2] == links_before[li2]);
                            if seq_has(s.take(k as int + 1), li2) {
                                let k2 = choose|k2: int|
                                    0 <= k2 < s.take(k as int + 1).len() && #[trigger] s.take(
                                        k as int + 1,
                                    )[k2] == li2;
                                assert(k2 != k as int);
                                assert(s.take(k as int)[k2] == li2);
                                assert(seq_has(s.take(k as int), li2));
                            } else {
                                if seq_has(s.take(k as int), li2) {
                                    let k2 = choose|k2: int|
                                        0 <= k2 < s.take(k as int).len() && #[trigger] s.take(
                                            k as int,
                                        )[k2] == li2;
                                    assert(s.take(k as int + 1)[k2] == li2);
                                    assert(seq_has(s.take(k as int + 1), li2));
                                }
                            }
                        }
                    }
                }
            }
            proof {
                let s = pre.node_links@[node_idx as int]@;
                assert(s.take(adj_len as int) == s);
                assert forall|li: int| 0 <= li < pre.n_links() implies #[trigger] self.links@[li]
                    == (if pre.links@[li].spec_linked_to(node_idx) {
                    pre.relinked(ns, update_constraints, li)
                } else {
                    pre.links@[li]
                }) by {
                    if pre.links@[li].spec_linked_to(node_idx) {
                        if pre.links@[li].spec_n1() == node_idx {
                            assert(pre.adj_has(node_idx as int, li));
                        } else {
                            assert(pre.adj_has(node_idx as int, li));
                        }
                    } else {
                        if seq_has(s, li) {
                            let k2 = choose|k2: int| 0 <= k2 < s.len() && #[trigger] s[k2] == li;
                            assert(pre.links@[li].spec_linked_to(node_idx));
                        }
                    }
                }
                assert(self.wf());
            }
        } else {
            proof {
                assert(self.wf());
            }
        }
    }

    /// Translate every node by `(x, y)`, keeping velocities; links whose two
    /// endpoints are both fully fixed are re-anchored to the translated pins.
    pub fn move_all(&mut self, x: i64, y: i64)
        requires
            old(self).wf(),
            fx_ok(x as int),
            fx_ok(y as int),
        ensures
            final(self).nodes@.len() == old(self).n_nodes(),
            forall|i: int|
                0 <= i < old(self).n_nodes() ==> final(self).nodes@[i] == (Node {
                    v: old(self).nodes@[i].v,
                    ..(#[trigger] old(self).nodes@[i]).spec_moved_by(x, y)
                }),
            final(self).links@.len() == old(self).n_links(),
            forall|li: int|
                0 <= li < old(self).n_links() ==> final(self).links@[li] == (
                {
                    let l = #[trigger] old(self).links@[li];
                    let a = final(self).nodes@[l.spec_n1() as int];
                    let b = final(self).nodes@[l.spec_n2() as int];
                    if a.spec_fixed() && b.spec_fixed() {
                        l.spec_with_dist(a.fixed_p.spec_dist(&b.fixed_p))
                    } else {
                        l
                    }
                }),
            final(self).node_links == old(self).node_links,
            final(self).radius == old(self).radius,
            final(self).dt == old(self).dt,
            final(self).energy == old(self).energy,
            final(self).node_remove_queue == old(self).node_remove_queue,
            final(self).link_remove_queue == old(self).link_remove_queue,
            final(self).wf(),
    {
        let ghost pre = *old(self);
        let n = self.nodes.len();
        for i in 0..n
            invariant
                pre.wf(),
                fx_ok(x as int),
                fx_ok(y as int),
                n == pre.n_nodes(),
                self.nodes@.len() == pre.n_nodes(),
                forall|j: int|
                    0 <= j < i ==> #[trigger] self.nodes@[j] == (Node {
                        v: pre.nodes@[j].v,
                        ..pre.nodes@[j].spec_moved_by(x, y)
                    }),
                forall|j: int| i <= j < n ==> #[trigger] self.nodes@[j] == pre.nodes@[j],
                *self == (World { nodes: self.nodes, ..pre }),
        {
            let mut a = self.nodes[i];
            let old_v = a.v;
            a.move_by(x, y);
            a.v = old_v;
            self.nodes.set(i, a);
        }
        let m = self.links.len();
        let ghost mid = *self;
        for li in 0..m
            invariant
                pre.wf(),
                mid.wf(),
                m == pre.n_links(),
                self.nodes@ == mid.nodes@,
                self.links@.len() == pre.n_links(),
                mid.links@ == pre.links@,
                mid.nodes@.len() == pre.n_nodes(),
                forall|j: int|
                    0 <= j < pre.n_links() ==> ((#[trigger] pre.links@[j]).spec_n1() as int)
                        < pre.n_nodes() && (pre.links@[j].spec_n2() as int) < pre.n_nodes(),
                forall|j: int|
                    0 <= j < li ==> #[trigger] self.links@[j] == (
                    {
                        let l = pre.links@[j];
                        let a = mid.nodes@[l.spec_n1() as int];
                        let b = mid.nodes@[l.spec_n2() as int];
                        if a.spec_fixed() && b.spec_fixed() {
                            l.spec_with_dist(a.fixed_p.spec_dist(&b.fixed_p))
                        } else {
                            l
                        }
                    }),
                forall|j: int| li <= j < m ==> #[trigger] self.links@[j] == pre.links@[j],
                *self == (World { links: self.links, ..mid }),
        {
            let l = self.links[li];
            let na = self.nodes[l.n1() as usize];
            let nb = self.nodes[l.n2() as usize];
            if na.fixed() && nb.fixed() {
                let mut l2 = l;
                l2.set_dist(na.fixed_p.dist(&nb.fixed_p));
                self.links.set(li, l2);
            }
        }
        proof {
            assert(self.wf());
        }
    }

    /// The endpoints of link `li` that would be left dangling by its
    /// removal: an endpoint is queued when this link is its only one and it
    /// is not anchored by an axis lock.
    pub open spec fn newly_orphaned(self, link_idx: u32) -> Seq<u32> {
        let n1 = self.links@[link_idx as int].spec_n1();
        let n2 = self.links@[link_idx as int].spec_n2();
        let s1: Seq<u32> = if self.orphan_candidate(n1) {
            seq![n1]
        } else {
            Seq::empty()
        };
        let s2: Seq<u32> = if self.orphan_candidate(n2) {
            seq![n2]
        } else {
            Seq::empty()
        };
        s1 + s2
    }

    /// Not axis-fixed and joined to at most one link.
    pub open spec fn orphan_candidate(self, n: u32) -> bool {
        &&& !self.nodes@[n as int].spec_fixed_x()
        &&& !self.nodes@[n as int].spec_fixed_y()
        &&& self.node_links@[n as int]@.len() <= 1
    }

    /// Queue a link for removal; endpoints that would be left dangling are
    /// queued too.
    pub fn remove_link(&mut self, link_idx: u32)
        requires
            old(self).wf(),
            (link_idx as int) < old(self).n_links(),
        ensures
            final(self).link_remove_queue@ == old(self).link_remove_queue@.push(link_idx),
            final(self).node_remove_queue@ == old(self).node_remove_queue@ + old(
                self,
            ).newly_orphaned(link_idx),
            *final(self) == (World {
                node_remove_queue: final(self).node_remove_queue,
                link_remove_queue: final(self).link_remove_queue,
                ..*old(self)
            }),
            final(self).wf(),
    {
        let ghost pre = *old(self);
        self.link_remove_queue.push(link_idx);
        let n1 = self.links[link_idx as usize].n1();
        let node1 = &self.nodes[n1 as usize];
        if !(node1.fixed_x() || node1.fixed_y()) && self.node_links[n1 as usize].len() <= 1 {
            self.node_remove_queue.push(n1);
        }
        let n2 = self.links[link_idx as usize].n2();
        let node2 = &self.nodes[n2 as usize];
        if !(node2.fixed_x() || node2.fixed_y()) && self.node_links[n2 as usize].len() <= 1 {
            self.node_remove_queue.push(n2);
        }
        proof {
            assert(self.node_remove_queue@ =~= pre.node_remove_queue@ + pre.newly_orphaned(
                link_idx,
            ));
        }
    }

    /// Remove the link joining the two nodes, if there is one; asking to
    /// unlink a node from itself is ignored.
    pub fn unlink_nodes(&mut self, node1: u32, node2: u32)
        requires
            old(self).wf(),
            (node1 as int) < old(self).n_nodes(),
        ensures
            final(self).wf(),
            !old(self).has_link_between(node1, node2) || node1 == node2 ==> *final(self) == *old(
                self,
            ),
            old(self).has_link_between(node1, node2) && node1 != node2 ==> (exists|li: u32|
                (li as int) < old(self).n_links() && old(self).links@[li as int].connects(
                    node1,
                    node2,
                ) && final(self).link_remove_queue@ == old(self).link_remove_queue@.push(li)
                    && final(self).node_remove_queue@ == old(self).node_remove_queue@ + old(
                    self,
                ).newly_orphaned(li) && *final(self) == (World {
                    node_remove_queue: final(self).node_remove_queue,
                    link_remove_queue: final(self).link_remove_queue,
                    ..*old(self)
                })),
    {
        if node1 == node2 {
            return ;
        }
        if let Some(link) = self.nodes_link(node1, node2) {
            self.remove_link(link);
        }
    }

    /// The cascade of node removals caused by deleting `node_idx`, from the
    /// first `n` links: for each link touching it, the far endpoint is
    /// queued when it has at most one link and no axis lock.
    pub open spec fn cascade(self, node_idx: u32, n: int) -> Seq<u32>
        decreases n,
    {
        if n <= 0 {
            Seq::empty()
        } else {
            self.cascade(node_idx, n - 1) + self.cascade_one(node_idx, n - 1)
        }
    }

    /// The contribution of link `i` to the removal cascade of `node_idx`.
    pub open spec fn cascade_one(self, node_idx: u32, i: int) -> Seq<u32> {
        let l = self.links@[i];
        if l.spec_n1() == node_idx && self.orphan_candidate(l.spec_n2()) {
            seq![l.spec_n2()]
        } else if l.spec_n1() != node_idx && l.spec_n2() == node_idx && self.orphan_candidate(
            l.spec_n1(),
        ) {
            seq![l.spec_n1()]
        } else {
            Seq::empty()
        }
    }

    /// Queue a node for removal, cascading to neighbors that would be left
    /// dangling.
    pub fn remove_node(&mut self, node_idx: u32)
        requires
            old(self).wf(),
            (node_idx as int) < old(self).n_nodes(),
        ensures
            final(self).node_remove_queue@ == old(self).node_remove_queue@.push(node_idx) + old(
                self,
            ).cascade(node_idx, old(self).n_links()),
            *final(self) == (World {
                node_remove_queue: final(self).node_remove_queue,
                ..*old(self)
            }),
            final(self).wf(),
    {
        self.node_remove_queue.push(node_idx);
        let ghost pre = *old(self);
        let n = self.links.len();
        for i in 0..n
            invariant
                pre.wf(),
                (node_idx as int) < pre.n_nodes(),
                n == pre.n_links(),
                self.node_remove_queue@ == pre.node_remove_queue@.push(node_idx) + pre.cascade(
                    node_idx,
                    i as int,
                ),
                *self == (World { node_remove_queue: self.node_remove_queue, ..pre }),
                forall|qi: int|
                    0 <= qi < self.node_remove_queue@.len() ==> (
                    #[trigger] self.node_remove_queue@[qi] as int) < pre.n_nodes(),
        {
            let link = &self.links[i];
            if link.n1() == node_idx {
                let n2 = link.n2();
                let other = &self.nodes[n2 as usize];
                if self.node_links[n2 as usize].len() <= 1 && !(other.fixed_x()
                    || other.fixed_y()) {
                    self.node_remove_queue.push(n2);
                }
            } else if link.n2() == node_idx {
                let n1 = link.n1();
                let other = &self.nodes[n1 as usize];
                if self.node_links[n1 as usize].len() <= 1 && !(other.fixed_x()
                    || other.fixed_y()) {
                    self.node_remove_queue.push(n1);
                }
            }
            proof {
                assert(self.node_remove_queue@ =~= pre.node_remove_queue@.push(node_idx)
                    + pre.cascade(node_idx, i + 1));
            }
        }
        proof {
            assert(self.nodes_ok());
            assert(self.links_ok());
            assert(self.no_dup_links());
            assert(self.adj_ok());
            assert(self.queues_ok());
            assert(self.wf());
        }
    }
}

/// The signed distance used to pick links: the distance from `p` to the
/// segment `a`-`b`, with the projection parameter clamped to the segment.
pub open spec fn link_sdf(p: Vec2, a: Vec2, b: Vec2) -> i64 {
    let pa = p.spec_sub(a);
    let ba = b.spec_sub(a);
    let l2 = ba.spec_len2();
    let den: i64 = if l2 < 1 {
        1
    } else {
        l2
    };
    let h0 = fx_clip(fx_div_raw(pa.spec_dot(&ba) as int, den as int)) as i64;
    let h: i64 = if h0 < 0 {
        0
    } else if h0 > crate::fixed::FX_ONE {
        crate::fixed::FX_ONE
    } else {
        h0
    };
    pa.spec_sub(ba.spec_scale(h)).spec_len()
}

impl World {
    /// Linking an already joined pair again, in either order, is invalid,
    /// so `link_node` leaves the world unchanged: at most one link ever
    /// joins a pair.
    pub proof fn lemma_link_idempotent(self, a: u32, b: u32, l2: Link)
        requires
            self.has_link_between(a, b),
            l2.connects(a, b),
        ensures
            !self.link_valid(l2),
    {
        let i = choose|i: int|
            0 <= i < self.links@.len() && (#[trigger] self.links@[i]).connects(a, b);
        if l2.spec_n1() == b && l2.spec_n2() == a {
            assert(self.links@[i].connects(b, a));
        }
    }

    /// The node under the pointer: the first node at minimum distance from
    /// `(x, y)`, provided that distance is within the node radius in world
    /// units.
    #[verifier::loop_isolation(false)]
    pub fn point_inside_node(&mut self, x: i64, y: i64) -> (r: Option<u32>)
        requires
            old(self).wf(),
            fx_ok(x as int),
            fx_ok(y as int),
        ensures
            *final(self) == *old(self),
            ({
                let w = *old(self);
                let p = Vec2 { x, y };
                let thr = fx_clip(
                    fx_div_raw(
                        w.radius as int,
                        fx_clip(fx_mul_raw(w.radius as int, SCALE_K as int)),
                    ),
                );
                match r {
                    Some(i) => {
                        &&& (i as int) < w.n_nodes()
                        &&& w.nodes@[i as int].p.spec_dist(&p) <= thr
                        &&& forall|j: int|
                            0 <= j < i ==> (#[trigger] w.nodes@[j]).p.spec_dist(&p)
                                > w.nodes@[i as int].p.spec_dist(&p)
                        &&& forall|j: int|
                            i <= j < w.n_nodes() ==> (#[trigger] w.nodes@[j]).p.spec_dist(&p)
                                >= w.nodes@[i as int].p.spec_dist(&p)
                    },
                    None => forall|j: int|
                        0 <= j < w.n_nodes() ==> (#[trigger] w.nodes@[j]).p.spec_dist(&p) > thr,
                }
            }),
    {
        let p = Vec2 { x, y };
        let n = self.nodes.len();
        if n == 0 {
            return None;
        }
        let mut best: usize = 0;
        let mut bd = self.nodes[0].p.dist(&p);
        let mut i: usize = 1;
        while i < n
            invariant
                1 <= i <= n,
                best < i,
                bd == self.nodes@[best as int].p.spec_dist(&p),
                forall|j: int|
                    0 <= j < best ==> (#[trigger] self.nodes@[j]).p.spec_dist(&p) > bd,
                forall|j: int| 0 <= j < i ==> (#[trigger] self.nodes@[j]).p.spec_dist(&p) >= bd,
            decreases n - i,
        {
            let d = self.nodes[i].p.dist(&p);
            if d < bd {
                best = i;
                bd = d;
            }
            i = i + 1;
        }
        let scale = self.scale();
        let thr = fx_div(self.radius, scale);
        if bd <= thr {
            Some(best as u32)
        } else {
            None
        }
    }

    /// The link under the pointer: the first link whose segment passes
    /// within the link width in world units of `(x, y)`.
    #[verifier::loop_isolation(false)]
    pub fn point_inside_link(&self, x: i64, y: i64) -> (r: Option<u32>)
        requires
            self.wf(),
            fx_ok(x as int),
            fx_ok(y as int),
        ensures
            ({
                let p = Vec2 { x, y };
                let thr = fx_clip(
                    fx_div_raw(
                        fx_clip(fx_mul_raw(self.radius as int, LINK_WIDTH_K as int)),
                        fx_clip(fx_mul_raw(self.radius as int, SCALE_K as int)),
                    ),
                );
                match r {
                    Some(i) => {
                        &&& (i as int) < self.n_links()
                        &&& link_sdf(
                            p,
                            self.nodes@[self.links@[i as int].spec_n1() as int].p,
                            self.nodes@[self.links@[i as int].spec_n2() as int].p,
                        ) <= thr
                        &&& forall|j: int|
                            0 <= j < i ==> link_sdf(
                                p,
                                self.nodes@[(#[trigger] self.links@[j]).spec_n1() as int].p,
                                self.nodes@[self.links@[j].spec_n2() as int].p,
                            ) > thr
                    },
                    None => forall|j: int|
                        0 <= j < self.n_links() ==> link_sdf(
                            p,
                            self.nodes@[(#[trigger] self.links@[j]).spec_n1() as int].p,
                            self.nodes@[self.links@[j].spec_n2() as int].p,
                        ) > thr,
                }
            }),
    {
        let p = Vec2 { x, y };
        let scale = self.scale();
        let thr = fx_div(self.link_width(), scale);
        let m = self.links.len();
        let mut i: usize = 0;
        while i < m
            invariant
                i <= m,
                m == self.n_links(),
                forall|j: int|
                    0 <= j < i ==> link_sdf(
                        p,
                        self.nodes@[(#[trigger] self.links@[j]).spec_n1() as int].p,
                        self.nodes@[self.links@[j].spec_n2() as int].p,
                    ) > thr,
            decreases m - i,
        {
            let l = &self.links[i];
            let a = self.nodes[l.n1() as usize].p;
            let b = self.nodes[l.n2() as usize].p;
            let pa = p.sub(a);
            let ba = b.sub(a);
            let l2 = ba.len2();
            let den: i64 = if l2 < 1 {
                1
            } else {
                l2
            };
            let h0 = fx_div(pa.dot(&ba), den);
            let h: i64 = if h0 < 0 {
                0
            } else if h0 > crate::fixed::FX_ONE {
                crate::fixed::FX_ONE
            } else {
                h0
            };
            let d = pa.sub(ba.scale(h)).len();
            if d <= thr {
                return Some(i as u32);
            }
            i = i + 1;
        }
        None
    }
}

impl Default for World {
    /// The empty world at the default scale.
    fn default() -> (r: World)
        ensures
            r.nodes@.len() == 0,
            r.links@.len() == 0,
            r.radius == RADIUS_K,
            r.dt == 0,
            r.energy == 0,
            r.node_links@.len() == 0,
            r.node_remove_queue@.len() == 0,
            r.link_remove_queue@.len() == 0,
            r.wf(),
    {
        World {
            nodes: Vec::new(),
            links: Vec::new(),
            radius: RADIUS_K,
            dt: 0,
            energy: 0,
            node_links: Vec::new(),
            node_remove_queue: Vec::new(),
            link_remove_queue: Vec::new(),
        }
    }
}

} // verus!
