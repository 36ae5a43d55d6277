//! Extracting a standalone copy of part of the structure.
//!
//! `select` pulls out the requested nodes plus every node one link away,
//! with link endpoints renumbered into the extracted list; nodes pulled in
//! only as far endpoints keep no links of their own, so the extract never
//! dangles into the rest of the world. `select_moved` also translates the
//! extract so its bounding-box corner lands on a given point, and
//! `copy_nodes` appends the translated extract back into the world and
//! relinks it there.

use vstd::prelude::*;

use crate::fixed::{fx_ok, FX_MAX};
use crate::link::Link;
use crate::node::Node;
use crate::vec2::Vec2;
use crate::world::{any_connects, seq_has, World};

verus! {

/// A list of pairwise distinct indices below `n` has at most `n` entries.
pub proof fn lemma_distinct_bounded_len(s: Seq<u32>, n: int)
    requires
        0 <= n,
        forall|k: int| 0 <= k < s.len() ==> (#[trigger] s[k] as int) < n,
        forall|k1: int, k2: int| 0 <= k1 < k2 < s.len() ==> #[trigger] s[k1] != #[trigger] s[k2],
    ensures
        s.len() <= n,
{
    let m = s.map_values(|x: u32| x as int);
    assert(m.no_duplicates()) by {
        assert forall|k1: int, k2: int|
            0 <= k1 < k2 < m.len() implies #[trigger] m[k1] != #[trigger] m[k2] by {
            assert(s[k1] != s[k2]);
        }
    }
    m.unique_seq_to_set();
    assert(m.to_set().subset_of(vstd::set_lib::set_int_range(0, n))) by {
        assert forall|x: int| m.to_set().contains(x) implies vstd::set_lib::set_int_range(
            0,
            n,
        ).contains(x) by {
            let k = choose|k: int| 0 <= k < m.len() && #[trigger] m[k] == x;
            assert((s[k] as int) < n);
        }
    }
    vstd::set_lib::lemma_int_range(0, n);
    vstd::set_lib::lemma_len_subset(m.to_set(), vstd::set_lib::set_int_range(0, n));
}

/// The value is one of the world's nodes.
pub open spec fn is_world_node(w: World, nd: Node) -> bool {
    exists|i: int| 0 <= i < w.n_nodes() && #[trigger] w.nodes@[i] == nd
}

/// An extracted structure stands on its own: every link joins two distinct
/// in-range entries of the node list, with its scalars in range.
pub open spec fn extract_ok(ns: Seq<Node>, ls: Seq<Link>) -> bool {
    &&& forall|k: int| 0 <= k < ns.len() ==> (#[trigger] ns[k]).ok()
    &&& forall|li: int|
        0 <= li < ls.len() ==> {
            let l = #[trigger] ls[li];
            &&& l.ok()
            &&& l.spec_n1() != l.spec_n2()
            &&& (l.spec_n1() as int) < ns.len()
            &&& (l.spec_n2() as int) < ns.len()
        }
}

/// The index of the first occurrence of `v`, or the length when absent.
pub open spec fn first_pos(s: Seq<u32>, v: u32) -> int
    decreases s.len(),
{
    if s.len() == 0 {
        0
    } else if s[0] == v {
        0
    } else {
        1 + first_pos(s.drop_first(), v)
    }
}

/// `first_pos` names the first occurrence when one exists.
pub proof fn lemma_first_pos_found(s: Seq<u32>, v: u32, k: int)
    requires
        0 <= k < s.len(),
        s[k] == v,
        forall|j: int| 0 <= j < k ==> #[trigger] s[j] != v,
    ensures
        first_pos(s, v) == k,
    decreases k,
{
    if k > 0 {
        assert forall|j: int| 0 <= j < k - 1 implies #[trigger] s.drop_first()[j] != v by {
            assert(s.drop_first()[j] == s[j + 1]);
        }
        lemma_first_pos_found(s.drop_first(), v, k - 1);
    }
}

/// `first_pos` is the length when `v` is absent.
pub proof fn lemma_first_pos_absent(s: Seq<u32>, v: u32)
    requires
        forall|j: int| 0 <= j < s.len() ==> #[trigger] s[j] != v,
    ensures
        first_pos(s, v) == s.len(),
    decreases s.len(),
{
    if s.len() > 0 {
        assert forall|j: int| 0 <= j < s.drop_first().len() implies #[trigger] s.drop_first()[j]
            != v by {
            assert(s.drop_first()[j] == s[j + 1]);
        }
        lemma_first_pos_absent(s.drop_first(), v);
    }
}

/// The gathered index list and pulled-in marker list after walking the
/// first `t` adjacency entries of `idx`: each far endpoint not yet gathered
/// is appended to both.
pub open spec fn adj_pull(w: World, idx: u32, st: (Seq<u32>, Seq<u32>), t: int) -> (
    Seq<u32>,
    Seq<u32>,
)
    decreases t,
{
    if t <= 0 {
        st
    } else {
        let prev = adj_pull(w, idx, st, t - 1);
        let li = w.node_links@[idx as int]@[t - 1];
        let l = w.links@[li as int];
        let other = if l.spec_n1() == idx {
            l.spec_n2()
        } else {
            l.spec_n1()
        };
        if seq_has(prev.0, other as int) {
            prev
        } else {
            (prev.0.push(other), prev.1.push(other))
        }
    }
}

/// The gathered index list and pulled-in marker list after the first `q`
/// requests: each request not yet gathered is appended (as requested, not
/// pulled), then its whole neighborhood is pulled in.
pub open spec fn select_gather(w: World, req: Seq<u32>, q: int) -> (Seq<u32>, Seq<u32>)
    decreases q,
{
    if q <= 0 {
        (Seq::empty(), Seq::empty())
    } else {
        let prev = select_gather(w, req, q - 1);
        let idx = req[q - 1];
        let st1: (Seq<u32>, Seq<u32>) = if seq_has(prev.0, idx as int) {
            prev
        } else {
            (prev.0.push(idx), prev.1)
        };
        adj_pull(w, idx, st1, w.node_links@[idx as int]@.len() as int)
    }
}

/// The links emitted for the gathered node at position `k_pos` from its
/// first `t` adjacency entries: a link is kept when its far endpoint was
/// gathered, with both endpoints renumbered to gathered positions.
pub open spec fn links_for(w: World, sel: Seq<u32>, k_pos: int, idx: u32, t: int) -> Seq<Link>
    decreases t,
{
    if t <= 0 {
        Seq::empty()
    } else {
        let prev = links_for(w, sel, k_pos, idx, t - 1);
        let li = w.node_links@[idx as int]@[t - 1];
        let l = w.links@[li as int];
        if l.spec_n1() == idx {
            let p2 = first_pos(sel, l.spec_n2());
            if p2 < sel.len() {
                prev.push(l.spec_with_n1(k_pos as u32).spec_with_n2(p2 as u32))
            } else {
                prev
            }
        } else if l.spec_n2() == idx {
            let p1 = first_pos(sel, l.spec_n1());
            if p1 < sel.len() {
                prev.push(l.spec_with_n1(p1 as u32).spec_with_n2(k_pos as u32))
            } else {
                prev
            }
        } else {
            prev
        }
    }
}

/// The extracted link list over the first `k` gathered nodes: a node pulled
/// in only as a neighbor and never requested contributes nothing.
pub open spec fn select_links(
    w: World,
    sel: Seq<u32>,
    pulled: Seq<u32>,
    req: Seq<u32>,
    k: int,
) -> Seq<Link>
    decreases k,
{
    if k <= 0 {
        Seq::empty()
    } else {
        let prev = select_links(w, sel, pulled, req, k - 1);
        let idx = sel[k - 1];
        if seq_has(pulled, idx as int) && !seq_has(req, idx as int) {
            prev
        } else {
            prev + links_for(w, sel, k - 1, idx, w.node_links@[idx as int]@.len() as int)
        }
    }
}

/// The componentwise minimum of the first `k` positions, starting from the
/// largest representable corner.
pub open spec fn bbox_min(ns: Seq<Node>, k: int) -> Vec2
    decreases k,
{
    if k <= 0 {
        Vec2 { x: FX_MAX, y: FX_MAX }
    } else {
        bbox_min(ns, k - 1).spec_min(&ns[k - 1].p)
    }
}

/// What `select_moved` returns: the extract of `select`, every node
/// translated so the bounding-box minimum lands on `(x, y)`.
pub open spec fn moved_extract(w: World, req: Seq<u32>, x: i64, y: i64) -> (Seq<Node>, Seq<Link>) {
    let g = select_gather(w, req, req.len() as int);
    let ns = Seq::new(g.0.len(), |k: int| w.nodes@[g.0[k] as int]);
    let ls = select_links(w, g.0, g.1, req, g.0.len() as int);
    let m = bbox_min(ns, ns.len() as int);
    let dx = crate::fixed::fx_clip(x - m.x) as i64;
    let dy = crate::fixed::fx_clip(y - m.y) as i64;
    (Seq::new(ns.len(), |k: int| ns[k].spec_moved_by(dx, dy)), ls)
}

/// The links after re-inserting the first `k` extracted links with both
/// endpoints shifted past the old node count: each one the world accepts is
/// appended with its rest length remeasured, exactly as `link_node` does;
/// at the index-space cap nothing more is accepted.
pub open spec fn copy_relink(
    ns: Seq<Node>,
    base: Seq<Link>,
    ls: Seq<Link>,
    shift: u32,
    k: int,
) -> Seq<Link>
    decreases k,
{
    if k <= 0 {
        base
    } else {
        let prev = copy_relink(ns, base, ls, shift, k - 1);
        let l0 = ls[k - 1];
        let a = (l0.spec_n1() + shift) as u32;
        let b = (l0.spec_n2() + shift) as u32;
        if prev.len() < u32::MAX as int && a != b && (a as int) < ns.len() && (b as int)
            < ns.len() && !any_connects(prev, a, b) {
            prev.push(
                l0.spec_with_n1(a).spec_with_n2(b).spec_with_dist(
                    ns[a as int].p.spec_dist(&ns[b as int].p),
                ),
            )
        } else {
            prev
        }
    }
}

/// The position of `target` in the list, scanning from the front.
fn find_pos(v: &Vec<u32>, target: u32) -> (r: Option<usize>)
    ensures
        match r {
            Some(p) => (p as int) < v@.len() && v@[p as int] == target && p as int == first_pos(
                v@,
                target,
            ),
            None => !seq_has(v@, target as int) && first_pos(v@, target) == v@.len(),
        },
{
    let n = v.len();
    let mut k: usize = 0;
    while k < n
        invariant
            k <= n,
            n == v@.len(),
            forall|k2: int| 0 <= k2 < k ==> #[trigger] v@[k2] != target,
        decreases n - k,
    {
        if v[k] == target {
            proof {
                lemma_first_pos_found(v@, target, k as int);
            }
            return Some(k);
        }
        k = k + 1;
    }
    proof {
        lemma_first_pos_absent(v@, target);
        if seq_has(v@, target as int) {
            let k2 = choose|k2: int| 0 <= k2 < v@.len() && #[trigger] v@[k2] == target as int;
            assert(v@[k2] != target);
        }
    }
    None
}

impl World {
    /// Extract the requested nodes and their one-hop neighborhood. The
    /// returned links are renumbered into the returned node list; a node
    /// pulled in only as a neighbor contributes none of its own links. The
    /// world itself is left untouched.
    #[verifier::loop_isolation(false)]
    #[verifier::rlimit(60)]
    pub fn select(&mut self, nodes: &Vec<u32>) -> (r: (Vec<Node>, Vec<Link>))
        requires
            old(self).wf(),
            forall|k: int|
                0 <= k < nodes@.len() ==> ((#[trigger] nodes@[k]) as int) < old(self).n_nodes(),
        ensures
            *final(self) == *old(self),
            extract_ok(r.0@, r.1@),
            r.0@.len() <= old(self).n_nodes(),
            forall|k: int|
                0 <= k < r.0@.len() ==> is_world_node(*old(self), #[trigger] r.0@[k]),
            ({
                let g = select_gather(*old(self), nodes@, nodes@.len() as int);
                &&& r.0@.len() == g.0.len()
                &&& forall|k: int|
                    0 <= k < g.0.len() ==> ((#[trigger] g.0[k]) as int) < old(self).n_nodes()
                        && r.0@[k] == old(self).nodes@[g.0[k] as int]
                &&& r.1@ == select_links(*old(self), g.0, g.1, nodes@, g.0.len() as int)
            }),
    {
        let ghost pre = *self;
        let n = self.nodes.len();
        let mut requested: Vec<bool> = Vec::new();
        let mut picked: Vec<bool> = Vec::new();
        let mut pulled: Vec<bool> = Vec::new();
        let mut i: usize = 0;
        while i < n
            invariant
                i <= n,
                requested@.len() == i,
                picked@.len() == i,
                pulled@.len() == i,
                forall|o: int| 0 <= o < i ==> !(#[trigger] requested@[o]),
                forall|o: int| 0 <= o < i ==> !(#[trigger] picked@[o]),
                forall|o: int| 0 <= o < i ==> !(#[trigger] pulled@[o]),
            decreases n - i,
        {
            requested.push(false);
            picked.push(false);
            pulled.push(false);
            i = i + 1;
        }
        let qn = nodes.len();
        let mut q: usize = 0;
        let mut sel: Vec<u32> = Vec::new();
        let mut out_nodes: Vec<Node> = Vec::new();
        while q < qn
            invariant
                q <= qn,
                requested@.len() == n,
                picked@.len() == n,
                pulled@.len() == n,
                sel@.len() == out_nodes@.len(),
                sel@.len() <= n,
                sel@ == select_gather(pre, nodes@, q as int).0,
                forall|o: int|
                    0 <= o < n ==> (#[trigger] pulled@[o] <==> seq_has(
                        select_gather(pre, nodes@, q as int).1,
                        o,
                    )),
                forall|o: int|
                    0 <= o < n ==> (#[trigger] requested@[o] <==> seq_has(
                        nodes@.take(q as int),
                        o,
                    )),
                forall|k: int| 0 <= k < sel@.len() ==> ((#[trigger] sel@[k]) as int) < n,
                forall|k1: int, k2: int|
                    0 <= k1 < k2 < sel@.len() ==> #[trigger] sel@[k1] != #[trigger] sel@[k2],
                forall|o: int| 0 <= o < n ==> (#[trigger] picked@[o] <==> seq_has(sel@, o)),
                forall|k: int|
                    0 <= k < sel@.len() ==> #[trigger] out_nodes@[k] == self.nodes@[sel@[k] as int],
            decreases qn - q,
        {
            let idx = nodes[q];
            proof {
                assert(nodes@.take(q as int + 1) =~= nodes@.take(q as int).push(idx));
            }
            let ghost req0 = requested@;
            if !requested[idx as usize] {
                requested.set(idx as usize, true);
            }
            proof {
                assert forall|o: int|
                    0 <= o < n implies (#[trigger] requested@[o] <==> seq_has(
                    nodes@.take(q as int + 1),
                    o,
                )) by {
                    crate::flush::lemma_seq_has_push(nodes@.take(q as int), idx, o);
                }
            }
            let ghost sel0 = sel@;
            if !picked[idx as usize] {
                picked.set(idx as usize, true);
                sel.push(idx);
                out_nodes.push(self.nodes[idx as usize]);
                proof {
                    crate::flush::lemma_seq_has_push(sel0, idx, idx as int);
                    assert forall|o: int| 0 <= o < n implies (#[trigger] picked@[o] <==> seq_has(
                        sel@,
                        o,
                    )) by {
                        crate::flush::lemma_seq_has_push(sel0, idx, o);
                    }
                    assert forall|k1: int, k2: int|
                        0 <= k1 < k2 < sel@.len() implies #[trigger] sel@[k1]
                        != #[trigger] sel@[k2] by {
                        if k2 == sel0.len() && sel@[k1] == idx {
                            assert(seq_has(sel0, idx as int));
                        }
                    }
                    lemma_distinct_bounded_len(sel@, n as int);
                }
            }
            let ghost st1 = (sel@, select_gather(pre, nodes@, q as int).1);
            let adj_len = self.node_links[idx as usize].len();
            let mut t: usize = 0;
            while t < adj_len
                invariant
                    t <= adj_len,
                    adj_len == self.node_links@[idx as int]@.len(),
                    (idx as int) < n,
                    requested@.len() == n,
                    picked@.len() == n,
                    pulled@.len() == n,
                    sel@.len() == out_nodes@.len(),
                    sel@.len() <= n,
                    sel@ == adj_pull(pre, idx, st1, t as int).0,
                    forall|o: int|
                        0 <= o < n ==> (#[trigger] pulled@[o] <==> seq_has(
                            adj_pull(pre, idx, st1, t as int).1,
                            o,
                        )),
                    forall|k: int| 0 <= k < sel@.len() ==> ((#[trigger] sel@[k]) as int) < n,
                    forall|k1: int, k2: int|
                        0 <= k1 < k2 < sel@.len() ==> #[trigger] sel@[k1] != #[trigger] sel@[k2],
                    forall|o: int| 0 <= o < n ==> (#[trigger] picked@[o] <==> seq_has(sel@, o)),
                    forall|k: int|
                        0 <= k < sel@.len() ==> #[trigger] out_nodes@[k] == self.nodes@[
                            sel@[k] as int
                        ],
                decreases adj_len - t,
            {
                let li = self.node_links[idx as usize][t];
                proof {
                    assert(self.node_links@[idx as int]@[t as int] == li);
                }
                let link = &self.links[li as usize];
                let other = if link.n1() == idx {
                    link.n2()
                } else {
                    link.n1()
                };
                let ghost sel0 = sel@;
                let ghost pulled0 = adj_pull(pre, idx, st1, t as int).1;
                if !picked[other as usize] {
                    picked.set(other as usize, true);
                    pulled.set(other as usize, true);
                    sel.push(other);
                    out_nodes.push(self.nodes[other as usize]);
                    proof {
                        crate::flush::lemma_seq_has_push(sel0, other, other as int);
                        assert forall|o: int|
                            0 <= o < n implies (#[trigger] picked@[o] <==> seq_has(sel@, o)) by {
                            crate::flush::lemma_seq_has_push(sel0, other, o);
                        }
                        assert forall|k1: int, k2: int|
                            0 <= k1 < k2 < sel@.len() implies #[trigger] sel@[k1]
                            != #[trigger] sel@[k2] by {
                            if k2 == sel0.len() && sel@[k1] == other {
                                assert(seq_has(sel0, other as int));
                            }
                        }
                        lemma_distinct_bounded_len(sel@, n as int);
                    }
                }
                proof {
                    assert(sel@ == adj_pull(pre, idx, st1, t as int + 1).0);
                    assert forall|o: int|
                        0 <= o < n implies (#[trigger] pulled@[o] <==> seq_has(
                        adj_pull(pre, idx, st1, t as int + 1).1,
                        o,
                    )) by {
                        crate::flush::lemma_seq_has_push(pulled0, other, o);
                    }
                }
                t = t + 1;
            }
            q = q + 1;
        }
        // renumber each kept node's links into the extracted list
        proof {
            assert(nodes@.take(qn as int) =~= nodes@);
        }
        let ghost g = select_gather(pre, nodes@, qn as int);
        let sn = sel.len();
        let mut out_links: Vec<Link> = Vec::new();
        let mut k: usize = 0;
        while k < sn
            invariant
                k <= sn,
                sn == sel@.len(),
                sel@ == g.0,
                requested@.len() == n,
                pulled@.len() == n,
                forall|o: int| 0 <= o < n ==> (#[trigger] pulled@[o] <==> seq_has(g.1, o)),
                forall|o: int| 0 <= o < n ==> (#[trigger] requested@[o] <==> seq_has(nodes@, o)),
                out_nodes@.len() == sn,
                out_links@ == select_links(pre, g.0, g.1, nodes@, k as int),
                forall|k2: int| 0 <= k2 < sn ==> ((#[trigger] sel@[k2]) as int) < n,
                forall|k2: int|
                    0 <= k2 < sn ==> #[trigger] out_nodes@[k2] == self.nodes@[sel@[k2] as int],
                forall|li: int|
                    0 <= li < out_links@.len() ==> {
                        let l = #[trigger] out_links@[li];
                        &&& l.ok()
                        &&& l.spec_n1() != l.spec_n2()
                        &&& (l.spec_n1() as int) < sn
                        &&& (l.spec_n2() as int) < sn
                    },
            decreases sn - k,
        {
            let idx = sel[k];
            let skip = pulled[idx as usize] && !requested[idx as usize];
            let ghost base = out_links@;
            if !skip {
                let adj_len = self.node_links[idx as usize].len();
                let mut t: usize = 0;
                while t < adj_len
                    invariant
                        t <= adj_len,
                        adj_len == self.node_links@[idx as int]@.len(),
                        (idx as int) < n,
                        k < sn,
                        sel@ == g.0,
                        sel@[k as int] == idx,
                        out_nodes@.len() == sn,
                        out_links@ == base + links_for(pre, g.0, k as int, idx, t as int),
                        forall|li: int|
                            0 <= li < out_links@.len() ==> {
                                let l = #[trigger] out_links@[li];
                                &&& l.ok()
                                &&& l.spec_n1() != l.spec_n2()
                                &&& (l.spec_n1() as int) < sn
                                &&& (l.spec_n2() as int) < sn
                            },
                    decreases adj_len - t,
                {
                    let li = self.node_links[idx as usize][t];
                    proof {
                        assert(self.node_links@[idx as int]@[t as int] == li);
                    }
                    let mut link = self.links[li as usize];
                    if link.n1() == idx {
                        if let Some(p2) = find_pos(&sel, link.n2()) {
                            proof {
                                assert(sel@[p2 as int] == link.spec_n2());
                                assert(link.spec_n2() != idx);
                            }
                            link.set_n1(k as u32);
                            link.set_n2(p2 as u32);
                            out_links.push(link);
                        }
                    } else if link.n2() == idx {
                        if let Some(p1) = find_pos(&sel, link.n1()) {
                            proof {
                                assert(sel@[p1 as int] == link.spec_n1());
                                assert(link.spec_n1() != idx);
                            }
                            link.set_n1(p1 as u32);
                            link.set_n2(k as u32);
                            out_links.push(link);
                        }
                    }
                    proof {
                        assert(out_links@ =~= base + links_for(
                            pre,
                            g.0,
                            k as int,
                            idx,
                            t as int + 1,
                        ));
                    }
                    t = t + 1;
                }
            }
            proof {
                assert(out_links@ == select_links(pre, g.0, g.1, nodes@, k as int + 1));
            }
            k = k + 1;
        }
        proof {
            assert forall|k2: int| 0 <= k2 < out_nodes@.len() implies is_world_node(
                *old(self),
                #[trigger] out_nodes@[k2],
            ) by {
                assert(old(self).nodes@[sel@[k2] as int] == out_nodes@[k2]);
            }
        }
        (out_nodes, out_links)
    }

    /// Extract as `select` does, then translate the extract so the minimum
    /// corner of its bounding box lands on `(x, y)`.
    #[verifier::loop_isolation(false)]
    pub fn select_moved(&mut self, nodes: &Vec<u32>, x: i64, y: i64) -> (r: (Vec<Node>, Vec<Link>))
        requires
            old(self).wf(),
            forall|k: int|
                0 <= k < nodes@.len() ==> ((#[trigger] nodes@[k]) as int) < old(self).n_nodes(),
            fx_ok(x as int),
            fx_ok(y as int),
        ensures
            *final(self) == *old(self),
            extract_ok(r.0@, r.1@),
            r.0@.len() <= old(self).n_nodes(),
            r.0@ == moved_extract(*old(self), nodes@, x, y).0,
            r.1@ == moved_extract(*old(self), nodes@, x, y).1,
    {
        let ghost pre = *self;
        let (mut sel_nodes, sel_links) = self.select(nodes);
        let ghost base_nodes = sel_nodes@;
        proof {
            assert(base_nodes =~= Seq::new(
                select_gather(pre, nodes@, nodes@.len() as int).0.len(),
                |k: int| pre.nodes@[select_gather(pre, nodes@, nodes@.len() as int).0[k] as int],
            ));
        }
        let mut min = Vec2::splat(FX_MAX);
        let sn = sel_nodes.len();
        let mut i: usize = 0;
        while i < sn
            invariant
                i <= sn,
                sn == sel_nodes@.len(),
                sel_nodes@ == base_nodes,
                extract_ok(sel_nodes@, sel_links@),
                min == bbox_min(base_nodes, i as int),
                min.ok(),
            decreases sn - i,
        {
            min = min.min(&sel_nodes[i].p);
            i = i + 1;
        }
        let dx = crate::fixed::fx_sub(x, min.x);
        let dy = crate::fixed::fx_sub(y, min.y);
        let mut j: usize = 0;
        while j < sn
            invariant
                j <= sn,
                sn == sel_nodes@.len(),
                dx == crate::fixed::fx_clip(x - bbox_min(base_nodes, sn as int).x),
                dy == crate::fixed::fx_clip(y - bbox_min(base_nodes, sn as int).y),
                forall|k: int| 0 <= k < j ==> #[trigger] sel_nodes@[k] == base_nodes[
                    k
                ].spec_moved_by(dx, dy),
                forall|k: int| j <= k < sn ==> #[trigger] sel_nodes@[k] == base_nodes[k],
                extract_ok(sel_nodes@, sel_links@),
            decreases sn - j,
        {
            let mut nd = sel_nodes[j];
            nd.move_by(dx, dy);
            sel_nodes.set(j, nd);
            j = j + 1;
        }
        proof {
            assert(sel_nodes@ =~= moved_extract(pre, nodes@, x, y).0);
        }
        (sel_nodes, sel_links)
    }

    /// Append a translated copy of the selection into the world, relinking
    /// the copied links between the appended nodes. Links that would exceed
    /// the index space are dropped.
    #[verifier::loop_isolation(false)]
    pub fn copy_nodes(&mut self, nodes: &Vec<u32>, x: i64, y: i64)
        requires
            old(self).wf(),
            forall|k: int|
                0 <= k < nodes@.len() ==> ((#[trigger] nodes@[k]) as int) < old(self).n_nodes(),
            fx_ok(x as int),
            fx_ok(y as int),
            old(self).n_nodes() * 2 <= u32::MAX as int,
        ensures
            final(self).wf(),
            final(self).n_nodes() >= old(self).n_nodes(),
            forall|i: int|
                0 <= i < old(self).n_nodes() ==> #[trigger] final(self).nodes@[i] == old(
                    self,
                ).nodes@[i],
            final(self).n_links() >= old(self).n_links(),
            forall|li: int|
                0 <= li < old(self).n_links() ==> #[trigger] final(self).links@[li] == old(
                    self,
                ).links@[li],
            // every copied link joins two appended nodes
            forall|li: int|
                old(self).n_links() <= li < final(self).n_links() ==> ((
                #[trigger] final(self).links@[li]).spec_n1() as int) >= old(self).n_nodes() && (
                final(self).links@[li].spec_n2() as int) >= old(self).n_nodes(),
            final(self).radius == old(self).radius,
            final(self).dt == old(self).dt,
            final(self).energy == old(self).energy,
            final(self).node_remove_queue == old(self).node_remove_queue,
            final(self).link_remove_queue == old(self).link_remove_queue,
            final(self).nodes@ == old(self).nodes@ + moved_extract(*old(self), nodes@, x, y).0,
            final(self).links@ == copy_relink(
                final(self).nodes@,
                old(self).links@,
                moved_extract(*old(self), nodes@, x, y).1,
                old(self).n_nodes() as u32,
                moved_extract(*old(self), nodes@, x, y).1.len() as int,
            ),
    {
        let ghost pre = *old(self);
        let (sel_nodes, sel_links) = self.select_moved(nodes, x, y);
        proof {
            assert(sel_nodes@ == moved_extract(pre, nodes@, x, y).0);
            assert(sel_links@ == moved_extract(pre, nodes@, x, y).1);
        }
        let len = self.nodes.len() as u32;
        let sn = sel_nodes.len();
        let mut i: usize = 0;
        while i < sn
            invariant
                i <= sn,
                sn == sel_nodes@.len(),
                sn <= pre.n_nodes(),
                extract_ok(sel_nodes@, sel_links@),
                len == pre.n_nodes(),
                self.wf(),
                self.nodes@.len() == pre.n_nodes() + i,
                self.nodes@ == pre.nodes@ + sel_nodes@.take(i as int),
                forall|j: int| 0 <= j < pre.n_nodes() ==> #[trigger] self.nodes@[j] == pre.nodes@[j],
                self.links == pre.links,
                self.radius == pre.radius,
                self.dt == pre.dt,
                self.energy == pre.energy,
                self.node_remove_queue == pre.node_remove_queue,
                self.link_remove_queue == pre.link_remove_queue,
            decreases sn - i,
        {
            let ghost before_add = self.nodes@;
            self.add(sel_nodes[i]);
            proof {
                assert(self.nodes@ =~= pre.nodes@ + sel_nodes@.take(i as int + 1));
            }
            i = i + 1;
        }
        proof {
            assert(sel_nodes@.take(sn as int) =~= sel_nodes@);
        }
        let ghost grown = *self;
        let m = sel_links.len();
        let mut t: usize = 0;
        while t < m
            invariant
                t <= m,
                m == sel_links@.len(),
                sn == sel_nodes@.len(),
                sn <= pre.n_nodes(),
                extract_ok(sel_nodes@, sel_links@),
                len == pre.n_nodes(),
                grown.n_nodes() == pre.n_nodes() + sn,
                grown.nodes@ == pre.nodes@ + sel_nodes@,
                self.wf(),
                self.nodes == grown.nodes,
                self.links@ == copy_relink(grown.nodes@, pre.links@, sel_links@, len, t as int),
                self.links@.len() >= pre.n_links(),
                forall|j: int|
                    0 <= j < pre.n_links() ==> #[trigger] self.links@[j] == pre.links@[j],
                forall|li: int|
                    pre.n_links() <= li < self.n_links() ==> ((
                    #[trigger] self.links@[li]).spec_n1() as int) >= pre.n_nodes() && (
                    self.links@[li].spec_n2() as int) >= pre.n_nodes(),
                self.radius == pre.radius,
                self.dt == pre.dt,
                self.energy == pre.energy,
                self.node_remove_queue == pre.node_remove_queue,
                self.link_remove_queue == pre.link_remove_queue,
            decreases m - t,
        {
            let mut l = sel_links[t];
            let a = l.n1() + len;
            let b = l.n2() + len;
            l.set_n1(a);
            l.set_n2(b);
            let ghost relinked0 = self.links@;
            if self.links.len() < u32::MAX as usize {
                let ghost before = *self;
                self.link_node(l);
                proof {
                    if before.link_valid(l) {
                        assert(self.links@ == before.links@.push(
                            l.spec_with_dist(
                                before.nodes@[l.spec_n1() as int].p.spec_dist(
                                    &before.nodes@[l.spec_n2() as int].p,
                                ),
                            ),
                        ));
                    }
                }
            }
            proof {
                assert(self.links@ == copy_relink(
                    grown.nodes@,
                    pre.links@,
                    sel_links@,
                    len,
                    t as int + 1,
                ));
            }
            t = t + 1;
        }
    }
}

} // verus!
