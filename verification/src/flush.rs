//! Applying queued removals: the compaction pass.
//!
//! `flush` deduplicates the removal queues, swap-removes the queued nodes
//! (dragging the last node into each freed slot), removes every queued link
//! and every link that touched a removed node, compacts the links, remaps
//! surviving link endpoints, rebuilds the adjacency index from scratch, and
//! returns the list of `(old index, new index)` node moves so that callers
//! holding external indices can follow their nodes.
//!
//! The contract ties the whole pass together: applying the returned swap
//! list to any surviving node's old index yields its new index, with the
//! same node data there, and the surviving links are exactly the old links
//! that lost neither endpoint, with both endpoints remapped the same way.

use vstd::prelude::*;

use crate::link::Link;
use crate::world::{seq_has, World};

verus! {

/// Position marker for a removed node while compacting.
pub const GONE: u32 = u32::MAX;

/// Follow a swap list: the new index paired with `o`, or `o` itself when no
/// pair names it.
pub open spec fn apply_swaps(swaps: Seq<(u32, u32)>, o: u32) -> u32
    decreases swaps.len(),
{
    if swaps.len() == 0 {
        o
    } else if swaps[0].0 == o {
        swaps[0].1
    } else {
        apply_swaps(swaps.drop_first(), o)
    }
}

/// When the old indices in a swap list are pairwise distinct, following the
/// list is a plain lookup.
pub proof fn lemma_apply_swaps(swaps: Seq<(u32, u32)>, o: u32)
    requires
        forall|i: int, j: int|
            0 <= i < j < swaps.len() ==> (#[trigger] swaps[i]).0 != (#[trigger] swaps[j]).0,
    ensures
        forall|i: int|
            0 <= i < swaps.len() && (#[trigger] swaps[i]).0 == o ==> apply_swaps(swaps, o)
                == swaps[i].1,
        (forall|i: int| 0 <= i < swaps.len() ==> (#[trigger] swaps[i]).0 != o) ==> apply_swaps(
            swaps,
            o,
        ) == o,
    decreases swaps.len(),
{
    if swaps.len() > 0 {
        lemma_apply_swaps(swaps.drop_first(), o);
        assert forall|i: int|
            0 <= i < swaps.len() && (#[trigger] swaps[i]).0 == o implies apply_swaps(swaps, o)
            == swaps[i].1 by {
            if i > 0 {
                assert(swaps.drop_first()[i - 1] == swaps[i]);
                assert(swaps[0].0 != swaps[i].0);
            }
        }
        if forall|i: int| 0 <= i < swaps.len() ==> (#[trigger] swaps[i]).0 != o {
            assert(swaps[0].0 != o);
            assert forall|i: int| 0 <= i < swaps.drop_first().len() implies (
            #[trigger] swaps.drop_first()[i]).0 != o by {
                assert(swaps.drop_first()[i] == swaps[i + 1]);
            }
        }
    }
}

/// Membership in a pushed sequence: the old members plus the new value.
pub proof fn lemma_seq_has_push(s: Seq<u32>, v: u32, o: int)
    ensures
        seq_has(s.push(v), o) <==> (seq_has(s, o) || o == v as int),
{
    if seq_has(s.push(v), o) {
        let k = choose|k: int| 0 <= k < s.push(v).len() && #[trigger] s.push(v)[k] == o;
        if k < s.len() {
            assert(s[k] == o);
        }
    }
    if seq_has(s, o) {
        let k = choose|k: int| 0 <= k < s.len() && #[trigger] s[k] == o;
        assert(s.push(v)[k] == o);
    }
    if o == v as int {
        assert(s.push(v)[s.len() as int] == o);
    }
}

/// Some surviving node of `pre` lands on index `c` after the flush that
/// returned `swaps`.
pub open spec fn some_origin(pre: World, swaps: Seq<(u32, u32)>, c: int) -> bool {
    exists|o: u32|
        (o as int) < pre.n_nodes() && !pre.node_queued(o as int) && ((#[trigger] apply_swaps(
            swaps,
            o,
        )) as int) == c
}

/// Some compacted link equals link `li` of `pre` with remapped endpoints.
pub open spec fn kept_link_exists(pre: World, post: World, swaps: Seq<(u32, u32)>, li: int) -> bool {
    exists|c2: int|
        0 <= c2 < post.n_links() && #[trigger] post.links@[c2] == pre.remapped_link(swaps, li)
}

/// The link value `l` is a surviving link of `pre` with remapped endpoints.
pub open spec fn link_origin(pre: World, swaps: Seq<(u32, u32)>, l: Link) -> bool {
    exists|li: int|
        0 <= li < pre.n_links() && !pre.link_doomed(li) && l == #[trigger] pre.remapped_link(
            swaps,
            li,
        )
}

/// Sending a link's endpoints through an empty swap list changes nothing.
pub proof fn lemma_remap_identity(w: World, li: int)
    requires
        0 <= li < w.n_links(),
    ensures
        w.remapped_link(Seq::<(u32, u32)>::empty(), li) == w.links@[li],
{
    let l = w.links@[li];
    match l {
        Link::Link { .. } => {},
        Link::Rope { .. } => {},
        Link::Hydraulic { .. } => {},
        Link::Spring { .. } => {},
    }
}

impl World {
    /// Node `o` is queued for removal.
    pub open spec fn node_queued(self, o: int) -> bool {
        seq_has(self.node_remove_queue@, o)
    }

    /// Link `li` will not survive the next flush: it is queued itself, or
    /// one of its endpoints is a queued node.
    pub open spec fn link_doomed(self, li: int) -> bool {
        ||| seq_has(self.link_remove_queue@, li)
        ||| self.node_queued(self.links@[li].spec_n1() as int)
        ||| self.node_queued(self.links@[li].spec_n2() as int)
    }

    /// Link `li` with both endpoints sent through the swap list.
    pub open spec fn remapped_link(self, swaps: Seq<(u32, u32)>, li: int) -> Link {
        self.links@[li].spec_with_n1(apply_swaps(swaps, self.links@[li].spec_n1())).spec_with_n2(
            apply_swaps(swaps, self.links@[li].spec_n2()),
        )
    }

    /// Apply every queued removal and compact the arrays. Returns the node
    /// moves performed: pairs `(old index, new index)`, with pairwise
    /// distinct old indices, covering exactly the surviving nodes whose
    /// index changed.
    #[verifier::loop_isolation(false)]
    #[verifier::rlimit(100)]
    pub fn flush(&mut self) -> (swaps: Vec<(u32, u32)>)
        requires
            old(self).wf(),
        ensures
            final(self).wf(),
            final(self).node_remove_queue@.len() == 0,
            final(self).link_remove_queue@.len() == 0,
            final(self).radius == old(self).radius,
            final(self).dt == old(self).dt,
            final(self).energy == old(self).energy,
            forall|i: int, j: int|
                0 <= i < j < swaps@.len() ==> (#[trigger] swaps@[i]).0 != (#[trigger] swaps@[j]).0,
            // every surviving node keeps its data at the index the swap list names
            forall|o: int|
                0 <= o < old(self).n_nodes() && !old(self).node_queued(o) ==> {
                    let c = apply_swaps(swaps@, o as u32) as int;
                    0 <= c < final(self).n_nodes() && final(self).nodes@[c] == old(self).nodes@[o]
                },
            // distinct survivors land on distinct indices
            forall|o1: int, o2: int|
                0 <= o1 < o2 < old(self).n_nodes() && !old(self).node_queued(o1) && !old(
                    self,
                ).node_queued(o2) ==> apply_swaps(swaps@, o1 as u32) != apply_swaps(
                    swaps@,
                    o2 as u32,
                ),
            // every new index is some survivor's new home
            forall|c: int|
                0 <= c < final(self).n_nodes() ==> #[trigger] some_origin(*old(self), swaps@, c),
            // every link that loses no endpoint survives, remapped
            forall|li: int|
                0 <= li < old(self).n_links() && !(#[trigger] old(self).link_doomed(li))
                    ==> kept_link_exists(*old(self), *final(self), swaps@, li),
            // and every surviving link is such a remapped old link
            forall|c2: int|
                0 <= c2 < final(self).n_links() ==> link_origin(
                    *old(self),
                    swaps@,
                    #[trigger] final(self).links@[c2],
                ),
            // with nothing queued, flushing is a no-op
            old(self).node_remove_queue@.len() == 0 && old(self).link_remove_queue@.len() == 0
                ==> *final(self) == *old(self) && swaps@.len() == 0,
    {
        let ghost pre = *old(self);
        let n = self.nodes.len();
        let m = self.links.len();
        if self.node_remove_queue.len() == 0 && self.link_remove_queue.len() == 0 {
            proof {
                assert forall|o2: int|
                    0 <= o2 < pre.n_nodes() && !pre.node_queued(o2) implies {
                    let c = apply_swaps(Seq::<(u32, u32)>::empty(), o2 as u32) as int;
                    0 <= c < pre.n_nodes() && pre.nodes@[c] == pre.nodes@[o2]
                } by {
                    assert((o2 as u32) as int == o2);
                }
                assert forall|c: int| 0 <= c < pre.n_nodes() implies #[trigger] some_origin(
                    pre,
                    Seq::<(u32, u32)>::empty(),
                    c,
                ) by {
                    let o = c as u32;
                    assert(apply_swaps(Seq::<(u32, u32)>::empty(), o) == o);
                    assert(!pre.node_queued(o as int)) by {
                        if seq_has(pre.node_remove_queue@, o as int) {
                            let k = choose|k: int|
                                0 <= k < pre.node_remove_queue@.len()
                                    && #[trigger] pre.node_remove_queue@[k] == o as int;
                        }
                    }
                }
                assert forall|li: int|
                    0 <= li < pre.n_links() && !(#[trigger] pre.link_doomed(
                        li,
                    )) implies kept_link_exists(pre, pre, Seq::<(u32, u32)>::empty(), li) by {
                    lemma_remap_identity(pre, li);
                    assert(pre.links@[li] == pre.remapped_link(Seq::<(u32, u32)>::empty(), li));
                }
                assert forall|c2: int| 0 <= c2 < pre.n_links() implies link_origin(
                    pre,
                    Seq::<(u32, u32)>::empty(),
                    #[trigger] pre.links@[c2],
                ) by {
                    lemma_remap_identity(pre, c2);
                    assert(!pre.link_doomed(c2)) by {
                        if seq_has(pre.link_remove_queue@, c2) {
                            let k = choose|k: int|
                                0 <= k < pre.link_remove_queue@.len()
                                    && #[trigger] pre.link_remove_queue@[k] == c2;
                        }
                        if pre.node_queued(pre.links@[c2].spec_n1() as int) {
                            let k = choose|k: int|
                                0 <= k < pre.node_remove_queue@.len()
                                    && #[trigger] pre.node_remove_queue@[k] == pre.links@[
                                c2
                            ].spec_n1() as int;
                        }
                        if pre.node_queued(pre.links@[c2].spec_n2() as int) {
                            let k = choose|k: int|
                                0 <= k < pre.node_remove_queue@.len()
                                    && #[trigger] pre.node_remove_queue@[k] == pre.links@[
                                c2
                            ].spec_n2() as int;
                        }
                    }
                }
            }
            return Vec::new();
        }

        // Deduplicate the node queue, keeping first occurrences in order.
        let mut seen: Vec<bool> = Vec::new();
        let mut i: usize = 0;
        while i < n
            invariant
                i <= n,
                seen@.len() == i,
                forall|o: int| 0 <= o < i ==> !(#[trigger] seen@[o]),
            decreases n - i,
        {
            seen.push(false);
            i = i + 1;
        }
        let mut queue_d: Vec<u32> = Vec::new();
        let qn = self.node_remove_queue.len();
        let ghost nq = pre.node_remove_queue@;
        let mut qi: usize = 0;
        while qi < qn
            invariant
                qi <= qn,
                seen@.len() == n,
                forall|o: int| 0 <= o < n ==> #[trigger] seen@[o] == seq_has(nq.take(qi as int), o),
                forall|k: int| 0 <= k < queue_d@.len() ==> (#[trigger] queue_d@[k] as int) < n,
                forall|k1: int, k2: int|
                    0 <= k1 < k2 < queue_d@.len() ==> #[trigger] queue_d@[k1]
                        != #[trigger] queue_d@[k2],
                forall|o: int| seq_has(nq.take(qi as int), o) <==> seq_has(queue_d@, o),
            decreases qn - qi,
        {
            let q = self.node_remove_queue[qi];
            let ghost t0 = nq.take(qi as int);
            let ghost t1 = nq.take(qi as int + 1);
            proof {
                assert(t1 =~= t0.push(q));
            }
            let ghost qd0 = queue_d@;
            let was_seen = seen[q as usize];
            if !was_seen {
                seen.set(q as usize, true);
                queue_d.push(q);
            }
            proof {
                assert forall|o: int| seq_has(t1, o) <==> seq_has(queue_d@, o) by {
                    lemma_seq_has_push(t0, q, o);
                    if !was_seen {
                        lemma_seq_has_push(qd0, q, o);
                    } else {
                        assert(seq_has(t0, q as int));
                    }
                }
                assert forall|o: int| 0 <= o < n implies #[trigger] seen@[o] == seq_has(
                    t1,
                    o,
                ) by {
                    lemma_seq_has_push(t0, q, o);
                    if was_seen {
                        assert(seq_has(t0, q as int));
                    }
                }
                assert forall|k: int|
                    0 <= k < queue_d@.len() implies (#[trigger] queue_d@[k] as int) < n by {
                    if k >= qd0.len() {
                        assert(queue_d@[k] == q);
                    }
                }
                assert forall|k1: int, k2: int|
                    0 <= k1 < k2 < queue_d@.len() implies #[trigger] queue_d@[k1]
                    != #[trigger] queue_d@[k2] by {
                    if !was_seen && k2 == qd0.len() {
                        assert(!seq_has(qd0, q as int));
                        if queue_d@[k1] == q {
                            assert(qd0[k1] == q);
                            assert(seq_has(qd0, q as int));
                        }
                    }
                }
            }
            qi = qi + 1;
        }
        proof {
            assert(nq.take(qn as int) == nq);
        }

        // Swap-remove each queued node, tracking where every original node
        // went: pos maps old index to current position (or GONE), orig maps
        // current position back to the old index.
        let mut pos: Vec<u32> = Vec::new();
        let mut orig: Vec<u32> = Vec::new();
        let mut c: usize = 0;
        while c < n
            invariant
                c <= n,
                pos@.len() == c,
                orig@.len() == c,
                forall|o: int| 0 <= o < c ==> #[trigger] pos@[o] == o as u32,
                forall|o: int| 0 <= o < c ==> #[trigger] orig@[o] == o as u32,
            decreases n - c,
        {
            pos.push(c as u32);
            orig.push(c as u32);
            c = c + 1;
        }
        let dn = queue_d.len();
        let ghost qd = queue_d@;
        let mut j: usize = 0;
        while j < dn
            invariant
                j <= dn,
                pos@.len() == n,
                self.nodes@.len() + j == n,
                orig@.len() == self.nodes@.len(),
                *self == (World { nodes: self.nodes, ..pre }),
                forall|c2: int|
                    0 <= c2 < orig@.len() ==> {
                        let o = #[trigger] orig@[c2] as int;
                        0 <= o < n && pos@[o] == c2 as u32 && self.nodes@[c2] == pre.nodes@[o]
                            && !seq_has(qd.take(j as int), o)
                    },
                forall|o: int|
                    0 <= o < n ==> (if seq_has(qd.take(j as int), o) {
                        #[trigger] pos@[o] == GONE
                    } else {
                        (pos@[o] as int) < orig@.len() && orig@[pos@[o] as int] == o as u32
                    }),
            decreases dn - j,
        {
            let q = queue_d[j];
            proof {
                assert(seq_has(qd, q as int));
                assert(!seq_has(qd.take(j as int), q as int)) by {
                    if seq_has(qd.take(j as int), q as int) {
                        let k = choose|k: int|
                            0 <= k < j && #[trigger] qd.take(j as int)[k] == q as int;
                        assert(qd[k] == qd[j as int]);
                    }
                }
            }
            let cur = pos[q as usize];
            let last = self.nodes.len() - 1;
            let moved = orig[last];
            let ghost pos0 = pos@;
            let ghost orig0 = orig@;
            self.nodes.swap_remove(cur as usize);
            orig.swap_remove(cur as usize);
            if (cur as usize) != last {
                pos.set(moved as usize, cur);
            }
            pos.set(q as usize, GONE);
            proof {
                let t1 = qd.take(j as int + 1);
                assert(t1 =~= qd.take(j as int).push(q));
                assert(orig0[cur as int] == q);
                if (cur as usize) != last {
                    assert(moved != q) by {
                        assert(orig0[last as int] == moved);
                        assert(pos0[moved as int] == last as u32);
                    }
                }
                assert forall|c2: int|
                    0 <= c2 < orig@.len() implies {
                    let o = #[trigger] orig@[c2] as int;
                    0 <= o < n && pos@[o] == c2 as u32 && self.nodes@[c2] == pre.nodes@[o]
                        && !seq_has(t1, o)
                } by {
                    let o = orig@[c2] as int;
                    if c2 == cur as int {
                        assert(orig@[c2] == moved);
                    } else {
                        assert(orig@[c2] == orig0[c2]);
                    }
                    lemma_seq_has_push(qd.take(j as int), q, o);
                    assert(o != q as int) by {
                        if c2 == cur as int {
                            assert((cur as usize) != last);
                        }
                        assert(pos0[orig0[c2] as int] == c2 as u32 || (c2 == cur as int && orig@[c2]
                            == moved));
                    }
                }
                assert forall|o: int|
                    0 <= o < n implies (if seq_has(t1, o) {
                    #[trigger] pos@[o] == GONE
                } else {
                    (pos@[o] as int) < orig@.len() && orig@[pos@[o] as int] == o as u32
                }) by {
                    lemma_seq_has_push(qd.take(j as int), q, o);
                    if seq_has(t1, o) {
                        if o == q as int {
                        } else {
                            assert(seq_has(qd.take(j as int), o));
                            assert(pos0[o] == GONE);
                            assert(o != moved as int || (cur as usize) == last) by {
                                if o == moved as int && (cur as usize) != last {
                                    assert(pos0[moved as int] == last as u32);
                                }
                            }
                        }
                    } else {
                        if o == moved as int && (cur as usize) != last {
                            assert(pos@[o] == cur);
                            assert(orig@[cur as int] == moved);
                        } else {
                            assert(pos@[o] == pos0[o]);
                            assert((pos0[o] as int) < orig0.len() && orig0[pos0[o] as int] == o
                                as u32);
                            assert((pos0[o] as int) != cur as int) by {
                                if (pos0[o] as int) == cur as int {
                                    assert(orig0[cur as int] == o as u32);
                                }
                            }
                            assert((pos0[o] as int) != last as int) by {
                                if (pos0[o] as int) == last as int {
                                    assert(orig0[last as int] == o as u32);
                                }
                            }
                            assert(orig@[pos@[o] as int] == orig0[pos0[o] as int]);
                        }
                    }
                }
            }
            j = j + 1;
        }
        proof {
            assert(qd.take(dn as int) == qd);
        }
        self.node_remove_queue.clear();
        let ghost mid1 = *self;

        proof {
            assert forall|o: int| 0 <= o < n implies ((#[trigger] pos@[o] == GONE) <==> seq_has(
                nq,
                o,
            )) by {
                if !seq_has(qd, o) {
                    assert((pos@[o] as int) < orig@.len());
                }
            }
        }

        // A link dies when it was queued or either endpoint is gone.
        let mut gone_link: Vec<bool> = Vec::new();
        let mut li: usize = 0;
        while li < m
            invariant
                li <= m,
                gone_link@.len() == li,
                forall|k: int|
                    0 <= k < li ==> #[trigger] gone_link@[k] == (pos@[pre.links@[k].spec_n1() as int]
                        == GONE || pos@[pre.links@[k].spec_n2() as int] == GONE),
            decreases m - li,
        {
            let l = &self.links[li];
            let dead = pos[l.n1() as usize] == GONE || pos[l.n2() as usize] == GONE;
            gone_link.push(dead);
            li = li + 1;
        }
        let qm = self.link_remove_queue.len();
        let ghost lq = pre.link_remove_queue@;
        let mut qj: usize = 0;
        while qj < qm
            invariant
                qj <= qm,
                gone_link@.len() == m,
                forall|k: int| 0 <= k < m ==> (#[trigger] gone_link@[k] ==> pre.link_doomed(k)),
                forall|k: int|
                    0 <= k < m ==> ((pos@[pre.links@[k].spec_n1() as int] == GONE || pos@[
                        pre.links@[k].spec_n2() as int
                    ] == GONE) ==> #[trigger] gone_link@[k]),
                forall|k: int|
                    0 <= k < m ==> (seq_has(lq.take(qj as int), k) ==> #[trigger] gone_link@[k]),
            decreases qm - qj,
        {
            let k = self.link_remove_queue[qj];
            let ghost g0 = gone_link@;
            gone_link.set(k as usize, true);
            proof {
                assert(lq[qj as int] == k);
                assert(seq_has(lq, k as int));
                assert(lq.take(qj as int + 1) =~= lq.take(qj as int).push(k));
                assert forall|k2: int|
                    0 <= k2 < m && seq_has(lq.take(qj as int + 1), k2) implies #[trigger] gone_link@[
                    k2
                ] by {
                    lemma_seq_has_push(lq.take(qj as int), k, k2);
                    if k2 != k as int {
                        assert(g0[k2]);
                    }
                }
            }
            qj = qj + 1;
        }
        proof {
            assert(lq.take(qm as int) == lq);
            assert forall|k: int| 0 <= k < m implies (#[trigger] gone_link@[k] == pre.link_doomed(
                k,
            )) by {
                if pre.link_doomed(k) && !seq_has(lq, k) {
                    assert(pos@[pre.links@[k].spec_n1() as int] == GONE || pos@[
                        pre.links@[k].spec_n2() as int
                    ] == GONE);
                }
            }
        }
        self.link_remove_queue.clear();
        let ghost mid2 = *self;

        // Compact the links from the top down, so a swap never disturbs an
        // index still to be visited.
        let mut orig2: Vec<u32> = Vec::new();
        let mut c2: usize = 0;
        while c2 < m
            invariant
                c2 <= m,
                orig2@.len() == c2,
                forall|k: int| 0 <= k < c2 ==> #[trigger] orig2@[k] == k as u32,
            decreases m - c2,
        {
            orig2.push(c2 as u32);
            c2 = c2 + 1;
        }
        proof {
            assert forall|li2: int| 0 <= li2 < m && !(#[trigger] gone_link@[li2]) implies seq_has(
                orig2@,
                li2,
            ) by {
                assert(orig2@[li2] == li2 as u32);
            }
        }
        let mut d: usize = m;
        while d > 0
            invariant
                d <= self.links@.len(),
                orig2@.len() == self.links@.len(),
                self.links@.len() <= m,
                *self == (World { links: self.links, ..mid2 }),
                forall|k: int| 0 <= k < d ==> #[trigger] orig2@[k] == k as u32,
                forall|k: int|
                    0 <= k < orig2@.len() ==> (#[trigger] orig2@[k] as int) < m && self.links@[k]
                        == pre.links@[orig2@[k] as int],
                forall|k: int| d <= k < orig2@.len() ==> !(#[trigger] gone_link@[orig2@[k] as int]),
                forall|k1: int, k2: int|
                    0 <= k1 < k2 < orig2@.len() ==> #[trigger] orig2@[k1] != #[trigger] orig2@[k2],
                forall|li2: int|
                    0 <= li2 < m && !(#[trigger] gone_link@[li2]) ==> seq_has(orig2@, li2),
            decreases d,
        {
            d = d - 1;
            if gone_link[d] {
                let ghost o2_before = orig2@;
                self.links.swap_remove(d);
                orig2.swap_remove(d);
                proof {
                    assert forall|li2: int|
                        0 <= li2 < m && !(#[trigger] gone_link@[li2]) implies seq_has(
                        orig2@,
                        li2,
                    ) by {
                        let w = choose|w: int|
                            0 <= w < o2_before.len() && #[trigger] o2_before[w] == li2;
                        assert(o2_before[d as int] == d as u32);
                        assert(w != d as int);
                        if w < d as int {
                            assert(orig2@[w] == li2);
                        } else if w == o2_before.len() - 1 {
                            assert(orig2@[d as int] == li2);
                        } else {
                            assert(orig2@[w] == li2);
                        }
                    }
                }
            }
        }

        // Remap surviving endpoints to their new node indices.
        let mk = self.links.len();
        let ghost links_c = self.links@;
        let ghost mid3 = *self;
        let mut e: usize = 0;
        while e < mk
            invariant
                e <= mk,
                self.links@.len() == mk,
                *self == (World { links: self.links, ..mid3 }),
                forall|k: int| e <= k < mk ==> #[trigger] self.links@[k] == links_c[k],
                forall|k: int|
                    0 <= k < e ==> #[trigger] self.links@[k] == links_c[k].spec_with_n1(
                        pos@[links_c[k].spec_n1() as int],
                    ).spec_with_n2(pos@[links_c[k].spec_n2() as int]),
            decreases mk - e,
        {
            let l = self.links[e];
            proof {
                assert(links_c[e as int] == pre.links@[orig2@[e as int] as int]);
                assert((l.spec_n1() as int) < n && (l.spec_n2() as int) < n);
            }
            let p1 = pos[l.n1() as usize];
            let p2 = pos[l.n2() as usize];
            let mut l2 = l;
            l2.set_n1(p1);
            l2.set_n2(p2);
            self.links.set(e, l2);
            e = e + 1;
        }

        // The remapped endpoints are valid, distinct node indices.
        let nn = self.nodes.len();
        proof {
            assert forall|k: int|
                0 <= k < mk implies (((#[trigger] self.links@[k]).spec_n1() as int) < nn && (
            self.links@[k].spec_n2() as int) < nn && self.links@[k].spec_n1()
                != self.links@[k].spec_n2() && self.links@[k].ok()) by {
                let lo = orig2@[k] as int;
                let b1 = pre.links@[lo].spec_n1();
                let b2 = pre.links@[lo].spec_n2();
                assert(!gone_link@[lo]);
                assert(pos@[b1 as int] != GONE && pos@[b2 as int] != GONE);
                assert(orig@[pos@[b1 as int] as int] == b1);
                assert(orig@[pos@[b2 as int] as int] == b2);
            }
        }

        // Rebuild the adjacency index from the compacted links.
        let mut adj: Vec<Vec<u32>> = Vec::new();
        let mut a: usize = 0;
        while a < nn
            invariant
                a <= nn,
                adj@.len() == a,
                forall|k: int| 0 <= k < a ==> (#[trigger] adj@[k])@.len() == 0,
            decreases nn - a,
        {
            adj.push(Vec::new());
            a = a + 1;
        }
        self.node_links = adj;
        let ghost mid4 = *self;
        let mut f: usize = 0;
        while f < mk
            invariant
                f <= mk,
                self.node_links@.len() == nn,
                *self == (World { node_links: self.node_links, ..mid4 }),
                forall|nd: int, k: int|
                    0 <= nd < nn && 0 <= k < self.node_links@[nd]@.len() ==> {
                        let li2 = #[trigger] self.node_links@[nd]@[k];
                        (li2 as int) < f && self.links@[li2 as int].spec_linked_to(nd as u32)
                    },
                forall|li2: int|
                    0 <= li2 < f ==> self.adj_has(
                        (#[trigger] self.links@[li2]).spec_n1() as int,
                        li2,
                    ) && self.adj_has(self.links@[li2].spec_n2() as int, li2),
                forall|nd: int, k1: int, k2: int|
                    0 <= nd < nn && 0 <= k1 < k2 < self.node_links@[nd]@.len()
                        ==> #[trigger] self.node_links@[nd]@[k1] != #[trigger] self.node_links@[
                        nd
                    ]@[k2],
            decreases mk - f,
        {
            let l = self.links[f];
            let ghost nl0 = self.node_links@;
            let a1 = l.n1() as usize;
            let a2 = l.n2() as usize;
            let fl = f as u32;
            let adj1 = &mut self.node_links[a1];
            adj1.push(fl);
            let adj2 = &mut self.node_links[a2];
            adj2.push(fl);
            proof {
                assert(self.node_links@[a1 as int]@ == nl0[a1 as int]@.push(fl));
                assert(self.node_links@[a2 as int]@ == nl0[a2 as int]@.push(fl));
                assert forall|li2: int| 0 <= li2 < f + 1 implies self.adj_has(
                    (#[trigger] self.links@[li2]).spec_n1() as int,
                    li2,
                ) && self.adj_has(self.links@[li2].spec_n2() as int, li2) by {
                    if li2 < f {
                        let b1 = self.links@[li2].spec_n1() as int;
                        let b2 = self.links@[li2].spec_n2() as int;
                        let w1 = choose|w: int|
                            0 <= w < nl0[b1]@.len() && #[trigger] nl0[b1]@[w] == li2;
                        assert(self.node_links@[b1]@[w1] == li2);
                        let w2 = choose|w: int|
                            0 <= w < nl0[b2]@.len() && #[trigger] nl0[b2]@[w] == li2;
                        assert(self.node_links@[b2]@[w2] == li2);
                    } else {
                        assert(self.node_links@[a1 as int]@[nl0[a1 as int]@.len() as int] == fl);
                        assert(self.node_links@[a2 as int]@[nl0[a2 as int]@.len() as int] == fl);
                    }
                }
            }
            f = f + 1;
        }

        // Report the moves of the surviving nodes, in old-index order.
        let mut swaps: Vec<(u32, u32)> = Vec::new();
        let mut o: usize = 0;
        while o < n
            invariant
                o <= n,
                forall|k: int|
                    0 <= k < swaps@.len() ==> {
                        let p = #[trigger] swaps@[k];
                        (p.0 as int) < o && pos@[p.0 as int] == p.1 && p.1 != GONE && p.0 != p.1
                    },
                forall|k1: int, k2: int|
                    0 <= k1 < k2 < swaps@.len() ==> (#[trigger] swaps@[k1]).0 < (
                    #[trigger] swaps@[k2]).0,
                forall|o2: int|
                    0 <= o2 < o && pos@[o2] != GONE && pos@[o2] != o2 as u32 ==> exists|k: int|
                        0 <= k < swaps@.len() && (#[trigger] swaps@[k]) == (o2 as u32, pos@[o2]),
            decreases n - o,
        {
            let p = pos[o];
            if p != GONE && p != o as u32 {
                let ghost sw0 = swaps@;
                swaps.push((o as u32, p));
                proof {
                    assert(swaps@[sw0.len() as int] == (o as u32, p));
                    assert forall|o2: int|
                        0 <= o2 < o + 1 && pos@[o2] != GONE && pos@[o2] != o2
                        as u32 implies exists|k: int|
                        0 <= k < swaps@.len() && (#[trigger] swaps@[k]) == (o2 as u32, pos@[o2]) by {
                        if o2 < o {
                            let k = choose|k: int|
                                0 <= k < sw0.len() && (#[trigger] sw0[k]) == (o2 as u32, pos@[o2]);
                            assert(swaps@[k] == (o2 as u32, pos@[o2]));
                        } else {
                            assert(swaps@[sw0.len() as int] == (o2 as u32, pos@[o2]));
                        }
                    }
                }
            }
            o = o + 1;
        }

        proof {
            let post = *self;
            let sw = swaps@;
            // a surviving node's final position is what the swap list says
            assert forall|o2: int|
                0 <= o2 < n && pos@[o2] != GONE implies #[trigger] apply_swaps(sw, o2 as u32)
                == pos@[o2] by {
                lemma_apply_swaps(sw, o2 as u32);
                if pos@[o2] != o2 as u32 {
                    let k = choose|k: int|
                        0 <= k < sw.len() && (#[trigger] sw[k]) == (o2 as u32, pos@[o2]);
                } else {
                    assert forall|k: int| 0 <= k < sw.len() implies (#[trigger] sw[k]).0 != o2
                        as u32 by {
                        if sw[k].0 == o2 as u32 {
                            assert(sw[k].1 == pos@[o2]);
                        }
                    }
                }
            }
            // survivors keep their data where the swap list points
            assert forall|o2: int|
                0 <= o2 < pre.n_nodes() && !pre.node_queued(o2) implies {
                let cc = apply_swaps(sw, o2 as u32) as int;
                0 <= cc < post.n_nodes() && post.nodes@[cc] == pre.nodes@[o2]
            } by {
                assert(!seq_has(qd, o2));
                assert(pos@[o2] != GONE);
                assert(apply_swaps(sw, o2 as u32) == pos@[o2]);
                assert(orig@[pos@[o2] as int] == o2 as u32);
            }
            // injectivity of the final placement
            assert forall|o1: int, o2: int|
                0 <= o1 < o2 < pre.n_nodes() && !pre.node_queued(o1) && !pre.node_queued(
                    o2,
                ) implies apply_swaps(sw, o1 as u32) != apply_swaps(sw, o2 as u32) by {
                assert(!seq_has(qd, o1) && !seq_has(qd, o2));
                assert(pos@[o1] != GONE && pos@[o2] != GONE);
                assert(apply_swaps(sw, o1 as u32) == pos@[o1]);
                assert(apply_swaps(sw, o2 as u32) == pos@[o2]);
                assert(orig@[pos@[o1] as int] == o1 as u32);
                assert(orig@[pos@[o2] as int] == o2 as u32);
            }
            // surjectivity onto the compacted array
            assert forall|cc: int| 0 <= cc < post.n_nodes() implies #[trigger] some_origin(
                pre,
                sw,
                cc,
            ) by {
                let ou = orig@[cc];
                assert(pos@[ou as int] == cc as u32);
                assert(!seq_has(qd, ou as int));
                assert(apply_swaps(sw, ou) == pos@[ou as int]);
            }
            // link correspondence, both directions
            assert forall|li2: int|
                0 <= li2 < pre.n_links() && !(#[trigger] pre.link_doomed(
                    li2,
                )) implies kept_link_exists(pre, post, sw, li2) by {
                assert(!gone_link@[li2]);
                let cc = choose|cc: int| 0 <= cc < orig2@.len() && #[trigger] orig2@[cc] == li2;
                assert(links_c[cc] == pre.links@[li2]);
                let b1 = pre.links@[li2].spec_n1();
                let b2 = pre.links@[li2].spec_n2();
                assert(pos@[b1 as int] != GONE && pos@[b2 as int] != GONE);
                assert(post.links@[cc] == links_c[cc].spec_with_n1(
                    pos@[links_c[cc].spec_n1() as int],
                ).spec_with_n2(pos@[links_c[cc].spec_n2() as int]));
                assert(apply_swaps(sw, b1) == pos@[b1 as int]);
                assert(apply_swaps(sw, b2) == pos@[b2 as int]);
                assert(post.links@[cc] == pre.remapped_link(sw, li2));
            }
            assert forall|cc: int| 0 <= cc < post.n_links() implies link_origin(
                pre,
                sw,
                #[trigger] post.links@[cc],
            ) by {
                let li2 = orig2@[cc] as int;
                assert(!gone_link@[li2]);
                let b1 = pre.links@[li2].spec_n1();
                let b2 = pre.links@[li2].spec_n2();
                assert(pos@[b1 as int] != GONE && pos@[b2 as int] != GONE);
                assert(apply_swaps(sw, b1) == pos@[b1 as int]);
                assert(apply_swaps(sw, b2) == pos@[b2 as int]);
                assert(post.links@[cc] == pre.remapped_link(sw, li2));
            }
            // the rebuilt world is well formed
            assert forall|k1: int, k2: int|
                0 <= k1 < k2 < post.n_links() implies !(#[trigger] post.links@[k1]).connects(
                (#[trigger] post.links@[k2]).spec_n1(),
                post.links@[k2].spec_n2(),
            ) by {
                let la = orig2@[k1] as int;
                let lb = orig2@[k2] as int;
                assert(orig2@[k1] != orig2@[k2]);
                assert(!gone_link@[la]);
                assert(!gone_link@[lb]);
                let a1 = pre.links@[la].spec_n1();
                let a2 = pre.links@[la].spec_n2();
                let bb1 = pre.links@[lb].spec_n1();
                let bb2 = pre.links@[lb].spec_n2();
                assert(pos@[a1 as int] != GONE && pos@[a2 as int] != GONE);
                assert(pos@[bb1 as int] != GONE && pos@[bb2 as int] != GONE);
                assert(orig@[pos@[a1 as int] as int] == a1);
                assert(orig@[pos@[a2 as int] as int] == a2);
                assert(orig@[pos@[bb1 as int] as int] == bb1);
                assert(orig@[pos@[bb2 as int] as int] == bb2);
                if la < lb {
                    assert(!pre.links@[la].connects(bb1, bb2));
                } else {
                    assert(!pre.links@[lb].connects(a1, a2));
                }
            }
            assert forall|i2: int| 0 <= i2 < post.n_nodes() implies (
            #[trigger] post.nodes@[i2]).ok() by {
                assert(post.nodes@[i2] == pre.nodes@[orig@[i2] as int]);
            }
            assert(post.queues_ok());
            assert(post.wf());
        }
        swaps
    }
}

} // verus!
