//! The physics sub-step: gravity, contact collision, axis locking, and the
//! per-link constraint solve, in that fixed order.
//!
//! The pairwise corrections are pure functions from both endpoints' states
//! to both new states, with exact fixed-point contracts; the sweeps apply
//! them in array order (a Gauss-Seidel pass), so each correction reads the
//! states left by the previous one. Locks run after collision, so pins are
//! authoritative; the link solve can still move a pinned node that frame,
//! and the next sub-step re-applies the pin.

use vstd::prelude::*;

use crate::fixed::{
    fx_add, fx_clip, fx_mul, fx_mul_raw, fx_ok, fx_sqrt, fx_sub, iabs, sqrt_floor, FX_ONE,
};
use crate::hash_grid::HashGrid;
use crate::link::Link;
use crate::node::Node;
use crate::vec2::Vec2;
use crate::world::World;

verus! {

/// Raw fixed-point gravity strength (6).
pub const GRAVITY_K: i64 = 393216;

/// Raw fixed-point stiffness of rigid links (32).
pub const LINK_STIFFNESS_K: i64 = 2097152;

/// Raw fixed-point rotor drive factor (64).
pub const ROTOR_K: i64 = 4194304;

/// Raw fixed-point one half.
pub const HALF_K: i64 = 32768;

/// Raw fixed-point spring position-nudge factor (8).
pub const SPRING_POS_K: i64 = 524288;

/// Raw fixed-point spring velocity-impulse factor (512).
pub const SPRING_VEL_K: i64 = 33554432;

/// A node after one tick of gravity: the vertical velocity drops by the
/// gravity constant times the time step.
pub open spec fn gravity_node(nd: Node, dt: i64) -> Node {
    Node {
        v: Vec2 {
            x: nd.v.x,
            y: fx_clip(nd.v.y - fx_clip(fx_mul_raw(GRAVITY_K as int, dt as int))) as i64,
        },
        ..nd
    }
}

/// A node with every locked axis snapped to its pin and that axis' velocity
/// zeroed.
pub open spec fn locked_node(nd: Node) -> Node {
    Node {
        p: Vec2 {
            x: if nd.spec_fixed_x() {
                nd.fixed_p.x
            } else {
                nd.p.x
            },
            y: if nd.spec_fixed_y() {
                nd.fixed_p.y
            } else {
                nd.p.y
            },
        },
        v: Vec2 {
            x: if nd.spec_fixed_x() {
                0
            } else {
                nd.v.x
            },
            y: if nd.spec_fixed_y() {
                0
            } else {
                nd.v.y
            },
        },
        ..nd
    }
}

/// The contact resolution of one candidate pair: when the two points are
/// closer than the contact diameter `r2`, the overlap is split equally as a
/// positional correction and the closing velocity component along the
/// contact line is exchanged, conserving momentum.
pub open spec fn spec_collide(a: Node, b: Node, r2: i64) -> (Node, Node) {
    let dist = a.p.spec_dist(&b.p);
    if dist < r2 {
        let to_b = b.p.spec_sub(a.p);
        let push = to_b.spec_scale(fx_clip(dist - r2) as i64).spec_scale(HALF_K);
        let dv = a.v.spec_sub(b.v);
        let dot = dv.spec_dot(&to_b);
        let d0 = fx_clip(fx_mul_raw(dist as int, dist as int));
        let den: i64 = if d0 < 1 {
            1
        } else {
            d0 as i64
        };
        let imp = to_b.spec_scale(dot).spec_scale_div(den);
        (
            Node { p: a.p.spec_add(push), v: a.v.spec_sub(imp), ..a },
            Node { p: b.p.spec_sub(push), v: b.v.spec_add(imp), ..b },
        )
    } else {
        (a, b)
    }
}

/// Exact executable form of `spec_collide`.
pub fn collide_pair(a: &Node, b: &Node, r2: i64) -> (r: (Node, Node))
    requires
        a.ok(),
        b.ok(),
        fx_ok(r2 as int),
    ensures
        r == spec_collide(*a, *b, r2),
        r.0.ok(),
        r.1.ok(),
        r.0.fixed_p == a.fixed_p,
        r.0.rotor_speed == a.rotor_speed,
        r.1.fixed_p == b.fixed_p,
        r.1.rotor_speed == b.rotor_speed,
{
    let dist = a.p.dist(&b.p);
    if dist < r2 {
        let to_b = b.p.sub(a.p);
        let push = to_b.scale(fx_sub(dist, r2)).scale(HALF_K);
        let dv = a.v.sub(b.v);
        let dot = dv.dot(&to_b);
        let d0 = fx_mul(dist, dist);
        let den: i64 = if d0 < 1 {
            1
        } else {
            d0
        };
        let imp = to_b.scale(dot).scale_div(den);
        let na = Node { p: a.p.add(push), v: a.v.sub(imp), ..*a };
        let nb = Node { p: b.p.sub(push), v: b.v.add(imp), ..*b };
        (na, nb)
    } else {
        (*a, *b)
    }
}

/// The sign of a scalar, as a fixed-point unit.
pub open spec fn spec_sign(v: i64) -> i64 {
    if v > 0 {
        FX_ONE
    } else if v < 0 {
        -FX_ONE as i64
    } else {
        0
    }
}

/// One link's correction of its two endpoints, and the link's own advance:
/// a rigid rod always corrects toward its rest length; a rope only when
/// stretched past it; a hydraulic rod first grows its rest length by
/// `speed * dt`; a spring answers softly, with a square-root positional
/// nudge and a proportional velocity impulse. A rotor endpoint then drives
/// the far endpoint tangentially.
#[verifier::opaque]
pub open spec fn spec_solve_link(a: Node, b: Node, l: Link, dt: i64) -> (Node, Node, Link) {
    let real_dist = a.p.spec_dist(&b.p);
    let den: i64 = if real_dist < 1 {
        1
    } else {
        real_dist
    };
    let to_a = a.p.spec_sub(b.p);
    let inside = fx_clip(l.spec_dist() - real_dist) as i64;
    let d = to_a.spec_scale_div(den).spec_scale(inside);
    let solved: (Node, Node, Link) = match l {
        Link::Link { .. } => (
            Node {
                p: a.p.spec_add(d.spec_scale(HALF_K)),
                v: a.v.spec_add(d.spec_scale(LINK_STIFFNESS_K)),
                ..a
            },
            Node {
                p: b.p.spec_sub(d.spec_scale(HALF_K)),
                v: b.v.spec_sub(d.spec_scale(LINK_STIFFNESS_K)),
                ..b
            },
            l,
        ),
        Link::Rope { .. } => if real_dist > l.spec_dist() {
            (
                Node {
                    p: a.p.spec_add(d.spec_scale(HALF_K)),
                    v: a.v.spec_add(d.spec_scale(LINK_STIFFNESS_K).spec_scale(HALF_K)),
                    ..a
                },
                Node {
                    p: b.p.spec_sub(d.spec_scale(HALF_K)),
                    v: b.v.spec_sub(d.spec_scale(LINK_STIFFNESS_K).spec_scale(HALF_K)),
                    ..b
                },
                l,
            )
        } else {
            (a, b, l)
        },
        Link::Hydraulic { speed, .. } => (
            Node {
                p: a.p.spec_add(d.spec_scale(HALF_K)),
                v: a.v.spec_add(d.spec_scale(LINK_STIFFNESS_K)),
                ..a
            },
            Node {
                p: b.p.spec_sub(d.spec_scale(HALF_K)),
                v: b.v.spec_sub(d.spec_scale(LINK_STIFFNESS_K)),
                ..b
            },
            l.spec_with_dist(
                fx_clip(l.spec_dist() + fx_clip(fx_mul_raw(speed as int, dt as int))) as i64,
            ),
        ),
        Link::Spring { stiffness, .. } => {
            let n = to_a.spec_scale_div(den);
            let push = fx_clip(l.spec_dist() - real_dist) as i64;
            let root = fx_clip(
                sqrt_floor((fx_clip(iabs(push as int)) * FX_ONE) as nat) as int,
            ) as i64;
            let nudge = n.spec_scale(root).spec_scale(spec_sign(push)).spec_scale(
                stiffness,
            ).spec_scale(SPRING_POS_K).spec_scale(dt);
            let impulse = d.spec_scale(stiffness).spec_scale(SPRING_VEL_K).spec_scale(dt);
            (
                Node { p: a.p.spec_add(nudge), v: a.v.spec_add(impulse), ..a },
                Node { p: b.p.spec_sub(nudge), v: b.v.spec_sub(impulse), ..b },
                l,
            )
        },
    };
    let a1 = solved.0;
    let b1 = solved.1;
    let l1 = solved.2;
    let b2 = if a1.rotor_speed != 0 {
        let c = to_a.spec_scale_div(den).spec_cross().spec_neg();
        Node {
            v: b1.v.spec_add(
                c.spec_scale(a1.rotor_speed).spec_scale(real_dist).spec_scale(dt).spec_scale(
                    ROTOR_K,
                ),
            ),
            ..b1
        }
    } else {
        b1
    };
    let a2 = if b2.rotor_speed != 0 {
        let c = to_a.spec_scale_div(den).spec_cross();
        Node {
            v: a1.v.spec_add(
                c.spec_scale(b2.rotor_speed).spec_scale(real_dist).spec_scale(dt).spec_scale(
                    ROTOR_K,
                ),
            ),
            ..a1
        }
    } else {
        a1
    };
    (a2, b2, l1)
}

/// Exact executable form of `spec_solve_link`.
#[verifier::rlimit(100)]
pub fn solve_link_pair(a: &Node, b: &Node, l: &Link, dt: i64) -> (r: (Node, Node, Link))
    requires
        a.ok(),
        b.ok(),
        l.ok(),
        fx_ok(dt as int),
    ensures
        r == spec_solve_link(*a, *b, *l, dt),
        r.0.ok(),
        r.1.ok(),
        r.2.ok(),
        r.0.fixed_p == a.fixed_p,
        r.0.rotor_speed == a.rotor_speed,
        r.1.fixed_p == b.fixed_p,
        r.1.rotor_speed == b.rotor_speed,
        r.2.spec_n1() == l.spec_n1(),
        r.2.spec_n2() == l.spec_n2(),
{
    proof {
        reveal(spec_solve_link);
    }
    let real_dist = a.p.dist(&b.p);
    let den: i64 = if real_dist < 1 {
        1
    } else {
        real_dist
    };
    let to_a = a.p.sub(b.p);
    let inside = fx_sub(l.dist(), real_dist);
    let d = to_a.scale_div(den).scale(inside);
    let mut a1: Node;
    let mut b1: Node;
    let l1: Link;
    match l {
        Link::Link { .. } => {
            a1 = Node { p: a.p.add(d.scale(HALF_K)), v: a.v.add(d.scale(LINK_STIFFNESS_K)), ..*a };
            b1 = Node { p: b.p.sub(d.scale(HALF_K)), v: b.v.sub(d.scale(LINK_STIFFNESS_K)), ..*b };
            l1 = *l;
        },
        Link::Rope { .. } => {
            if real_dist > l.dist() {
                a1 = Node {
                    p: a.p.add(d.scale(HALF_K)),
                    v: a.v.add(d.scale(LINK_STIFFNESS_K).scale(HALF_K)),
                    ..*a
                };
                b1 = Node {
                    p: b.p.sub(d.scale(HALF_K)),
                    v: b.v.sub(d.scale(LINK_STIFFNESS_K).scale(HALF_K)),
                    ..*b
                };
            } else {
                a1 = *a;
                b1 = *b;
            }
            l1 = *l;
        },
        Link::Hydraulic { speed, .. } => {
            a1 = Node { p: a.p.add(d.scale(HALF_K)), v: a.v.add(d.scale(LINK_STIFFNESS_K)), ..*a };
            b1 = Node { p: b.p.sub(d.scale(HALF_K)), v: b.v.sub(d.scale(LINK_STIFFNESS_K)), ..*b };
            let mut lt = *l;
            lt.set_dist(fx_add(l.dist(), fx_mul(*speed, dt)));
            l1 = lt;
        },
        Link::Spring { stiffness, .. } => {
            let n = to_a.scale_div(den);
            let push = fx_sub(l.dist(), real_dist);
            let mag = if push < 0 {
                -push
            } else {
                push
            };
            let root = fx_sqrt(mag);
            let sgn: i64 = if push > 0 {
                FX_ONE
            } else if push < 0 {
                -FX_ONE
            } else {
                0
            };
            let nudge = n.scale(root).scale(sgn).scale(*stiffness).scale(SPRING_POS_K).scale(dt);
            let impulse = d.scale(*stiffness).scale(SPRING_VEL_K).scale(dt);
            a1 = Node { p: a.p.add(nudge), v: a.v.add(impulse), ..*a };
            b1 = Node { p: b.p.sub(nudge), v: b.v.sub(impulse), ..*b };
            l1 = *l;
        },
    }
    if a1.rotor_speed != 0 {
        let c = to_a.scale_div(den).cross().neg();
        b1.v = b1.v.add(c.scale(a1.rotor_speed).scale(real_dist).scale(dt).scale(ROTOR_K));
    }
    if b1.rotor_speed != 0 {
        let c = to_a.scale_div(den).cross();
        a1.v = a1.v.add(c.scale(b1.rotor_speed).scale(real_dist).scale(dt).scale(ROTOR_K));
    }
    (a1, b1, l1)
}

/// A rope at or under its rest length exerts nothing: with neither endpoint
/// driven by a rotor, the solve hands both nodes and the link back
/// unchanged.
pub proof fn lemma_rope_slack_no_force(a: Node, b: Node, l: Link, dt: i64)
    requires
        l is Rope,
        a.p.spec_dist(&b.p) <= l.spec_dist(),
        !a.spec_rotor(),
        !b.spec_rotor(),
    ensures
        spec_solve_link(a, b, l, dt) == (a, b, l),
{
    reveal(spec_solve_link);
}

/// The sequential constraint sweep over the first `k` links: each link in
/// turn corrects its two endpoints in the node state the previous links
/// left.
pub open spec fn solve_sweep(ns: Seq<Node>, ls: Seq<Link>, dt: i64, k: int) -> (
    Seq<Node>,
    Seq<Link>,
)
    decreases k,
{
    if k <= 0 {
        (ns, ls)
    } else {
        let prev = solve_sweep(ns, ls, dt, k - 1);
        let l = prev.1[k - 1];
        let res = spec_solve_link(prev.0[l.spec_n1() as int], prev.0[l.spec_n2() as int], l, dt);
        (
            prev.0.update(l.spec_n1() as int, res.0).update(l.spec_n2() as int, res.1),
            prev.1.update(k - 1, res.2),
        )
    }
}


/// A link after one sub-step's own advance: only a hydraulic rod changes,
/// its rest length growing by `speed * dt`.
pub open spec fn hydraulic_advance(l: Link, dt: i64) -> Link {
    match l {
        Link::Hydraulic { speed, .. } => l.spec_with_dist(
            fx_clip(l.spec_dist() + fx_clip(fx_mul_raw(speed as int, dt as int))) as i64,
        ),
        _ => l,
    }
}

/// Whatever the node states, one solve changes the link only by its own
/// advance.
pub proof fn lemma_solve_link_advance(a: Node, b: Node, l: Link, dt: i64)
    ensures
        spec_solve_link(a, b, l, dt).2 == hydraulic_advance(l, dt),
{
    reveal(spec_solve_link);
    match l {
        Link::Hydraulic { .. } => {},
        _ => {},
    }
}

/// One solve keeps both nodes in range with their locks and rotor flags,
/// and changes the link only by its own advance.
#[verifier::rlimit(100)]
#[verifier::spinoff_prover]
pub proof fn lemma_solve_link_shape(a: Node, b: Node, l: Link, dt: i64)
    requires
        a.ok(),
        b.ok(),
        l.ok(),
        fx_ok(dt as int),
    ensures
        ({
            let r = spec_solve_link(a, b, l, dt);
            &&& r.0.ok()
            &&& r.1.ok()
            &&& r.2.ok()
            &&& r.0.fixed_p == a.fixed_p
            &&& r.0.rotor_speed == a.rotor_speed
            &&& r.1.fixed_p == b.fixed_p
            &&& r.1.rotor_speed == b.rotor_speed
            &&& r.2 == hydraulic_advance(l, dt)
        }),
{
    reveal(spec_solve_link);
    let r = spec_solve_link(a, b, l, dt);
    match l {
        Link::Link { .. } => {
            assert(r.0.ok() && r.1.ok() && r.2.ok() && r.2 == hydraulic_advance(l, dt));
        },
        Link::Rope { .. } => {
            assert(r.0.ok() && r.1.ok() && r.2.ok() && r.2 == hydraulic_advance(l, dt));
        },
        Link::Hydraulic { .. } => {
            assert(r.0.ok() && r.1.ok() && r.2.ok() && r.2 == hydraulic_advance(l, dt));
        },
        Link::Spring { .. } => {
            assert(r.0.ok() && r.1.ok() && r.2.ok() && r.2 == hydraulic_advance(l, dt));
        },
    }
}

/// Every node after one tick of gravity.
pub open spec fn gravity_all(ns: Seq<Node>, dt: i64) -> Seq<Node> {
    Seq::new(ns.len(), |i: int| gravity_node(ns[i], dt))
}

/// Every node with its locked axes snapped.
pub open spec fn lock_all(ns: Seq<Node>) -> Seq<Node> {
    Seq::new(ns.len(), |i: int| locked_node(ns[i]))
}

/// The positions the broad-phase grid is built over.
pub open spec fn world_points(ns: Seq<Node>) -> Seq<(i64, i64)> {
    Seq::new(ns.len(), |i: int| (ns[i].p.x, ns[i].p.y))
}

/// Node `i` resolved against the first `t` of its candidate list, in order:
/// each candidate other than `i` itself is a contact pair, solved in the
/// state the previous pairs left.
pub open spec fn collide_list(ns: Seq<Node>, i: int, cand: Seq<u32>, t: int, r2: i64) -> Seq<Node>
    decreases t,
{
    if t <= 0 {
        ns
    } else {
        let prev = collide_list(ns, i, cand, t - 1, r2);
        let bi = cand[t - 1] as int;
        if bi == i {
            prev
        } else {
            let res = spec_collide(prev[i], prev[bi], r2);
            prev.update(i, res.0).update(bi, res.1)
        }
    }
}

/// The Gauss-Seidel collision pass over the first `k` nodes: each node in
/// turn queries the grid at its current position and resolves every
/// candidate pair.
pub open spec fn collide_pass(g: HashGrid, ns: Seq<Node>, r2: i64, k: int) -> Seq<Node>
    decreases k,
{
    if k <= 0 {
        ns
    } else {
        let prev = collide_pass(g, ns, r2, k - 1);
        let cand = crate::hash_grid::spec_find(g, prev[k - 1].p.x, prev[k - 1].p.y);
        collide_list(prev, k - 1, cand, cand.len() as int, r2)
    }
}

/// The broad-phase cell size of a world: the node radius in world units,
/// never thinner than one raw unit.
pub open spec fn step_cell(w: World) -> i64 {
    let q = fx_clip(
        crate::fixed::fx_div_raw(
            w.radius as int,
            fx_clip(fx_mul_raw(w.radius as int, crate::world::SCALE_K as int)),
        ),
    );
    if q < 1 {
        1
    } else {
        q as i64
    }
}

/// The contact diameter a step checks collisions against.
pub open spec fn step_r2(w: World) -> i64 {
    fx_clip(fx_mul_raw(step_cell(w) as int, 131072)) as i64
}

/// What one sub-step leaves behind: gravity, then the collision pass over
/// the grid the starting positions determine, then axis locking, then the
/// constraint sweep — `ns` and `ls` are the nodes and links after all four.
/// The matching grid is unique, so this pins the step's result.
pub open spec fn step_outcome(w: World, ns: Seq<Node>, ls: Seq<Link>) -> bool {
    exists|g: HashGrid|
        #[trigger] crate::hash_grid::grid_matches(g, world_points(w.nodes@), step_cell(w)) && {
            let ns1 = gravity_all(w.nodes@, w.dt);
            let ns2 = collide_pass(g, ns1, step_r2(w), w.n_nodes());
            let ns3 = lock_all(ns2);
            &&& ns == solve_sweep(ns3, w.links@, w.dt, w.n_links()).0
            &&& ls == solve_sweep(ns3, w.links@, w.dt, w.n_links()).1
        }
}

/// Two grids answering every query alike collide every node alike.
pub proof fn lemma_collide_pass_congruent(
    g1: HashGrid,
    g2: HashGrid,
    ns: Seq<Node>,
    r2: i64,
    k: int,
)
    requires
        forall|x: i64, y: i64| #[trigger] crate::hash_grid::spec_find(g1, x, y)
            == crate::hash_grid::spec_find(g2, x, y),
    ensures
        collide_pass(g1, ns, r2, k) == collide_pass(g2, ns, r2, k),
    decreases k,
{
    if k > 0 {
        lemma_collide_pass_congruent(g1, g2, ns, r2, k - 1);
    }
}

/// One sub-step's outcome is a function of the world alone: any two node
/// and link tables satisfying `step_outcome` are equal.
pub proof fn lemma_step_outcome_unique(
    w: World,
    ns1: Seq<Node>,
    ls1: Seq<Link>,
    ns2: Seq<Node>,
    ls2: Seq<Link>,
)
    requires
        step_outcome(w, ns1, ls1),
        step_outcome(w, ns2, ls2),
    ensures
        ns1 == ns2,
        ls1 == ls2,
{
    let g1 = choose|g: HashGrid|
        #[trigger] crate::hash_grid::grid_matches(g, world_points(w.nodes@), step_cell(w)) && {
            let t1 = gravity_all(w.nodes@, w.dt);
            let t2 = collide_pass(g, t1, step_r2(w), w.n_nodes());
            let t3 = lock_all(t2);
            &&& ns1 == solve_sweep(t3, w.links@, w.dt, w.n_links()).0
            &&& ls1 == solve_sweep(t3, w.links@, w.dt, w.n_links()).1
        };
    let g2 = choose|g: HashGrid|
        #[trigger] crate::hash_grid::grid_matches(g, world_points(w.nodes@), step_cell(w)) && {
            let t1 = gravity_all(w.nodes@, w.dt);
            let t2 = collide_pass(g, t1, step_r2(w), w.n_nodes());
            let t3 = lock_all(t2);
            &&& ns2 == solve_sweep(t3, w.links@, w.dt, w.n_links()).0
            &&& ls2 == solve_sweep(t3, w.links@, w.dt, w.n_links()).1
        };
    crate::hash_grid::lemma_grid_matches_unique(
        g1,
        g2,
        world_points(w.nodes@),
        step_cell(w),
    );
    lemma_collide_pass_congruent(
        g1,
        g2,
        gravity_all(w.nodes@, w.dt),
        step_r2(w),
        w.n_nodes(),
    );
}

/// The sweep changes each link exactly once, by its own advance, and never
/// its endpoints.
#[verifier::rlimit(100)]
pub proof fn lemma_sweep_links(ns: Seq<Node>, ls: Seq<Link>, dt: i64, k: int)
    requires
        0 <= k <= ls.len(),
        forall|j: int|
            0 <= j < ls.len() ==> ((#[trigger] ls[j]).spec_n1() as int) < ns.len() && (
            ls[j].spec_n2() as int) < ns.len(),
    ensures
        solve_sweep(ns, ls, dt, k).0.len() == ns.len(),
        solve_sweep(ns, ls, dt, k).1.len() == ls.len(),
        forall|j: int|
            0 <= j < k ==> #[trigger] solve_sweep(ns, ls, dt, k).1[j] == hydraulic_advance(
                ls[j],
                dt,
            ),
        forall|j: int| k <= j < ls.len() ==> #[trigger] solve_sweep(ns, ls, dt, k).1[j] == ls[j],
    decreases k,
{
    if k > 0 {
        lemma_sweep_links(ns, ls, dt, k - 1);
        let prev = solve_sweep(ns, ls, dt, k - 1);
        let l = prev.1[k - 1];
        assert(l == ls[k - 1]);
        let res = spec_solve_link(prev.0[l.spec_n1() as int], prev.0[l.spec_n2() as int], l, dt);
        lemma_solve_link_advance(prev.0[l.spec_n1() as int], prev.0[l.spec_n2() as int], l, dt);
        assert(solve_sweep(ns, ls, dt, k).1 == prev.1.update(k - 1, res.2));
    }
}

/// A node no link touches is left alone by the sweep.
#[verifier::rlimit(100)]
pub proof fn lemma_sweep_untouched(ns: Seq<Node>, ls: Seq<Link>, dt: i64, k: int, i: int)
    requires
        0 <= k <= ls.len(),
        forall|j: int|
            0 <= j < ls.len() ==> ((#[trigger] ls[j]).spec_n1() as int) < ns.len() && (
            ls[j].spec_n2() as int) < ns.len(),
        forall|j: int| 0 <= j < ls.len() ==> !(#[trigger] ls[j]).spec_linked_to(i as u32),
        0 <= i < ns.len(),
        i <= u32::MAX as int,
    ensures
        solve_sweep(ns, ls, dt, k).0[i] == ns[i],
    decreases k,
{
    if k > 0 {
        lemma_sweep_untouched(ns, ls, dt, k - 1, i);
        lemma_sweep_links(ns, ls, dt, k - 1);
        let prev = solve_sweep(ns, ls, dt, k - 1);
        let l = prev.1[k - 1];
        assert(l == ls[k - 1]);
        assert(!l.spec_linked_to(i as u32));
        assert((i as u32) as int == i);
        assert(l.spec_n1() as int != i && l.spec_n2() as int != i);
        assert(solve_sweep(ns, ls, dt, k).0[i] == prev.0[i]);
    }
}

/// The sweep keeps every node in range with its locks and rotor flag, and
/// every link in range.
#[verifier::rlimit(100)]
pub proof fn lemma_sweep_frame(ns: Seq<Node>, ls: Seq<Link>, dt: i64, k: int)
    requires
        0 <= k <= ls.len(),
        fx_ok(dt as int),
        forall|i: int| 0 <= i < ns.len() ==> (#[trigger] ns[i]).ok(),
        forall|j: int|
            0 <= j < ls.len() ==> (#[trigger] ls[j]).ok() && (ls[j].spec_n1() as int) < ns.len()
                && (ls[j].spec_n2() as int) < ns.len(),
    ensures
        forall|i: int|
            0 <= i < ns.len() ==> {
                let nd = #[trigger] solve_sweep(ns, ls, dt, k).0[i];
                nd.ok() && nd.fixed_p == ns[i].fixed_p && nd.rotor_speed == ns[i].rotor_speed
            },
        forall|j: int| 0 <= j < ls.len() ==> (#[trigger] solve_sweep(ns, ls, dt, k).1[j]).ok(),
    decreases k,
{
    if k > 0 {
        lemma_sweep_frame(ns, ls, dt, k - 1);
        lemma_sweep_links(ns, ls, dt, k - 1);
        let prev = solve_sweep(ns, ls, dt, k - 1);
        let l = prev.1[k - 1];
        let a = prev.0[l.spec_n1() as int];
        let b = prev.0[l.spec_n2() as int];
        lemma_solve_link_shape(a, b, l, dt);
    }
}

impl World {
    /// Lower every node's vertical velocity by gravity for one sub-step.
    #[verifier::loop_isolation(false)]
    pub fn apply_gravity(&mut self)
        requires
            old(self).wf(),
        ensures
            final(self).nodes@.len() == old(self).n_nodes(),
            forall|i: int|
                0 <= i < old(self).n_nodes() ==> #[trigger] final(self).nodes@[i] == gravity_node(
                    old(self).nodes@[i],
                    old(self).dt,
                ),
            final(self).nodes@ == gravity_all(old(self).nodes@, old(self).dt),
            *final(self) == (World { nodes: final(self).nodes, ..*old(self) }),
            final(self).wf(),
    {
        let ghost pre = *old(self);
        let n = self.nodes.len();
        let g = fx_mul(GRAVITY_K, self.dt);
        let mut i: usize = 0;
        while i < n
            invariant
                i <= n,
                g == fx_clip(fx_mul_raw(GRAVITY_K as int, pre.dt as int)),
                self.nodes@.len() == n,
                forall|j: int|
                    0 <= j < i ==> #[trigger] self.nodes@[j] == gravity_node(pre.nodes@[j], pre.dt),
                forall|j: int| i <= j < n ==> #[trigger] self.nodes@[j] == pre.nodes@[j],
                *self == (World { nodes: self.nodes, ..pre }),
            decreases n - i,
        {
            let mut nd = self.nodes[i];
            nd.v.y = fx_sub(nd.v.y, g);
            self.nodes.set(i, nd);
            i = i + 1;
        }
        proof {
            assert(self.nodes@ =~= gravity_all(pre.nodes@, pre.dt));
            assert(self.wf());
        }
    }

    /// One Gauss-Seidel collision pass: each node queries the grid for
    /// candidates and resolves contact against each, in array order.
    #[verifier::loop_isolation(false)]
    pub fn resolve_collisions(&mut self, grid: &HashGrid, r2: i64)
        requires
            old(self).wf(),
            grid.wf(),
            grid.n_points() == old(self).n_nodes(),
            fx_ok(r2 as int),
        ensures
            final(self).nodes@.len() == old(self).n_nodes(),
            forall|i: int|
                0 <= i < old(self).n_nodes() ==> {
                    let nd = #[trigger] final(self).nodes@[i];
                    nd.ok() && nd.fixed_p == old(self).nodes@[i].fixed_p && nd.rotor_speed == old(
                        self,
                    ).nodes@[i].rotor_speed
                },
            final(self).nodes@ == collide_pass(*grid, old(self).nodes@, r2, old(self).n_nodes()),
            *final(self) == (World { nodes: final(self).nodes, ..*old(self) }),
            final(self).wf(),
    {
        let ghost pre = *old(self);
        let n = self.nodes.len();
        let mut i: usize = 0;
        while i < n
            invariant
                i <= n,
                self.nodes@.len() == n,
                self.nodes@ == collide_pass(*grid, pre.nodes@, r2, i as int),
                forall|j: int|
                    0 <= j < n ==> {
                        let nd = #[trigger] self.nodes@[j];
                        nd.ok() && nd.fixed_p == pre.nodes@[j].fixed_p && nd.rotor_speed
                            == pre.nodes@[j].rotor_speed
                    },
                *self == (World { nodes: self.nodes, ..pre }),
            decreases n - i,
        {
            let ghost outer = self.nodes@;
            let px = self.nodes[i].p.x;
            let py = self.nodes[i].p.y;
            let collisions = grid.find(px, py);
            let cn = collisions.len();
            let mut k: usize = 0;
            while k < cn
                invariant
                    k <= cn,
                    cn == collisions@.len(),
                    i < n,
                    self.nodes@.len() == n,
                    outer == collide_pass(*grid, pre.nodes@, r2, i as int),
                    collisions@ == crate::hash_grid::spec_find(*grid, outer[i as int].p.x, outer[
                        i as int
                    ].p.y),
                    self.nodes@ == collide_list(outer, i as int, collisions@, k as int, r2),
                    forall|c: int|
                        0 <= c < cn ==> ((#[trigger] collisions@[c]) as int) < n,
                    forall|j: int|
                        0 <= j < n ==> {
                            let nd = #[trigger] self.nodes@[j];
                            nd.ok() && nd.fixed_p == pre.nodes@[j].fixed_p && nd.rotor_speed
                                == pre.nodes@[j].rotor_speed
                        },
                    *self == (World { nodes: self.nodes, ..pre }),
                decreases cn - k,
            {
                let bi = collisions[k];
                if bi as usize != i {
                    let a = self.nodes[i];
                    let b = self.nodes[bi as usize];
                    let (na, nb) = collide_pair(&a, &b, r2);
                    self.nodes.set(i, na);
                    self.nodes.set(bi as usize, nb);
                }
                k = k + 1;
            }
            proof {
                assert(self.nodes@ == collide_pass(*grid, pre.nodes@, r2, i + 1));
            }
            i = i + 1;
        }
        proof {
            assert(self.wf());
        }
    }

    /// Snap every locked axis to its pinned coordinate and zero that axis'
    /// velocity; pins are authoritative after collision.
    #[verifier::loop_isolation(false)]
    pub fn apply_locks(&mut self)
        requires
            old(self).wf(),
        ensures
            final(self).nodes@.len() == old(self).n_nodes(),
            forall|i: int|
                0 <= i < old(self).n_nodes() ==> #[trigger] final(self).nodes@[i] == locked_node(
                    old(self).nodes@[i],
                ),
            final(self).nodes@ == lock_all(old(self).nodes@),
            *final(self) == (World { nodes: final(self).nodes, ..*old(self) }),
            final(self).wf(),
    {
        let ghost pre = *old(self);
        let n = self.nodes.len();
        let mut i: usize = 0;
        while i < n
            invariant
                i <= n,
                self.nodes@.len() == n,
                forall|j: int|
                    0 <= j < i ==> #[trigger] self.nodes@[j] == locked_node(pre.nodes@[j]),
                forall|j: int| i <= j < n ==> #[trigger] self.nodes@[j] == pre.nodes@[j],
                *self == (World { nodes: self.nodes, ..pre }),
            decreases n - i,
        {
            let mut nd = self.nodes[i];
            if nd.fixed_x() {
                nd.p.x = nd.fixed_p.x;
                nd.v.x = 0;
            }
            if nd.fixed_y() {
                nd.p.y = nd.fixed_p.y;
                nd.v.y = 0;
            }
            self.nodes.set(i, nd);
            i = i + 1;
        }
        proof {
            assert(self.nodes@ =~= lock_all(pre.nodes@));
            assert(self.wf());
        }
    }

    /// The sequential constraint solve over every link.
    #[verifier::loop_isolation(false)]
    #[verifier::rlimit(100)]
    pub fn solve_links(&mut self)
        requires
            old(self).wf(),
        ensures
            final(self).nodes@ == solve_sweep(
                old(self).nodes@,
                old(self).links@,
                old(self).dt,
                old(self).n_links(),
            ).0,
            final(self).links@ == solve_sweep(
                old(self).nodes@,
                old(self).links@,
                old(self).dt,
                old(self).n_links(),
            ).1,
            *final(self) == (World {
                nodes: final(self).nodes,
                links: final(self).links,
                ..*old(self)
            }),
            final(self).wf(),
    {
        let ghost pre = *old(self);
        let ghost ns0 = pre.nodes@;
        let ghost ls0 = pre.links@;
        let m = self.links.len();
        let mut li: usize = 0;
        while li < m
            invariant
                li <= m,
                self.nodes@ == solve_sweep(ns0, ls0, pre.dt, li as int).0,
                self.links@ == solve_sweep(ns0, ls0, pre.dt, li as int).1,
                *self == (World { nodes: self.nodes, links: self.links, ..pre }),
            decreases m - li,
        {
            proof {
                lemma_sweep_links(ns0, ls0, pre.dt, li as int);
                lemma_sweep_frame(ns0, ls0, pre.dt, li as int);
            }
            let l = self.links[li];
            let n1 = l.n1() as usize;
            let n2 = l.n2() as usize;
            let a = self.nodes[n1];
            let b = self.nodes[n2];
            let (na, nb, nl) = solve_link_pair(&a, &b, &l, self.dt);
            self.nodes.set(n1, na);
            self.nodes.set(n2, nb);
            self.links.set(li, nl);
            li = li + 1;
        }
        proof {
            lemma_sweep_links(ns0, ls0, pre.dt, m as int);
            lemma_sweep_frame(ns0, ls0, pre.dt, m as int);
            assert forall|j1: int, j2: int|
                0 <= j1 < j2 < self.links@.len() implies !(#[trigger] self.links@[j1]).connects(
                (#[trigger] self.links@[j2]).spec_n1(),
                self.links@[j2].spec_n2(),
            ) by {
                assert(pre.links@[j1].connects(self.links@[j2].spec_n1(), self.links@[j2].spec_n2())
                    == self.links@[j1].connects(
                    self.links@[j2].spec_n1(),
                    self.links@[j2].spec_n2(),
                ));
            }
            assert(self.adj_ok()) by {
                assert forall|nd: int, k: int|
                    0 <= nd < self.n_nodes() && 0 <= k < self.node_links@[nd]@.len() implies {
                    let lx = #[trigger] self.node_links@[nd]@[k];
                    (lx as int) < self.n_links() && self.links@[lx as int].spec_linked_to(nd as u32)
                } by {
                    let lx = self.node_links@[nd]@[k];
                    assert((lx as int) < pre.n_links() && pre.links@[lx as int].spec_linked_to(
                        nd as u32,
                    ));
                }
                assert forall|lx: int| 0 <= lx < self.n_links() implies self.adj_has(
                    (#[trigger] self.links@[lx]).spec_n1() as int,
                    lx,
                ) && self.adj_has(self.links@[lx].spec_n2() as int, lx) by {
                    assert(pre.adj_has(pre.links@[lx].spec_n1() as int, lx));
                    assert(pre.adj_has(pre.links@[lx].spec_n2() as int, lx));
                    assert(self.links@[lx].spec_n1() == pre.links@[lx].spec_n1());
                    assert(self.links@[lx].spec_n2() == pre.links@[lx].spec_n2());
                }
            }
            assert(self.wf());
        }
    }

    /// One physics sub-step at the current `dt`: gravity, then broad-phase
    /// collision over a fresh spatial hash, then axis locking, then the
    /// constraint solve — `step_outcome` states the whole composition.
    /// Kinds, endpoints, locks and rotors never change; only a hydraulic
    /// rod's rest length advances. A node with a locked axis and no
    /// incident link ends the step exactly on its pin.
    #[verifier::loop_isolation(false)]
    pub fn step(&mut self)
        requires
            old(self).wf(),
        ensures
            final(self).wf(),
            step_outcome(*old(self), final(self).nodes@, final(self).links@),
            final(self).nodes@.len() == old(self).n_nodes(),
            final(self).links@.len() == old(self).n_links(),
            forall|i: int|
                0 <= i < old(self).n_nodes() ==> (#[trigger] final(self).nodes@[i]).fixed_p == old(
                    self,
                ).nodes@[i].fixed_p && final(self).nodes@[i].rotor_speed == old(
                    self,
                ).nodes@[i].rotor_speed,
            forall|li: int|
                0 <= li < old(self).n_links() ==> #[trigger] final(self).links@[li]
                    == hydraulic_advance(old(self).links@[li], old(self).dt),
            final(self).node_links == old(self).node_links,
            final(self).node_remove_queue == old(self).node_remove_queue,
            final(self).link_remove_queue == old(self).link_remove_queue,
            final(self).radius == old(self).radius,
            final(self).dt == old(self).dt,
            final(self).energy == old(self).energy,
            forall|i: int|
                0 <= i < old(self).n_nodes() && old(self).node_links@[i]@.len() == 0 ==> {
                    let nd = #[trigger] final(self).nodes@[i];
                    &&& (old(self).nodes@[i].spec_fixed_x() ==> nd.p.x == old(
                        self,
                    ).nodes@[i].fixed_p.x && nd.v.x == 0)
                    &&& (old(self).nodes@[i].spec_fixed_y() ==> nd.p.y == old(
                        self,
                    ).nodes@[i].fixed_p.y && nd.v.y == 0)
                },
    {
        let ghost pre = *old(self);
        let n = self.nodes.len();
        let mut points: Vec<(i64, i64)> = Vec::new();
        let mut i: usize = 0;
        while i < n
            invariant
                i <= n,
                points@.len() == i,
                forall|j: int|
                    0 <= j < i ==> #[trigger] points@[j] == (
                        self.nodes@[j].p.x,
                        self.nodes@[j].p.y,
                    ),
                forall|j: int|
                    0 <= j < i ==> fx_ok((#[trigger] points@[j]).0 as int) && fx_ok(
                        points@[j].1 as int,
                    ),
            decreases n - i,
        {
            let nd = &self.nodes[i];
            points.push((nd.p.x, nd.p.y));
            i = i + 1;
        }
        proof {
            assert(points@ =~= world_points(pre.nodes@));
        }
        let scale = self.scale();
        let q = crate::fixed::fx_div(self.radius, scale);
        // the fixed-point grid cannot take a cell thinner than one raw unit
        let r = if q < 1 {
            1
        } else {
            q
        };
        proof {
            assert(r == step_cell(pre));
        }
        let grid = HashGrid::new(&points, r);
        let r2 = fx_mul(r, 131072);
        proof {
            assert(r2 == step_r2(pre));
        }
        self.apply_gravity();
        let ghost after_grav = *self;
        self.resolve_collisions(&grid, r2);
        let ghost after_coll = *self;
        self.apply_locks();
        let ghost mid = *self;
        self.solve_links();
        proof {
            assert(crate::hash_grid::grid_matches(grid, world_points(pre.nodes@), step_cell(pre)));
            assert(after_grav.nodes@ == gravity_all(pre.nodes@, pre.dt));
            assert(after_coll.nodes@ == collide_pass(grid, after_grav.nodes@, r2, n as int));
            assert(mid.nodes@ == lock_all(after_coll.nodes@));
            assert(self.nodes@ == solve_sweep(mid.nodes@, pre.links@, pre.dt, pre.n_links()).0);
            assert(self.links@ == solve_sweep(mid.nodes@, pre.links@, pre.dt, pre.n_links()).1);
            assert(step_outcome(pre, self.nodes@, self.links@));
        }
        proof {
            lemma_sweep_links(mid.nodes@, mid.links@, mid.dt, mid.n_links());
            lemma_sweep_frame(mid.nodes@, mid.links@, mid.dt, mid.n_links());
            assert forall|i2: int|
                0 <= i2 < pre.n_nodes() && pre.node_links@[i2]@.len() == 0 implies {
                let nd = #[trigger] self.nodes@[i2];
                &&& (pre.nodes@[i2].spec_fixed_x() ==> nd.p.x == pre.nodes@[i2].fixed_p.x && nd.v.x
                    == 0)
                &&& (pre.nodes@[i2].spec_fixed_y() ==> nd.p.y == pre.nodes@[i2].fixed_p.y && nd.v.y
                    == 0)
            } by {
                assert forall|j: int|
                    0 <= j < mid.links@.len() implies !(#[trigger] mid.links@[j]).spec_linked_to(
                    i2 as u32,
                ) by {
                    if mid.links@[j].spec_linked_to(i2 as u32) {
                        assert(pre.links@[j].spec_linked_to(i2 as u32));
                        assert(pre.adj_has(i2, j));
                        let w = choose|w: int|
                            0 <= w < pre.node_links@[i2]@.len() && #[trigger] pre.node_links@[i2]@[w]
                                == j;
                        assert(false);
                    }
                }
                lemma_sweep_untouched(mid.nodes@, mid.links@, mid.dt, mid.n_links(), i2);
                assert(mid.nodes@[i2] == locked_node(after_coll.nodes@[i2]));
                assert(after_coll.nodes@[i2].fixed_p == pre.nodes@[i2].fixed_p);
            }
            assert forall|i2: int| 0 <= i2 < pre.n_nodes() implies (
            #[trigger] self.nodes@[i2]).fixed_p == pre.nodes@[i2].fixed_p
                && self.nodes@[i2].rotor_speed == pre.nodes@[i2].rotor_speed by {
                assert(mid.nodes@[i2] == locked_node(after_coll.nodes@[i2]));
                assert(after_coll.nodes@[i2].fixed_p == pre.nodes@[i2].fixed_p
                    && after_coll.nodes@[i2].rotor_speed == pre.nodes@[i2].rotor_speed);
            }
        }
    }
}

} // verus!
