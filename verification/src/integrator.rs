//! Time stepping: a pluggable integrator drives `World::step` and advances
//! positions; `World::update` runs it for a frame's worth of fixed
//! sub-steps and recomputes the kinetic energy.

use vstd::prelude::*;

use crate::fixed::{fx_add, fx_clip, fx_div, fx_div_raw, fx_mul, fx_mul_raw, fx_ok, FX_ONE};
use crate::link::Link;
use crate::node::Node;
use crate::vec2::Vec2;
use crate::world::World;

verus! {

/// A time-stepping policy: one call advances the world by one sub-step of
/// its current `dt`, preserving the world's structure (counts, adjacency,
/// queues, scale, time step, stored energy, locks and rotors).
pub trait Integrator: Sized {
    fn new() -> Self;

    fn solve(&mut self, world: &mut World)
        requires
            old(world).wf(),
        ensures
            final(world).wf(),
            final(world).nodes@.len() == old(world).n_nodes(),
            final(world).links@.len() == old(world).n_links(),
            forall|i: int|
                0 <= i < old(world).n_nodes() ==> (#[trigger] final(world).nodes@[i]).fixed_p
                    == old(world).nodes@[i].fixed_p && final(world).nodes@[i].rotor_speed == old(
                    world,
                ).nodes@[i].rotor_speed,
            final(world).node_links == old(world).node_links,
            final(world).node_remove_queue == old(world).node_remove_queue,
            final(world).link_remove_queue == old(world).link_remove_queue,
            final(world).radius == old(world).radius,
            final(world).dt == old(world).dt,
            final(world).energy == old(world).energy,
    ;
}

/// Every node advanced by its own velocity for one sub-step.
pub open spec fn integrate_all(ns: Seq<Node>, dt: i64) -> Seq<Node> {
    Seq::new(
        ns.len(),
        |i: int| Node { p: ns[i].p.spec_add(ns[i].v.spec_scale(dt)), ..ns[i] },
    )
}

/// What one semi-implicit Euler call leaves behind: the nodes of one
/// sub-step (`step_outcome`), each then advanced by the velocity that step
/// produced; the links are the step's links.
pub open spec fn euler_outcome(w: World, ns: Seq<Node>, ls: Seq<Link>) -> bool {
    exists|mid: Seq<Node>|
        #[trigger] crate::solve::step_outcome(w, mid, ls) && ns == integrate_all(mid, w.dt)
}

/// Semi-implicit Euler: solve the constraints, then advance each position
/// by the velocity the solve just produced.
pub struct Euler;

impl Integrator for Euler {
    fn new() -> Self {
        Euler
    }

    fn solve(&mut self, world: &mut World)
        ensures
            euler_outcome(*old(world), final(world).nodes@, final(world).links@),
            // a pinned node nothing is linked to stays exactly on its pin
            forall|i: int|
                0 <= i < old(world).n_nodes() && old(world).node_links@[i]@.len() == 0 ==> {
                    let nd = #[trigger] final(world).nodes@[i];
                    &&& (old(world).nodes@[i].spec_fixed_x() ==> nd.p.x == old(
                        world,
                    ).nodes@[i].fixed_p.x && nd.v.x == 0)
                    &&& (old(world).nodes@[i].spec_fixed_y() ==> nd.p.y == old(
                        world,
                    ).nodes@[i].fixed_p.y && nd.v.y == 0)
                },
    {
        let ghost pre = *world;
        world.step();
        let ghost stepped = *world;
        let n = world.nodes.len();
        let mut i: usize = 0;
        while i < n
            invariant
                i <= n,
                stepped.wf(),
                world.nodes@.len() == n,
                n == stepped.n_nodes(),
                forall|j: int|
                    0 <= j < i ==> #[trigger] world.nodes@[j] == (Node {
                        p: stepped.nodes@[j].p.spec_add(
                            stepped.nodes@[j].v.spec_scale(stepped.dt),
                        ),
                        ..stepped.nodes@[j]
                    }),
                forall|j: int| i <= j < n ==> #[trigger] world.nodes@[j] == stepped.nodes@[j],
                *world == (World { nodes: world.nodes, ..stepped }),
            decreases n - i,
        {
            let mut nd = world.nodes[i];
            nd.p = nd.p.add(nd.v.scale(world.dt));
            world.nodes.set(i, nd);
            i = i + 1;
        }
        proof {
            assert(world.wf());
            assert(world.nodes@ =~= integrate_all(stepped.nodes@, pre.dt));
            assert(euler_outcome(pre, world.nodes@, world.links@));
            assert forall|i2: int|
                0 <= i2 < pre.n_nodes() && pre.node_links@[i2]@.len() == 0 implies {
                let nd = #[trigger] world.nodes@[i2];
                &&& (pre.nodes@[i2].spec_fixed_x() ==> nd.p.x == pre.nodes@[i2].fixed_p.x && nd.v.x
                    == 0)
                &&& (pre.nodes@[i2].spec_fixed_y() ==> nd.p.y == pre.nodes@[i2].fixed_p.y && nd.v.y
                    == 0)
            } by {
                let sn = stepped.nodes@[i2];
                assert(crate::fixed::iabs(0) * crate::fixed::iabs(stepped.dt as int) == 0)
                    by (nonlinear_arith);
                assert((0int) / (FX_ONE as int) == 0);
                if pre.nodes@[i2].spec_fixed_x() {
                    assert(sn.p.x == pre.nodes@[i2].fixed_p.x && sn.v.x == 0);
                    assert(fx_mul_raw(sn.v.x as int, stepped.dt as int) == 0);
                }
                if pre.nodes@[i2].spec_fixed_y() {
                    assert(sn.p.y == pre.nodes@[i2].fixed_p.y && sn.v.y == 0);
                    assert(fx_mul_raw(sn.v.y as int, stepped.dt as int) == 0);
                }
            }
        }
    }
}

/// A classical fourth-order sampler: the step is evaluated at the start, at
/// two half-step states and at a full-step state, and the four slopes are
/// blended.
pub struct RK4;

impl RK4 {
    /// Reset the nodes to the base state displaced by `m` times the sampled
    /// slope, run one step at `m` times the base `dt`, and hand back the new
    /// slope.
    #[verifier::loop_isolation(false)]
    fn sample(
        world: &mut World,
        p0: &Vec<Vec2>,
        v0: &Vec<Vec2>,
        pa: &Vec<Vec2>,
        va: &Vec<Vec2>,
        m: i64,
        dt0: i64,
    ) -> (r: (Vec<Vec2>, Vec<Vec2>))
        requires
            old(world).wf(),
            p0@.len() == old(world).n_nodes(),
            v0@.len() == old(world).n_nodes(),
            pa@.len() == old(world).n_nodes(),
            va@.len() == old(world).n_nodes(),
            forall|i: int| 0 <= i < old(world).n_nodes() ==> (#[trigger] p0@[i]).ok(),
            forall|i: int| 0 <= i < old(world).n_nodes() ==> (#[trigger] v0@[i]).ok(),
            forall|i: int| 0 <= i < old(world).n_nodes() ==> (#[trigger] pa@[i]).ok(),
            forall|i: int| 0 <= i < old(world).n_nodes() ==> (#[trigger] va@[i]).ok(),
            fx_ok(m as int),
            fx_ok(dt0 as int),
        ensures
            final(world).wf(),
            final(world).nodes@.len() == old(world).n_nodes(),
            final(world).links@.len() == old(world).n_links(),
            forall|i: int|
                0 <= i < old(world).n_nodes() ==> (#[trigger] final(world).nodes@[i]).fixed_p
                    == old(world).nodes@[i].fixed_p && final(world).nodes@[i].rotor_speed == old(
                    world,
                ).nodes@[i].rotor_speed,
            final(world).node_links == old(world).node_links,
            final(world).node_remove_queue == old(world).node_remove_queue,
            final(world).link_remove_queue == old(world).link_remove_queue,
            final(world).radius == old(world).radius,
            final(world).energy == old(world).energy,
            r.0@.len() == old(world).n_nodes(),
            r.1@.len() == old(world).n_nodes(),
            forall|i: int| 0 <= i < old(world).n_nodes() ==> (#[trigger] r.0@[i]).ok(),
            forall|i: int| 0 <= i < old(world).n_nodes() ==> (#[trigger] r.1@[i]).ok(),
    {
        let ghost pre = *world;
        let n = world.nodes.len();
        let mut i: usize = 0;
        while i < n
            invariant
                i <= n,
                world.nodes@.len() == n,
                forall|j: int|
                    0 <= j < n ==> {
                        let nd = #[trigger] world.nodes@[j];
                        nd.ok() && nd.fixed_p == pre.nodes@[j].fixed_p && nd.rotor_speed
                            == pre.nodes@[j].rotor_speed
                    },
                *world == (World { nodes: world.nodes, ..pre }),
            decreases n - i,
        {
            let mut nd = world.nodes[i];
            nd.p = p0[i].add(pa[i].scale(m));
            nd.v = v0[i].add(va[i].scale(m));
            world.nodes.set(i, nd);
            i = i + 1;
        }
        world.dt = fx_mul(dt0, m);
        proof {
            assert(world.wf());
        }
        world.step();
        let ghost stepped = *world;
        let mut qp: Vec<Vec2> = Vec::new();
        let mut qv: Vec<Vec2> = Vec::new();
        let mut k: usize = 0;
        while k < n
            invariant
                k <= n,
                qp@.len() == k,
                qv@.len() == k,
                *world == stepped,
                stepped.wf(),
                stepped.n_nodes() == n,
                forall|j: int| 0 <= j < k ==> (#[trigger] qp@[j]).ok(),
                forall|j: int| 0 <= j < k ==> (#[trigger] qv@[j]).ok(),
            decreases n - k,
        {
            let nd = &world.nodes[k];
            qp.push(nd.p.sub(p0[k]).sub(pa[k].scale(m)));
            qv.push(nd.v.sub(v0[k]).sub(va[k].scale(m)));
            k = k + 1;
        }
        (qp, qv)
    }
}

impl Integrator for RK4 {
    fn new() -> Self {
        RK4
    }

    #[verifier::loop_isolation(false)]
    fn solve(&mut self, world: &mut World) {
        let ghost pre = *world;
        let dt0 = world.dt;
        let n = world.nodes.len();
        let mut p0: Vec<Vec2> = Vec::new();
        let mut v0: Vec<Vec2> = Vec::new();
        let mut i: usize = 0;
        while i < n
            invariant
                i <= n,
                p0@.len() == i,
                v0@.len() == i,
                forall|j: int| 0 <= j < i ==> (#[trigger] p0@[j]).ok(),
                forall|j: int| 0 <= j < i ==> (#[trigger] v0@[j]).ok(),
            decreases n - i,
        {
            let nd = &world.nodes[i];
            p0.push(nd.p);
            v0.push(nd.v);
            i = i + 1;
        }
        world.step();
        let ghost stepped = *world;
        let mut p1: Vec<Vec2> = Vec::new();
        let mut v1: Vec<Vec2> = Vec::new();
        let mut k: usize = 0;
        while k < n
            invariant
                k <= n,
                p1@.len() == k,
                v1@.len() == k,
                *world == stepped,
                stepped.wf(),
                stepped.n_nodes() == n,
                forall|j: int| 0 <= j < k ==> (#[trigger] p1@[j]).ok(),
                forall|j: int| 0 <= j < k ==> (#[trigger] v1@[j]).ok(),
            decreases n - k,
        {
            let nd = &world.nodes[k];
            p1.push(nd.p.sub(p0[k]));
            v1.push(nd.v.sub(v0[k]));
            k = k + 1;
        }
        let (p2, v2) = Self::sample(world, &p0, &v0, &p1, &v1, 32768, dt0);
        let (p3, v3) = Self::sample(world, &p0, &v0, &p2, &v2, 32768, dt0);
        let (p4, v4) = Self::sample(world, &p0, &v0, &p3, &v3, FX_ONE, dt0);
        let ghost sampled = *world;
        let mut e: usize = 0;
        while e < n
            invariant
                e <= n,
                world.nodes@.len() == n,
                forall|j: int|
                    0 <= j < n ==> {
                        let nd = #[trigger] world.nodes@[j];
                        nd.ok() && nd.fixed_p == sampled.nodes@[j].fixed_p && nd.rotor_speed
                            == sampled.nodes@[j].rotor_speed
                    },
                *world == (World { nodes: world.nodes, ..sampled }),
            decreases n - e,
        {
            let mut nd = world.nodes[e];
            let combo_p = p1[e].add(p2[e].scale(131072)).add(p3[e].scale(131072)).add(
                p4[e],
            ).scale_div(393216);
            let combo_v = v1[e].add(v2[e].scale(131072)).add(v3[e].scale(131072)).add(
                v4[e],
            ).scale_div(393216);
            nd.p = p0[e].add(combo_p);
            nd.v = v0[e].add(combo_v);
            nd.p = nd.p.add(nd.v.scale(dt0));
            world.nodes.set(e, nd);
            e = e + 1;
        }
        world.dt = dt0;
        proof {
            assert(world.wf());
        }
    }
}

/// The total kinetic energy of the first `k` nodes, accumulated with the
/// saturating sum.
pub open spec fn energy_sum(ns: Seq<Node>, k: int) -> int
    decreases k,
{
    if k <= 0 {
        0
    } else {
        fx_clip(energy_sum(ns, k - 1) + ns[k - 1].spec_kinetic_energy())
    }
}

/// A sum of kinetic energies is never negative.
pub proof fn lemma_energy_sum_nonneg(ns: Seq<Node>, k: int)
    requires
        forall|i: int| 0 <= i < ns.len() ==> (#[trigger] ns[i]).ok(),
        k <= ns.len(),
    ensures
        energy_sum(ns, k) >= 0,
        fx_ok(energy_sum(ns, k)),
    decreases k,
{
    if k > 0 {
        lemma_energy_sum_nonneg(ns, k - 1);
        crate::vec2::lemma_dot_self_nonneg(ns[k - 1].v);
        assert(fx_mul_raw(32768, ns[k - 1].v.spec_len2() as int) >= 0) by (nonlinear_arith)
            requires
                ns[k - 1].v.spec_len2() >= 0,
        ;
    }
}

impl World {
    /// Advance the world by a frame: split `dt` into `steps` fixed
    /// sub-steps, run the integrator once per sub-step, and recompute the
    /// stored kinetic energy. A zero sub-step means the world is paused:
    /// nothing moves and the energy is left as it was.
    #[verifier::loop_isolation(false)]
    pub fn update<I: Integrator>(&mut self, integrator: &mut I, dt: i64, steps: u32)
        requires
            old(self).wf(),
            fx_ok(dt as int),
            1 <= steps <= 0x1000_0000,
        ensures
            final(self).wf(),
            final(self).dt == fx_clip(
                fx_div_raw(dt as int, (steps as int) * (FX_ONE as int)),
            ),
            final(self).dt == 0 ==> *final(self) == (World {
                dt: final(self).dt,
                ..*old(self)
            }),
            final(self).dt != 0 ==> final(self).energy == energy_sum(
                final(self).nodes@,
                final(self).n_nodes(),
            ),
            final(self).energy >= 0,
            final(self).nodes@.len() == old(self).n_nodes(),
            final(self).links@.len() == old(self).n_links(),
            forall|i: int|
                0 <= i < old(self).n_nodes() ==> (#[trigger] final(self).nodes@[i]).fixed_p == old(
                    self,
                ).nodes@[i].fixed_p && final(self).nodes@[i].rotor_speed == old(
                    self,
                ).nodes@[i].rotor_speed,
            final(self).node_links == old(self).node_links,
            final(self).node_remove_queue == old(self).node_remove_queue,
            final(self).link_remove_queue == old(self).link_remove_queue,
            final(self).radius == old(self).radius,
    {
        let ghost pre = *old(self);
        let steps_fx: i64 = (steps as i64) * FX_ONE;
        let q = fx_div(dt, steps_fx);
        self.dt = q;
        if q != 0 {
            let mut s: u32 = 0;
            while s < steps
                invariant
                    s <= steps,
                    self.wf(),
                    self.dt == q,
                    self.nodes@.len() == pre.n_nodes(),
                    self.links@.len() == pre.n_links(),
                    forall|i: int|
                        0 <= i < pre.n_nodes() ==> (#[trigger] self.nodes@[i]).fixed_p
                            == pre.nodes@[i].fixed_p && self.nodes@[i].rotor_speed
                            == pre.nodes@[i].rotor_speed,
                    self.node_links == pre.node_links,
                    self.node_remove_queue == pre.node_remove_queue,
                    self.link_remove_queue == pre.link_remove_queue,
                    self.radius == pre.radius,
                    self.energy == pre.energy,
                decreases steps - s,
            {
                integrator.solve(self);
                s = s + 1;
            }
            let n = self.nodes.len();
            let mut e: i64 = 0;
            let mut i: usize = 0;
            while i < n
                invariant
                    i <= n,
                    self.wf(),
                    n == self.n_nodes(),
                    e == energy_sum(self.nodes@, i as int),
                    e >= 0,
                    fx_ok(e as int),
                decreases n - i,
            {
                let ke = self.nodes[i].kinetic_energy();
                e = fx_add(e, ke);
                proof {
                    assert(e >= 0);
                }
                i = i + 1;
            }
            self.energy = e;
        }
    }
}

} // verus!
