use truss::fixed::FX_ONE;
use truss::integrator::{Euler, Integrator, RK4};
use truss::link::Link;
use truss::node::Node;
use truss::world::World;

fn fx(v: i64) -> i64 {
    v * FX_ONE
}

/// A tenth of a unit of time, in raw fixed point.
const DT: i64 = 6554;

#[test]
fn energy_stays_zero_while_paused() {
    // a world at rest with dt == 0 held across updates keeps zero energy
    let mut w = World::default();
    w.add(Node::new(0, 0));
    let mut euler = Euler::new();
    w.update(&mut euler, 0, 4);
    assert_eq!(w.energy, 0);
    w.update(&mut euler, 0, 4);
    assert_eq!(w.energy, 0);
}

#[test]
fn energy_never_negative() {
    let mut w = World::default();
    let a = w.add(Node::new(0, 0));
    let b = w.add(Node::new(fx(1), 0));
    w.link_node(Link::Spring { n1: a, n2: b, dist: 0, stiffness: FX_ONE });
    let mut euler = Euler::new();
    for _ in 0..20 {
        w.update(&mut euler, DT, 4);
        assert!(w.energy >= 0);
    }
}

#[test]
fn slack_rope_exerts_no_force() {
    // two nodes at rest a unit apart under a rope two units long feel
    // nothing from it
    let mut w = World::default();
    let a = w.add(Node::new(0, 0));
    let b = w.add(Node::new(fx(2), 0));
    w.link_node(Link::Rope { n1: a, n2: b, dist: 0 });
    assert_eq!(w.links[0].dist(), fx(2));
    w.move_node(b, -fx(1), 0, false);
    // dt stays zero, so gravity adds nothing and only constraints could act
    w.step();
    assert_eq!(w.nodes[a as usize].p.x, 0);
    assert_eq!(w.nodes[a as usize].p.y, 0);
    assert_eq!(w.nodes[b as usize].p.x, fx(1));
    assert_eq!(w.nodes[a as usize].v.x, 0);
    assert_eq!(w.nodes[a as usize].v.y, 0);
    assert_eq!(w.nodes[b as usize].v.x, 0);
    assert_eq!(w.nodes[b as usize].v.y, 0);
}

#[test]
fn taut_rope_pulls_back() {
    let mut w = World::default();
    let a = w.add(Node::new(0, 0));
    let b = w.add(Node::new(fx(1), 0));
    w.link_node(Link::Rope { n1: a, n2: b, dist: 0 });
    w.move_node(b, fx(1), 0, false);
    w.step();
    // the stretched rope pulled the endpoints toward each other
    assert!(w.nodes[a as usize].p.x > 0);
    assert!(w.nodes[b as usize].p.x < fx(2));
}

#[test]
fn fixed_axis_holds_exactly() {
    // a node pinned on the horizontal axis keeps exactly that coordinate,
    // step after step, while gravity pulls it down the free axis
    let mut w = World::default();
    let a = w.add(Node::new_fixed_x(fx(5), fx(3)));
    let mut euler = Euler::new();
    for _ in 0..10 {
        w.update(&mut euler, DT, 4);
        assert_eq!(w.nodes[a as usize].p.x, fx(5));
        assert_eq!(w.nodes[a as usize].v.x, 0);
    }
    assert!(w.nodes[a as usize].p.y < fx(3));
}

#[test]
fn fully_fixed_node_never_moves() {
    let mut w = World::default();
    let a = w.add(Node::new_fixed(fx(5), fx(3)));
    let mut euler = Euler::new();
    for _ in 0..10 {
        w.update(&mut euler, DT, 4);
    }
    assert_eq!(w.nodes[a as usize].p.x, fx(5));
    assert_eq!(w.nodes[a as usize].p.y, fx(3));
    assert_eq!(w.nodes[a as usize].v.x, 0);
    assert_eq!(w.nodes[a as usize].v.y, 0);
}

#[test]
fn gravity_lowers_vertical_velocity() {
    let mut w = World::default();
    let a = w.add(Node::new(0, 0));
    w.dt = FX_ONE;
    w.step();
    // one full second of gravity at strength six
    assert_eq!(w.nodes[a as usize].v.y, -fx(6));
    assert_eq!(w.nodes[a as usize].v.x, 0);
}

#[test]
fn hydraulic_rest_length_advances() {
    let mut w = World::default();
    let a = w.add(Node::new_fixed(0, 0));
    let b = w.add(Node::new_fixed(fx(1), 0));
    w.link_node(Link::Hydraulic { n1: a, n2: b, dist: 0, speed: FX_ONE });
    assert_eq!(w.links[0].dist(), fx(1));
    w.dt = DT;
    w.step();
    assert_eq!(w.links[0].dist(), fx(1) + DT);
}

#[test]
fn update_sets_substep_dt() {
    let mut w = World::default();
    w.add(Node::new(0, 0));
    let mut euler = Euler::new();
    w.update(&mut euler, fx(1), 4);
    assert_eq!(w.dt, fx(1) / 4);
}

#[test]
fn rk4_preserves_structure() {
    let mut w = World::default();
    let a = w.add(Node::new(0, 0));
    let b = w.add(Node::new(fx(1), 0));
    w.link_node(Link::Link { n1: a, n2: b, dist: 0 });
    let mut rk4 = RK4::new();
    w.update(&mut rk4, DT, 2);
    assert_eq!(w.nodes.len(), 2);
    assert_eq!(w.links.len(), 1);
    assert!(w.energy >= 0);
}

#[test]
fn collision_pushes_overlapping_nodes_apart() {
    let mut w = World::default();
    // two nodes closer than the contact diameter (radius/scale = 3276 raw)
    let a = w.add(Node::new(0, 0));
    let b = w.add(Node::new(3000, 0));
    w.step();
    let ax = w.nodes[a as usize].p.x;
    let bx = w.nodes[b as usize].p.x;
    assert!(bx - ax > 3000);
}

#[test]
fn rotor_drives_its_neighbor() {
    let mut w = World::default();
    let hub = w.add(Node::new_rotor(0, 0, FX_ONE));
    let arm = w.add(Node::new(fx(1), 0));
    w.link_node(Link::Link { n1: hub, n2: arm, dist: 0 });
    w.dt = DT;
    w.step();
    // the hub stays pinned; the arm picks up a tangential velocity that
    // beats gravity
    assert_eq!(w.nodes[hub as usize].p.x, 0);
    assert_eq!(w.nodes[hub as usize].p.y, 0);
    assert!(w.nodes[arm as usize].v.y > 0);
    assert_eq!(w.nodes[arm as usize].v.x, 0);
}

#[test]
fn spring_pulls_stretched_pair_together() {
    let mut w = World::default();
    let a = w.add(Node::new(0, 0));
    let b = w.add(Node::new(fx(1), 0));
    w.link_node(Link::Spring { n1: a, n2: b, dist: 0, stiffness: FX_ONE });
    w.move_node(b, fx(1), 0, false);
    w.dt = DT;
    w.step();
    assert!(w.nodes[a as usize].v.x > 0);
    assert!(w.nodes[b as usize].v.x < 0);
}

#[test]
fn negative_rotor_drives_the_other_way() {
    let mut w = World::default();
    let hub = w.add(Node::new_rotor(0, 0, -FX_ONE));
    let arm = w.add(Node::new(fx(1), 0));
    w.link_node(Link::Link { n1: hub, n2: arm, dist: 0 });
    w.dt = DT;
    w.step();
    // a negative drive is still a rotor; the arm swings the opposite way
    assert!(w.nodes[arm as usize].v.y < 0);
    assert_eq!(w.nodes[arm as usize].v.x, 0);
}
