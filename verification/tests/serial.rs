use truss::fixed::FX_ONE;
use truss::link::Link;
use truss::node::Node;
use truss::serial::LoadError;
use truss::world::World;

fn fx(v: i64) -> i64 {
    v * FX_ONE
}

fn sample_world() -> World {
    let mut w = World::default();
    let a = w.add(Node::new_fixed(0, 0));
    let b = w.add(Node::new(fx(1), 0));
    let c = w.add(Node::new(fx(2), 0));
    let d = w.add(Node::new(fx(3), 0));
    let e = w.add(Node::new_rotor(fx(4), 0, fx(1)));
    w.nodes[b as usize].v.x = fx(2);
    w.nodes[b as usize].v.y = -fx(1);
    w.link_node(Link::Link { n1: a, n2: b, dist: 0 });
    w.link_node(Link::Rope { n1: b, n2: c, dist: 0 });
    w.link_node(Link::Hydraulic { n1: c, n2: d, dist: 0, speed: fx(1) / 2 });
    w.link_node(Link::Spring { n1: d, n2: e, dist: 0, stiffness: fx(3) });
    w
}

#[test]
fn round_trip_restores_every_field() {
    // saving and loading yields the same radius, nodes (position, velocity,
    // locks, rotor) and links (endpoints, rest length, kind parameters)
    let w = sample_world();
    let bytes = w.serealize();
    let r = World::deserialize(&bytes).unwrap();
    assert_eq!(r.radius, w.radius);
    assert_eq!(r.nodes.len(), w.nodes.len());
    for i in 0..w.nodes.len() {
        assert_eq!(r.nodes[i], w.nodes[i]);
    }
    assert_eq!(r.links.len(), w.links.len());
    for i in 0..w.links.len() {
        assert_eq!(r.links[i], w.links[i]);
    }
    assert_eq!(r.dt, 0);
    assert_eq!(r.energy, 0);
}

#[test]
fn round_trip_twice_is_stable() {
    let w = sample_world();
    let bytes = w.serealize();
    let r = World::deserialize(&bytes).unwrap();
    let bytes2 = r.serealize();
    assert_eq!(bytes, bytes2);
}

#[test]
fn truncated_input_is_rejected() {
    let w = sample_world();
    let bytes = w.serealize();
    for cut in [0, 3, 10, bytes.len() - 1] {
        assert!(matches!(World::deserialize(&bytes[..cut]), Err(LoadError::Truncated)));
    }
}

#[test]
fn unknown_link_tag_is_rejected() {
    let mut w = World::default();
    let a = w.add(Node::new(0, 0));
    let b = w.add(Node::new(fx(1), 0));
    w.link_node(Link::Link { n1: a, n2: b, dist: 0 });
    let mut bytes = w.serealize();
    // a plain rod carries no payload, so its kind tag is the last byte
    let last = bytes.len() - 1;
    bytes[last] = 9;
    assert!(matches!(World::deserialize(&bytes), Err(LoadError::BadTag)));
}

#[test]
fn wrong_version_is_rejected() {
    let w = sample_world();
    let mut bytes = w.serealize();
    bytes[0] = 0xFE;
    assert!(matches!(World::deserialize(&bytes), Err(LoadError::BadVersion)));
}

#[test]
fn nonpositive_radius_is_rejected() {
    let w = sample_world();
    let mut bytes = w.serealize();
    for k in 4..12 {
        bytes[k] = 0xFF;
    }
    assert!(matches!(World::deserialize(&bytes), Err(LoadError::BadScalar)));
}

#[test]
fn load_rebuilds_adjacency() {
    let w = sample_world();
    let bytes = w.serealize();
    let r = World::deserialize(&bytes).unwrap();
    assert_eq!(r.node_links.len(), r.nodes.len());
    // node b carries its two incident links again
    assert_eq!(r.node_links[1].len(), 2);
    assert_eq!(r.node_links[4].len(), 1);
}

#[test]
fn load_drops_invalid_links_only() {
    // a saved image holding a self-link and an out-of-range link loses
    // those, and keeps the good one
    let mut w = World::default();
    let a = w.add(Node::new(0, 0));
    let b = w.add(Node::new(fx(1), 0));
    w.link_node(Link::Link { n1: a, n2: b, dist: 0 });
    let mut bytes = w.serealize();
    // append two more raw links: a self-link and one out of range
    let bad = [
        (0u32, 0u32, fx(1), 0u8),
        (0u32, 9u32, fx(1), 1u8),
    ];
    // patch the link count from 1 to 3 (it sits after 4+8+4+2*56 bytes)
    let count_at: usize = 4 + 8 + 4 + 2 * 56;
    bytes[count_at] = 3;
    for (n1, n2, dist, tag) in bad {
        bytes.extend_from_slice(&n1.to_le_bytes());
        bytes.extend_from_slice(&n2.to_le_bytes());
        bytes.extend_from_slice(&(dist as u64).to_le_bytes());
        bytes.push(tag);
    }
    let r = World::deserialize(&bytes).unwrap();
    assert_eq!(r.nodes.len(), 2);
    assert_eq!(r.links.len(), 1);
    assert_eq!(r.links[0].n1(), 0);
    assert_eq!(r.links[0].n2(), 1);
}
