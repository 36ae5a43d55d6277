use truss::fixed::{FX_ONE, FX_UNSET};
use truss::link::Link;
use truss::node::Node;
use truss::world::World;

fn fx(v: i64) -> i64 {
    v * FX_ONE
}

#[test]
fn add_returns_dense_indices() {
    let mut w = World::default();
    assert_eq!(w.add(Node::new(0, 0)), 0);
    assert_eq!(w.add(Node::new(fx(1), 0)), 1);
    assert_eq!(w.nodes.len(), 2);
    assert_eq!(w.node_links.len(), 2);
}

#[test]
fn link_computes_rest_length_from_geometry() {
    // the rest length is always measured at link time, even when the
    // request carries a placeholder
    let mut w = World::default();
    let a = w.add(Node::new(0, 0));
    let b = w.add(Node::new(fx(1), 0));
    w.link_node(Link::Link { n1: a, n2: b, dist: 0 });
    assert_eq!(w.links.len(), 1);
    assert_eq!(w.links[0].dist(), fx(1));
}

#[test]
fn duplicate_link_ignored_either_order() {
    let mut w = World::default();
    let a = w.add(Node::new(0, 0));
    let b = w.add(Node::new(fx(1), 0));
    w.link_node(Link::Link { n1: a, n2: b, dist: 0 });
    w.link_node(Link::Link { n1: a, n2: b, dist: 0 });
    w.link_node(Link::Link { n1: b, n2: a, dist: 0 });
    w.link_node(Link::Rope { n1: b, n2: a, dist: 0 });
    assert_eq!(w.links.len(), 1);
}

#[test]
fn self_link_and_bad_indices_ignored() {
    let mut w = World::default();
    let a = w.add(Node::new(0, 0));
    w.link_node(Link::Link { n1: a, n2: a, dist: 0 });
    w.link_node(Link::Link { n1: a, n2: 7, dist: 0 });
    w.link_node(Link::Link { n1: 9, n2: a, dist: 0 });
    assert_eq!(w.links.len(), 0);
}

#[test]
fn nodes_link_and_node_linked() {
    let mut w = World::default();
    let a = w.add(Node::new(0, 0));
    let b = w.add(Node::new(fx(1), 0));
    let c = w.add(Node::new(fx(2), 0));
    w.link_node(Link::Link { n1: a, n2: b, dist: 0 });
    assert_eq!(w.nodes_link(a, b), Some(0));
    assert_eq!(w.nodes_link(a, c), None);
    assert!(w.node_linked(a));
    assert!(w.node_linked(b));
    assert!(!w.node_linked(c));
}

#[test]
fn remove_node_remaps_surviving_links() {
    // after a removal and a flush, the swap list resolves every surviving
    // link to the same logical nodes as before
    let mut w = World::default();
    let a = w.add(Node::new(0, 0));
    let b = w.add(Node::new(fx(1), 0));
    let c = w.add(Node::new(fx(2), 0));
    w.link_node(Link::Link { n1: a, n2: b, dist: 0 });
    w.link_node(Link::Link { n1: b, n2: c, dist: 0 });
    w.remove_node(a);
    let swaps = w.flush();
    assert_eq!(w.nodes.len(), 2);
    assert_eq!(w.links.len(), 1);
    // the last node (c) was dragged into the freed slot
    assert_eq!(swaps, vec![(2, 0)]);
    // b kept its index, c moved to 0; the surviving link still joins b and c
    let l = &w.links[0];
    let (n1, n2) = (l.n1(), l.n2());
    assert!((n1 == 1 && n2 == 0) || (n1 == 0 && n2 == 1));
    assert_eq!(w.nodes[1].p.x, fx(1));
    assert_eq!(w.nodes[0].p.x, fx(2));
}

#[test]
fn unlink_prunes_isolated_free_nodes() {
    let mut w = World::default();
    let a = w.add(Node::new(0, 0));
    let b = w.add(Node::new(fx(1), 0));
    w.link_node(Link::Link { n1: a, n2: b, dist: 0 });
    w.unlink_nodes(a, b);
    w.flush();
    assert_eq!(w.nodes.len(), 0);
    assert_eq!(w.links.len(), 0);
}

#[test]
fn unlink_keeps_anchored_endpoint() {
    let mut w = World::default();
    let a = w.add(Node::new_fixed(0, 0));
    let b = w.add(Node::new(fx(1), 0));
    w.link_node(Link::Link { n1: a, n2: b, dist: 0 });
    w.unlink_nodes(a, b);
    w.flush();
    assert_eq!(w.nodes.len(), 1);
    assert!(w.nodes[0].fixed());
}

#[test]
fn remove_link_cascades_like_unlink() {
    let mut w = World::default();
    let a = w.add(Node::new(0, 0));
    let b = w.add(Node::new(fx(1), 0));
    let c = w.add(Node::new(fx(2), 0));
    w.link_node(Link::Link { n1: a, n2: b, dist: 0 });
    w.link_node(Link::Link { n1: b, n2: c, dist: 0 });
    w.remove_link(0);
    w.flush();
    // a was left dangling and pruned; b survived through its second link
    assert_eq!(w.nodes.len(), 2);
    assert_eq!(w.links.len(), 1);
}

#[test]
fn flush_without_removals_reports_no_swaps() {
    let mut w = World::default();
    w.add(Node::new(0, 0));
    w.add(Node::new(fx(1), 0));
    let swaps = w.flush();
    assert!(swaps.is_empty());
    assert_eq!(w.nodes.len(), 2);
}

#[test]
fn move_node_reanchors_when_dragging() {
    let mut w = World::default();
    let a = w.add(Node::new(0, 0));
    let b = w.add(Node::new(fx(1), 0));
    w.link_node(Link::Link { n1: a, n2: b, dist: 0 });
    w.move_node(b, fx(1), 0, true);
    assert_eq!(w.nodes[b as usize].p.x, fx(2));
    assert_eq!(w.links[0].dist(), fx(2));
    assert_eq!(w.nodes[b as usize].v.x, 0);
}

#[test]
fn move_node_without_recompute_stretches() {
    let mut w = World::default();
    let a = w.add(Node::new(0, 0));
    let b = w.add(Node::new(fx(1), 0));
    w.link_node(Link::Link { n1: a, n2: b, dist: 0 });
    w.move_node(b, fx(1), 0, false);
    assert_eq!(w.nodes[b as usize].p.x, fx(2));
    assert_eq!(w.links[0].dist(), fx(1));
}

#[test]
fn move_by_repins_locked_axes() {
    let mut n = Node::new_fixed_x(fx(5), fx(3));
    n.move_by(fx(2), fx(1));
    assert_eq!(n.p.x, fx(7));
    assert_eq!(n.p.y, fx(4));
    assert_eq!(n.fixed_p.x, fx(7));
    assert_eq!(n.fixed_p.y, FX_UNSET);
}

#[test]
fn move_all_translates_and_keeps_velocity() {
    let mut w = World::default();
    let a = w.add(Node::new(0, 0));
    w.nodes[a as usize].v.x = fx(3);
    w.move_all(fx(1), fx(2));
    assert_eq!(w.nodes[0].p.x, fx(1));
    assert_eq!(w.nodes[0].p.y, fx(2));
    assert_eq!(w.nodes[0].v.x, fx(3));
}

#[test]
fn pointer_picks_nearest_node_within_radius() {
    let mut w = World::default();
    w.add(Node::new(0, 0));
    w.add(Node::new(fx(1), 0));
    // the pick radius is radius/scale = 1/20 of a unit
    assert_eq!(w.point_inside_node(fx(1) + 100, 0), Some(1));
    assert_eq!(w.point_inside_node(fx(1) / 2, 0), None);
}

#[test]
fn pointer_picks_link_near_segment() {
    let mut w = World::default();
    let a = w.add(Node::new(0, 0));
    let b = w.add(Node::new(fx(2), 0));
    w.link_node(Link::Link { n1: a, n2: b, dist: 0 });
    assert_eq!(w.point_inside_link(fx(1), 100), Some(0));
    assert_eq!(w.point_inside_link(fx(1), fx(1)), None);
}

#[test]
fn flush_with_empty_queues_changes_nothing() {
    let mut w = World::default();
    let a = w.add(Node::new(0, 0));
    let b = w.add(Node::new(fx(1), 0));
    w.link_node(Link::Link { n1: a, n2: b, dist: 0 });
    let nodes_before = w.nodes.clone();
    let links_before = w.links.clone();
    let swaps = w.flush();
    assert!(swaps.is_empty());
    assert_eq!(w.nodes, nodes_before);
    assert_eq!(w.links, links_before);
}
