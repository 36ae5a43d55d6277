use truss::fixed::FX_ONE;
use truss::link::Link;
use truss::node::Node;
use truss::world::World;

fn fx(v: i64) -> i64 {
    v * FX_ONE
}

#[test]
fn select_pulls_one_hop_neighborhood() {
    let mut w = World::default();
    let a = w.add(Node::new(0, 0));
    let b = w.add(Node::new(fx(1), 0));
    let _c = w.add(Node::new(fx(5), 0));
    w.link_node(Link::Link { n1: a, n2: b, dist: 0 });
    let (nodes, links) = w.select(&vec![a]);
    // the requested node plus its neighbor, and the link renumbered
    assert_eq!(nodes.len(), 2);
    assert_eq!(nodes[0].p.x, 0);
    assert_eq!(nodes[1].p.x, fx(1));
    assert_eq!(links.len(), 1);
    assert_eq!((links[0].n1(), links[0].n2()), (0, 1));
}

#[test]
fn select_drops_links_of_pulled_in_nodes() {
    let mut w = World::default();
    let a = w.add(Node::new(0, 0));
    let b = w.add(Node::new(fx(1), 0));
    let c = w.add(Node::new(fx(2), 0));
    w.link_node(Link::Link { n1: a, n2: b, dist: 0 });
    w.link_node(Link::Link { n1: b, n2: c, dist: 0 });
    let (nodes, links) = w.select(&vec![a]);
    // b comes along as a's neighbor, but its own link to c is dropped and
    // c is not extracted at all
    assert_eq!(nodes.len(), 2);
    assert_eq!(links.len(), 1);
    assert!(links[0].n1() < 2 && links[0].n2() < 2);
}

#[test]
fn copy_translates_selection_to_offset() {
    // copying two linked nodes to (10, 10) appends two new nodes and one
    // new link; the translation moves the selection's bounding-box corner
    // to the target, and the new link joins the appended indices
    let mut w = World::default();
    let a = w.add(Node::new(0, 0));
    let b = w.add(Node::new(fx(1), 0));
    w.link_node(Link::Link { n1: a, n2: b, dist: 0 });
    w.copy_nodes(&vec![a, b], fx(10), fx(10));
    w.flush();
    assert_eq!(w.nodes.len(), 4);
    assert_eq!(w.links.len(), 2);
    assert_eq!(w.nodes[2].p.x, fx(10));
    assert_eq!(w.nodes[2].p.y, fx(10));
    assert_eq!(w.nodes[3].p.x, fx(11));
    assert_eq!(w.nodes[3].p.y, fx(10));
    let l = &w.links[1];
    assert!(l.n1() >= 2 && l.n2() >= 2);
    assert_eq!(l.dist(), fx(1));
    // the originals are untouched
    assert_eq!(w.nodes[0].p.x, 0);
    assert_eq!(w.nodes[1].p.x, fx(1));
    assert_eq!(w.links[0].n1(), a);
}

#[test]
fn select_moved_translates_extract_only() {
    let mut w = World::default();
    let a = w.add(Node::new(fx(2), fx(3)));
    let b = w.add(Node::new(fx(3), fx(3)));
    w.link_node(Link::Link { n1: a, n2: b, dist: 0 });
    let (nodes, _links) = w.select_moved(&vec![a, b], 0, 0);
    assert_eq!(nodes[0].p.x, 0);
    assert_eq!(nodes[0].p.y, 0);
    assert_eq!(nodes[1].p.x, fx(1));
    assert_eq!(nodes[1].p.y, 0);
    // the world itself is unchanged
    assert_eq!(w.nodes[0].p.x, fx(2));
}
