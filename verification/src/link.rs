//! Constraints between two nodes.
//!
//! A link joins the nodes at indices `n1` and `n2` with a rest length `dist`,
//! in one of four kinds: rigid rod, one-sided rope, hydraulic rod whose rest
//! length grows over time, or soft spring. Every kind exposes the same
//! endpoint and rest-length accessors, so bookkeeping code never matches on
//! the kind.

use vstd::prelude::*;

use crate::fixed::fx_ok;

verus! {

#[derive(Clone, Copy, PartialEq, Eq, Structural, Debug)]
pub enum Link {
    Link { n1: u32, n2: u32, dist: i64 },
    Rope { n1: u32, n2: u32, dist: i64 },
    Hydraulic { n1: u32, n2: u32, dist: i64, speed: i64 },
    Spring { n1: u32, n2: u32, dist: i64, stiffness: i64 },
}

impl Link {
    /// Every scalar the link carries lies in range.
    pub open spec fn ok(self) -> bool {
        match self {
            Link::Link { dist, .. } => fx_ok(dist as int),
            Link::Rope { dist, .. } => fx_ok(dist as int),
            Link::Hydraulic { dist, speed, .. } => fx_ok(dist as int) && fx_ok(speed as int),
            Link::Spring { dist, stiffness, .. } => fx_ok(dist as int) && fx_ok(
                stiffness as int,
            ),
        }
    }

    /// A rigid rod between nodes 0 and 0 with rest length zero.
    pub fn default() -> (r: Link)
        ensures
            r == (Link::Link { n1: 0, n2: 0, dist: 0 }),
    {
        Link::Link { n1: 0, n2: 0, dist: 0 }
    }

    pub open spec fn spec_n1(&self) -> u32 {
        match *self {
            Link::Link { n1, .. } => n1,
            Link::Rope { n1, .. } => n1,
            Link::Hydraulic { n1, .. } => n1,
            Link::Spring { n1, .. } => n1,
        }
    }

    #[verifier::when_used_as_spec(spec_n1)]
    pub fn n1(&self) -> (r: u32)
        ensures
            r == self.spec_n1(),
    {
        match self {
            Link::Link { n1, .. } => *n1,
            Link::Rope { n1, .. } => *n1,
            Link::Hydraulic { n1, .. } => *n1,
            Link::Spring { n1, .. } => *n1,
        }
    }

    pub open spec fn spec_n2(&self) -> u32 {
        match *self {
            Link::Link { n2, .. } => n2,
            Link::Rope { n2, .. } => n2,
            Link::Hydraulic { n2, .. } => n2,
            Link::Spring { n2, .. } => n2,
        }
    }

    #[verifier::when_used_as_spec(spec_n2)]
    pub fn n2(&self) -> (r: u32)
        ensures
            r == self.spec_n2(),
    {
        match self {
            Link::Link { n2, .. } => *n2,
            Link::Rope { n2, .. } => *n2,
            Link::Hydraulic { n2, .. } => *n2,
            Link::Spring { n2, .. } => *n2,
        }
    }

    pub open spec fn spec_dist(&self) -> i64 {
        match *self {
            Link::Link { dist, .. } => dist,
            Link::Rope { dist, .. } => dist,
            Link::Hydraulic { dist, .. } => dist,
            Link::Spring { dist, .. } => dist,
        }
    }

    #[verifier::when_used_as_spec(spec_dist)]
    pub fn dist(&self) -> (r: i64)
        ensures
            r == self.spec_dist(),
    {
        match self {
            Link::Link { dist, .. } => *dist,
            Link::Rope { dist, .. } => *dist,
            Link::Hydraulic { dist, .. } => *dist,
            Link::Spring { dist, .. } => *dist,
        }
    }

    /// The link with its first endpoint replaced.
    pub open spec fn spec_with_n1(self, node1: u32) -> Link {
        match self {
            Link::Link { n2, dist, .. } => Link::Link { n1: node1, n2, dist },
            Link::Rope { n2, dist, .. } => Link::Rope { n1: node1, n2, dist },
            Link::Hydraulic { n2, dist, speed, .. } => Link::Hydraulic {
                n1: node1,
                n2,
                dist,
                speed,
            },
            Link::Spring { n2, dist, stiffness, .. } => Link::Spring {
                n1: node1,
                n2,
                dist,
                stiffness,
            },
        }
    }

    pub fn set_n1(&mut self, node1: u32)
        ensures
            *final(self) == old(self).spec_with_n1(node1),
    {
        match self {
            Link::Link { n1, .. } => *n1 = node1,
            Link::Rope { n1, .. } => *n1 = node1,
            Link::Hydraulic { n1, .. } => *n1 = node1,
            Link::Spring { n1, .. } => *n1 = node1,
        }
    }

    /// The link with its second endpoint replaced.
    pub open spec fn spec_with_n2(self, node2: u32) -> Link {
        match self {
            Link::Link { n1, dist, .. } => Link::Link { n1, n2: node2, dist },
            Link::Rope { n1, dist, .. } => Link::Rope { n1, n2: node2, dist },
            Link::Hydraulic { n1, dist, speed, .. } => Link::Hydraulic {
                n1,
                n2: node2,
                dist,
                speed,
            },
            Link::Spring { n1, dist, stiffness, .. } => Link::Spring {
                n1,
                n2: node2,
                dist,
                stiffness,
            },
        }
    }

    pub fn set_n2(&mut self, node2: u32)
        ensures
            *final(self) == old(self).spec_with_n2(node2),
    {
        match self {
            Link::Link { n2, .. } => *n2 = node2,
            Link::Rope { n2, .. } => *n2 = node2,
            Link::Hydraulic { n2, .. } => *n2 = node2,
            Link::Spring { n2, .. } => *n2 = node2,
        }
    }

    /// The link with its rest length replaced.
    pub open spec fn spec_with_dist(self, distance: i64) -> Link {
        match self {
            Link::Link { n1, n2, .. } => Link::Link { n1, n2, dist: distance },
            Link::Rope { n1, n2, .. } => Link::Rope { n1, n2, dist: distance },
            Link::Hydraulic { n1, n2, speed, .. } => Link::Hydraulic {
                n1,
                n2,
                dist: distance,
                speed,
            },
            Link::Spring { n1, n2, stiffness, .. } => Link::Spring {
                n1,
                n2,
                dist: distance,
                stiffness,
            },
        }
    }

    pub fn set_dist(&mut self, distance: i64)
        ensures
            *final(self) == old(self).spec_with_dist(distance),
    {
        match self {
            Link::Link { dist, .. } => *dist = distance,
            Link::Rope { dist, .. } => *dist = distance,
            Link::Hydraulic { dist, .. } => *dist = distance,
            Link::Spring { dist, .. } => *dist = distance,
        }
    }

    pub open spec fn spec_linked_to(&self, n: u32) -> bool {
        self.spec_n1() == n || self.spec_n2() == n
    }

    /// Whether `n` is one of the link's endpoints.
    #[verifier::when_used_as_spec(spec_linked_to)]
    pub fn linked_to(&self, n: u32) -> (r: bool)
        ensures
            r == self.spec_linked_to(n),
    {
        self.n1() == n || self.n2() == n
    }

    /// Whether the link joins the unordered pair `{a, b}`.
    pub open spec fn connects(&self, a: u32, b: u32) -> bool {
        (self.spec_n1() == a && self.spec_n2() == b) || (self.spec_n1() == b && self.spec_n2()
            == a)
    }
}

} // verus!
