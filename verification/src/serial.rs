//! Binary persistence of the world.
//!
//! The format is little-endian and versioned: a format version, the node
//! radius, then the nodes (position, velocity, axis locks, rotor speed as
//! raw scalars) and the links (endpoints, rest length, a kind tag, and the
//! kind's extra scalar). Loading validates every scalar and tag and fails
//! without building anything on malformed input; accepted links are
//! re-inserted one by one through the same validation `link_node` uses, so
//! the adjacency index is rebuilt rather than trusted.
//!
//! `lemma_save_load_round_trip` is the round-trip law: parsing the bytes a
//! well-formed world serializes to yields that world's radius, nodes and
//! links exactly, and re-inserting those links accepts every one of them.

use vstd::prelude::*;

use vstd::bytes::{
    lemma_auto_spec_u32_to_from_le_bytes, lemma_auto_spec_u64_to_from_le_bytes,
    spec_u32_from_le_bytes, spec_u32_to_le_bytes, spec_u64_from_le_bytes, spec_u64_to_le_bytes,
    u32_from_le_bytes, u32_to_le_bytes, u64_from_le_bytes, u64_to_le_bytes,
};
use vstd::slice::slice_subrange;

use crate::fixed::fx_ok;
use crate::link::Link;
use crate::node::{lock_ok, Node};
use crate::vec2::Vec2;
use crate::world::{any_connects, World};

verus! {

/// Version tag written at the front of every saved world.
pub const FORMAT_VERSION: u32 = 1;

/// Why a load failed.
#[derive(Clone, Copy, PartialEq, Eq, Structural, Debug)]
pub enum LoadError {
    /// The input ended before the announced data did.
    Truncated,
    /// The leading version tag is not one this library writes.
    BadVersion,
    /// A scalar lies outside the representable range, or the radius is not
    /// positive.
    BadScalar,
    /// A link kind tag is unknown.
    BadTag,
}

/// A raw scalar as eight little-endian bytes.
pub open spec fn i64_le(v: i64) -> Seq<u8> {
    spec_u64_to_le_bytes(v as u64)
}

/// The serialized form of one node.
pub open spec fn ser_node(nd: Node) -> Seq<u8> {
    i64_le(nd.p.x) + i64_le(nd.p.y) + i64_le(nd.v.x) + i64_le(nd.v.y) + i64_le(nd.fixed_p.x)
        + i64_le(nd.fixed_p.y) + i64_le(nd.rotor_speed)
}

/// The tag byte of each link kind.
pub open spec fn link_tag(l: Link) -> u8 {
    match l {
        Link::Link { .. } => 0,
        Link::Rope { .. } => 1,
        Link::Hydraulic { .. } => 2,
        Link::Spring { .. } => 3,
    }
}

/// The serialized form of one link.
pub open spec fn ser_link(l: Link) -> Seq<u8> {
    spec_u32_to_le_bytes(l.spec_n1()) + spec_u32_to_le_bytes(l.spec_n2()) + i64_le(l.spec_dist())
        + seq![link_tag(l)] + (match l {
        Link::Hydraulic { speed, .. } => i64_le(speed),
        Link::Spring { stiffness, .. } => i64_le(stiffness),
        _ => Seq::<u8>::empty(),
    })
}

/// The serialized nodes from index `i` on.
pub open spec fn ser_nodes_from(s: Seq<Node>, i: int) -> Seq<u8>
    decreases s.len() - i,
{
    if i < 0 || i >= s.len() {
        Seq::empty()
    } else {
        ser_node(s[i]) + ser_nodes_from(s, i + 1)
    }
}

/// The serialized links from index `i` on.
pub open spec fn ser_links_from(s: Seq<Link>, i: int) -> Seq<u8>
    decreases s.len() - i,
{
    if i < 0 || i >= s.len() {
        Seq::empty()
    } else {
        ser_link(s[i]) + ser_links_from(s, i + 1)
    }
}

/// The full serialized form of a world.
pub open spec fn spec_serialize(w: World) -> Seq<u8> {
    spec_u32_to_le_bytes(FORMAT_VERSION) + i64_le(w.radius) + spec_u32_to_le_bytes(
        w.nodes@.len() as u32,
    ) + ser_nodes_from(w.nodes@, 0) + spec_u32_to_le_bytes(w.links@.len() as u32)
        + ser_links_from(w.links@, 0)
}

/// Read a `u32` off the front of the input, returning the rest.
pub open spec fn take_u32(b: Seq<u8>) -> Result<(u32, Seq<u8>), LoadError> {
    if b.len() >= 4 {
        Ok((spec_u32_from_le_bytes(b.subrange(0, 4)), b.skip(4)))
    } else {
        Err(LoadError::Truncated)
    }
}

/// Read a raw `i64` off the front of the input.
pub open spec fn take_i64(b: Seq<u8>) -> Result<(i64, Seq<u8>), LoadError> {
    if b.len() >= 8 {
        Ok((spec_u64_from_le_bytes(b.subrange(0, 8)) as i64, b.skip(8)))
    } else {
        Err(LoadError::Truncated)
    }
}

/// Read a scalar that must lie in the clamped range.
pub open spec fn take_scalar(b: Seq<u8>) -> Result<(i64, Seq<u8>), LoadError> {
    match take_i64(b) {
        Ok((v, rest)) => if fx_ok(v as int) {
            Ok((v, rest))
        } else {
            Err(LoadError::BadScalar)
        },
        Err(e) => Err(e),
    }
}

/// Read a lock coordinate: a scalar in range or the unset sentinel.
pub open spec fn take_lock(b: Seq<u8>) -> Result<(i64, Seq<u8>), LoadError> {
    match take_i64(b) {
        Ok((v, rest)) => if lock_ok(v) {
            Ok((v, rest))
        } else {
            Err(LoadError::BadScalar)
        },
        Err(e) => Err(e),
    }
}

/// Read one byte off the front of the input.
pub open spec fn take_u8(b: Seq<u8>) -> Result<(u8, Seq<u8>), LoadError> {
    if b.len() >= 1 {
        Ok((b[0], b.skip(1)))
    } else {
        Err(LoadError::Truncated)
    }
}

/// Parse one node off the front of the input.
pub open spec fn parse_node(b: Seq<u8>) -> Result<(Node, Seq<u8>), LoadError> {
    match take_scalar(b) {
        Err(e) => Err(e),
        Ok((px, b)) => match take_scalar(b) {
            Err(e) => Err(e),
            Ok((py, b)) => match take_scalar(b) {
                Err(e) => Err(e),
                Ok((vx, b)) => match take_scalar(b) {
                    Err(e) => Err(e),
                    Ok((vy, b)) => match take_lock(b) {
                        Err(e) => Err(e),
                        Ok((fx, b)) => match take_lock(b) {
                            Err(e) => Err(e),
                            Ok((fy, b)) => match take_scalar(b) {
                                Err(e) => Err(e),
                                Ok((rot, b)) => Ok(
                                    (
                                        Node {
                                            p: Vec2 { x: px, y: py },
                                            v: Vec2 { x: vx, y: vy },
                                            fixed_p: Vec2 { x: fx, y: fy },
                                            rotor_speed: rot,
                                        },
                                        b,
                                    ),
                                ),
                            },
                        },
                    },
                },
            },
        },
    }
}

/// Parse `k` nodes off the front of the input.
pub open spec fn parse_nodes(b: Seq<u8>, k: nat) -> Result<(Seq<Node>, Seq<u8>), LoadError>
    decreases k,
{
    if k == 0 {
        Ok((Seq::empty(), b))
    } else {
        match parse_node(b) {
            Err(e) => Err(e),
            Ok((nd, rest)) => match parse_nodes(rest, (k - 1) as nat) {
                Err(e) => Err(e),
                Ok((s, rest2)) => Ok((seq![nd] + s, rest2)),
            },
        }
    }
}

/// Parse one link off the front of the input.
pub open spec fn parse_link(b: Seq<u8>) -> Result<(Link, Seq<u8>), LoadError> {
    match take_u32(b) {
        Err(e) => Err(e),
        Ok((n1, b)) => match take_u32(b) {
            Err(e) => Err(e),
            Ok((n2, b)) => match take_scalar(b) {
                Err(e) => Err(e),
                Ok((dist, b)) => match take_u8(b) {
                    Err(e) => Err(e),
                    Ok((tag, b)) => if tag == 0 {
                        Ok((Link::Link { n1, n2, dist }, b))
                    } else if tag == 1 {
                        Ok((Link::Rope { n1, n2, dist }, b))
                    } else if tag == 2 {
                        match take_scalar(b) {
                            Err(e) => Err(e),
                            Ok((speed, b)) => Ok((Link::Hydraulic { n1, n2, dist, speed }, b)),
                        }
                    } else if tag == 3 {
                        match take_scalar(b) {
                            Err(e) => Err(e),
                            Ok((stiffness, b)) => Ok(
                                (Link::Spring { n1, n2, dist, stiffness }, b),
                            ),
                        }
                    } else {
                        Err(LoadError::BadTag)
                    },
                },
            },
        },
    }
}

/// Parse `k` links off the front of the input.
pub open spec fn parse_links(b: Seq<u8>, k: nat) -> Result<(Seq<Link>, Seq<u8>), LoadError>
    decreases k,
{
    if k == 0 {
        Ok((Seq::empty(), b))
    } else {
        match parse_link(b) {
            Err(e) => Err(e),
            Ok((l, rest)) => match parse_links(rest, (k - 1) as nat) {
                Err(e) => Err(e),
                Ok((s, rest2)) => Ok((seq![l] + s, rest2)),
            },
        }
    }
}

/// Parse a whole world image: the radius and the raw node and link tables.
/// Bytes after the announced data are ignored, as a stream reader would.
pub open spec fn parse_world(b: Seq<u8>) -> Result<(i64, Seq<Node>, Seq<Link>), LoadError> {
    match take_u32(b) {
        Err(e) => Err(e),
        Ok((ver, b)) => if ver != FORMAT_VERSION {
            Err(LoadError::BadVersion)
        } else {
            match take_i64(b) {
                Err(e) => Err(e),
                Ok((radius, b)) => if !fx_ok(radius as int) || radius <= 0 {
                    Err(LoadError::BadScalar)
                } else {
                    match take_u32(b) {
                        Err(e) => Err(e),
                        Ok((n, b)) => match parse_nodes(b, n as nat) {
                            Err(e) => Err(e),
                            Ok((ns, b)) => match take_u32(b) {
                                Err(e) => Err(e),
                                Ok((m, b)) => match parse_links(b, m as nat) {
                                    Err(e) => Err(e),
                                    Ok((ls, _)) => Ok((radius, ns, ls)),
                                },
                            },
                        },
                    }
                },
            }
        },
    }
}

/// The links kept when inserting the first `k` of `ls` in order into a world
/// of `nodes_len` nodes: self-links, out-of-range endpoints and duplicates
/// are dropped, everything else is appended.
pub open spec fn accept_links(nodes_len: int, ls: Seq<Link>, k: int) -> Seq<Link>
    decreases k,
{
    if k <= 0 {
        Seq::empty()
    } else {
        let acc = accept_links(nodes_len, ls, k - 1);
        let l = ls[k - 1];
        if l.spec_n1() != l.spec_n2() && (l.spec_n1() as int) < nodes_len && (
        l.spec_n2() as int) < nodes_len && !any_connects(acc, l.spec_n1(), l.spec_n2()) {
            acc.push(l)
        } else {
            acc
        }
    }
}



/// Read four bytes as a `u32` at `off`, advancing the offset.
fn read_u32(bytes: &[u8], off: usize) -> (r: Option<(u32, usize)>)
    requires
        off <= bytes@.len(),
    ensures
        match r {
            Some(p) => p.1 == off + 4 && off + 4 <= bytes@.len() && take_u32(
                bytes@.skip(off as int),
            ) == Ok::<_, LoadError>((p.0, bytes@.skip(p.1 as int))),
            None => take_u32(bytes@.skip(off as int)) == Err::<(u32, Seq<u8>), LoadError>(
                LoadError::Truncated,
            ),
        },
{
    if bytes.len() >= 4 && off <= bytes.len() - 4 {
        let s = slice_subrange(bytes, off, off + 4);
        let v = u32_from_le_bytes(s);
        proof {
            assert(bytes@.skip(off as int).subrange(0, 4) =~= bytes@.subrange(
                off as int,
                off + 4,
            ));
            assert(bytes@.skip(off as int).skip(4) =~= bytes@.skip(off + 4));
        }
        Some((v, off + 4))
    } else {
        None
    }
}

/// Read eight bytes as a raw `i64` at `off`, advancing the offset.
fn read_i64(bytes: &[u8], off: usize) -> (r: Option<(i64, usize)>)
    requires
        off <= bytes@.len(),
    ensures
        match r {
            Some(p) => p.1 == off + 8 && off + 8 <= bytes@.len() && take_i64(
                bytes@.skip(off as int),
            ) == Ok::<_, LoadError>((p.0, bytes@.skip(p.1 as int))),
            None => take_i64(bytes@.skip(off as int)) == Err::<(i64, Seq<u8>), LoadError>(
                LoadError::Truncated,
            ),
        },
{
    if bytes.len() >= 8 && off <= bytes.len() - 8 {
        let s = slice_subrange(bytes, off, off + 8);
        let v = u64_from_le_bytes(s);
        proof {
            assert(bytes@.skip(off as int).subrange(0, 8) =~= bytes@.subrange(
                off as int,
                off + 8,
            ));
            assert(bytes@.skip(off as int).skip(8) =~= bytes@.skip(off + 8));
        }
        Some((v as i64, off + 8))
    } else {
        None
    }
}

/// Read one byte at `off`, advancing the offset.
fn read_u8(bytes: &[u8], off: usize) -> (r: Option<(u8, usize)>)
    requires
        off <= bytes@.len(),
    ensures
        match r {
            Some(p) => p.1 == off + 1 && off + 1 <= bytes@.len() && take_u8(
                bytes@.skip(off as int),
            ) == Ok::<_, LoadError>((p.0, bytes@.skip(p.1 as int))),
            None => take_u8(bytes@.skip(off as int)) == Err::<(u8, Seq<u8>), LoadError>(
                LoadError::Truncated,
            ),
        },
{
    if off < bytes.len() {
        let v = bytes[off];
        proof {
            assert(bytes@.skip(off as int)[0] == bytes@[off as int]);
            assert(bytes@.skip(off as int).skip(1) =~= bytes@.skip(off + 1));
        }
        Some((v, off + 1))
    } else {
        None
    }
}

/// Append a `u32` to the output in little-endian order.
fn push_u32(out: &mut Vec<u8>, v: u32)
    ensures
        final(out)@ == old(out)@ + spec_u32_to_le_bytes(v),
{
    let mut b = u32_to_le_bytes(v);
    out.append(&mut b);
}

/// Append a raw scalar to the output in little-endian order.
fn push_i64(out: &mut Vec<u8>, v: i64)
    ensures
        final(out)@ == old(out)@ + i64_le(v),
{
    let mut b = u64_to_le_bytes(v as u64);
    out.append(&mut b);
}

impl World {
    /// Write the world out in the versioned binary format.
    #[verifier::loop_isolation(false)]
    pub fn serealize(&self) -> (r: Vec<u8>)
        requires
            self.wf(),
        ensures
            r@ == spec_serialize(*self),
    {
        let mut out: Vec<u8> = Vec::new();
        push_u32(&mut out, FORMAT_VERSION);
        push_i64(&mut out, self.radius);
        push_u32(&mut out, self.nodes.len() as u32);
        let ghost h1 = out@;
        let n = self.nodes.len();
        let mut i: usize = 0;
        while i < n
            invariant
                i <= n,
                out@ + ser_nodes_from(self.nodes@, i as int) == h1 + ser_nodes_from(
                    self.nodes@,
                    0,
                ),
            decreases n - i,
        {
            let ghost out0 = out@;
            let nd = &self.nodes[i];
            push_i64(&mut out, nd.p.x);
            push_i64(&mut out, nd.p.y);
            push_i64(&mut out, nd.v.x);
            push_i64(&mut out, nd.v.y);
            push_i64(&mut out, nd.fixed_p.x);
            push_i64(&mut out, nd.fixed_p.y);
            push_i64(&mut out, nd.rotor_speed);
            proof {
                assert(out@ =~= out0 + ser_node(self.nodes@[i as int]));
                assert(out@ + ser_nodes_from(self.nodes@, i + 1) =~= out0 + ser_nodes_from(
                    self.nodes@,
                    i as int,
                ));
            }
            i = i + 1;
        }
        push_u32(&mut out, self.links.len() as u32);
        let ghost h2 = out@;
        let m = self.links.len();
        let mut j: usize = 0;
        while j < m
            invariant
                j <= m,
                out@ + ser_links_from(self.links@, j as int) == h2 + ser_links_from(
                    self.links@,
                    0,
                ),
            decreases m - j,
        {
            let ghost out0 = out@;
            let l = self.links[j];
            push_u32(&mut out, l.n1());
            push_u32(&mut out, l.n2());
            push_i64(&mut out, l.dist());
            match l {
                Link::Link { .. } => {
                    out.push(0u8);
                    proof {
                        assert(out@ =~= out0 + ser_link(self.links@[j as int]));
                    }
                },
                Link::Rope { .. } => {
                    out.push(1u8);
                    proof {
                        assert(out@ =~= out0 + ser_link(self.links@[j as int]));
                    }
                },
                Link::Hydraulic { speed, .. } => {
                    out.push(2u8);
                    push_i64(&mut out, speed);
                    proof {
                        assert(out@ =~= out0 + ser_link(self.links@[j as int]));
                    }
                },
                Link::Spring { stiffness, .. } => {
                    out.push(3u8);
                    push_i64(&mut out, stiffness);
                    proof {
                        assert(out@ =~= out0 + ser_link(self.links@[j as int]));
                    }
                },
            }
            proof {
                assert(out@ + ser_links_from(self.links@, j + 1) =~= out0 + ser_links_from(
                    self.links@,
                    j as int,
                ));
            }
            j = j + 1;
        }
        proof {
            assert(out@ =~= spec_serialize(*self));
        }
        out
    }

    /// Load a world from its binary image. A truncated input, a bad scalar
    /// or an unknown tag fails the load with nothing built; on success the
    /// links are re-inserted through the usual validation, which rebuilds
    /// the adjacency index and drops self-links, out-of-range endpoints and
    /// duplicates.
    #[verifier::loop_isolation(false)]
    #[verifier::rlimit(60)]
    pub fn deserialize(bytes: &[u8]) -> (r: Result<World, LoadError>)
        ensures
            (match parse_world(bytes@) {
                Ok(t) => (match r {
                    Ok(w) => {
                        &&& w.radius == t.0
                        &&& w.nodes@ == t.1
                        &&& w.links@ == accept_links(t.1.len() as int, t.2, t.2.len() as int)
                        &&& w.dt == 0
                        &&& w.energy == 0
                        &&& w.node_remove_queue@.len() == 0
                        &&& w.link_remove_queue@.len() == 0
                        &&& w.wf()
                    },
                    Err(_) => false,
                }),
                Err(e) => r == Err::<World, LoadError>(e),
            }),
    {
        let (ver, off) = match read_u32(bytes, 0) {
            Some(p) => p,
            None => {
                proof {
                    assert(bytes@.skip(0) =~= bytes@);
                }
                return Err(LoadError::Truncated);
            },
        };
        proof {
            assert(bytes@.skip(0) =~= bytes@);
        }
        if ver != FORMAT_VERSION {
            return Err(LoadError::BadVersion);
        }
        let (radius, off) = match read_i64(bytes, off) {
            Some(p) => p,
            None => { return Err(LoadError::Truncated) },
        };
        if radius > crate::fixed::FX_MAX || radius < -crate::fixed::FX_MAX || radius <= 0 {
            return Err(LoadError::BadScalar);
        }
        let (n, off) = match read_u32(bytes, off) {
            Some(p) => p,
            None => { return Err(LoadError::Truncated) },
        };
        let ghost b_nodes = bytes@.skip(off as int);
        let mut nodes: Vec<Node> = Vec::new();
        let mut off = off;
        let mut i: u32 = 0;
        while i < n
            invariant
                i <= n,
                off <= bytes@.len(),
                nodes@.len() == i,
                forall|k: int| 0 <= k < nodes@.len() ==> (#[trigger] nodes@[k]).ok(),
                parse_nodes(b_nodes, n as nat) == (match parse_nodes(
                    bytes@.skip(off as int),
                    (n - i) as nat,
                ) {
                    Ok(p) => Ok::<_, LoadError>((nodes@ + p.0, p.1)),
                    Err(e) => Err::<(Seq<Node>, Seq<u8>), LoadError>(e),
                }),
            decreases n - i,
        {
            let ghost b_here = bytes@.skip(off as int);
            let (px, o1) = match read_i64(bytes, off) {
                Some(p) => p,
                None => { return Err(LoadError::Truncated) },
            };
            if px > crate::fixed::FX_MAX || px < -crate::fixed::FX_MAX {
                return Err(LoadError::BadScalar);
            }
            let (py, o2) = match read_i64(bytes, o1) {
                Some(p) => p,
                None => { return Err(LoadError::Truncated) },
            };
            if py > crate::fixed::FX_MAX || py < -crate::fixed::FX_MAX {
                return Err(LoadError::BadScalar);
            }
            let (vx, o3) = match read_i64(bytes, o2) {
                Some(p) => p,
                None => { return Err(LoadError::Truncated) },
            };
            if vx > crate::fixed::FX_MAX || vx < -crate::fixed::FX_MAX {
                return Err(LoadError::BadScalar);
            }
            let (vy, o4) = match read_i64(bytes, o3) {
                Some(p) => p,
                None => { return Err(LoadError::Truncated) },
            };
            if vy > crate::fixed::FX_MAX || vy < -crate::fixed::FX_MAX {
                return Err(LoadError::BadScalar);
            }
            let (fx, o5) = match read_i64(bytes, o4) {
                Some(p) => p,
                None => { return Err(LoadError::Truncated) },
            };
            if (fx > crate::fixed::FX_MAX || fx < -crate::fixed::FX_MAX) && fx
                != crate::fixed::FX_UNSET {
                return Err(LoadError::BadScalar);
            }
            let (fy, o6) = match read_i64(bytes, o5) {
                Some(p) => p,
                None => { return Err(LoadError::Truncated) },
            };
            if (fy > crate::fixed::FX_MAX || fy < -crate::fixed::FX_MAX) && fy
                != crate::fixed::FX_UNSET {
                return Err(LoadError::BadScalar);
            }
            let (rot, o7) = match read_i64(bytes, o6) {
                Some(p) => p,
                None => { return Err(LoadError::Truncated) },
            };
            if rot > crate::fixed::FX_MAX || rot < -crate::fixed::FX_MAX {
                return Err(LoadError::BadScalar);
            }
            let nd = Node {
                p: Vec2 { x: px, y: py },
                v: Vec2 { x: vx, y: vy },
                fixed_p: Vec2 { x: fx, y: fy },
                rotor_speed: rot,
            };
            let ghost nodes0 = nodes@;
            nodes.push(nd);
            off = o7;
            proof {
                assert(parse_node(b_here) == Ok::<_, LoadError>(
                    (nd, bytes@.skip(off as int)),
                ));
                let pr = parse_nodes(bytes@.skip(off as int), (n - i - 1) as nat);
                match pr {
                    Ok(p) => {
                        assert(nodes@ + p.0 =~= nodes0 + (seq![nd] + p.0));
                    },
                    Err(_) => {},
                }
            }
            i = i + 1;
        }
        let (m, off2) = match read_u32(bytes, off) {
            Some(p) => p,
            None => { return Err(LoadError::Truncated) },
        };
        let ghost b_links = bytes@.skip(off2 as int);
        let mut links: Vec<Link> = Vec::new();
        let mut off = off2;
        let mut j: u32 = 0;
        while j < m
            invariant
                j <= m,
                off <= bytes@.len(),
                links@.len() == j,
                forall|k: int| 0 <= k < links@.len() ==> (#[trigger] links@[k]).ok(),
                parse_links(b_links, m as nat) == (match parse_links(
                    bytes@.skip(off as int),
                    (m - j) as nat,
                ) {
                    Ok(p) => Ok::<_, LoadError>((links@ + p.0, p.1)),
                    Err(e) => Err::<(Seq<Link>, Seq<u8>), LoadError>(e),
                }),
            decreases m - j,
        {
            let ghost b_here = bytes@.skip(off as int);
            let (n1, o1) = match read_u32(bytes, off) {
                Some(p) => p,
                None => { return Err(LoadError::Truncated) },
            };
            let (n2, o2) = match read_u32(bytes, o1) {
                Some(p) => p,
                None => { return Err(LoadError::Truncated) },
            };
            let (dist, o3) = match read_i64(bytes, o2) {
                Some(p) => p,
                None => { return Err(LoadError::Truncated) },
            };
            if dist > crate::fixed::FX_MAX || dist < -crate::fixed::FX_MAX {
                return Err(LoadError::BadScalar);
            }
            let (tag, o4) = match read_u8(bytes, o3) {
                Some(p) => p,
                None => { return Err(LoadError::Truncated) },
            };
            let l: Link;
            let o5: usize;
            if tag == 0 {
                l = Link::Link { n1, n2, dist };
                o5 = o4;
            } else if tag == 1 {
                l = Link::Rope { n1, n2, dist };
                o5 = o4;
            } else if tag == 2 {
                let (speed, o) = match read_i64(bytes, o4) {
                    Some(p) => p,
                    None => { return Err(LoadError::Truncated) },
                };
                if speed > crate::fixed::FX_MAX || speed < -crate::fixed::FX_MAX {
                    return Err(LoadError::BadScalar);
                }
                l = Link::Hydraulic { n1, n2, dist, speed };
                o5 = o;
            } else if tag == 3 {
                let (stiffness, o) = match read_i64(bytes, o4) {
                    Some(p) => p,
                    None => { return Err(LoadError::Truncated) },
                };
                if stiffness > crate::fixed::FX_MAX || stiffness < -crate::fixed::FX_MAX {
                    return Err(LoadError::BadScalar);
                }
                l = Link::Spring { n1, n2, dist, stiffness };
                o5 = o;
            } else {
                return Err(LoadError::BadTag);
            }
            let ghost links0 = links@;
            links.push(l);
            off = o5;
            proof {
                assert(parse_link(b_here) == Ok::<_, LoadError>((l, bytes@.skip(off as int))));
                let pr = parse_links(bytes@.skip(off as int), (m - j - 1) as nat);
                match pr {
                    Ok(p) => {
                        assert(links@ + p.0 =~= links0 + (seq![l] + p.0));
                    },
                    Err(_) => {},
                }
            }
            j = j + 1;
        }
        let nn = nodes.len();
        let ghost ns = nodes@;
        let mut adj: Vec<Vec<u32>> = Vec::new();
        let mut a: usize = 0;
        while a < nn
            invariant
                a <= nn,
                adj@.len() == a,
                forall|k: int| 0 <= k < a ==> (#[trigger] adj@[k])@.len() == 0,
            decreases nn - a,
        {
            adj.push(Vec::new());
            a = a + 1;
        }
        let mut w = World {
            nodes,
            links: Vec::new(),
            radius,
            dt: 0,
            energy: 0,
            node_links: adj,
            node_remove_queue: Vec::new(),
            link_remove_queue: Vec::new(),
        };
        proof {
            assert(w.wf());
        }
        let ghost ls = links@;
        let mk = links.len();
        let mut k: usize = 0;
        while k < mk
            invariant
                k <= mk,
                w.wf(),
                w.nodes@ == ns,
                w.radius == radius,
                w.dt == 0,
                w.energy == 0,
                w.node_remove_queue@.len() == 0,
                w.link_remove_queue@.len() == 0,
                w.links@.len() <= k,
                w.links@ == accept_links(nn as int, ls, k as int),
            decreases mk - k,
        {
            let l = links[k];
            w.link_node_keep_dist(l);
            k = k + 1;
        }
        Ok(w)
    }
}


/// A `u32` written in front of anything reads back unchanged.
pub proof fn lemma_take_u32_front(v: u32, rest: Seq<u8>)
    ensures
        take_u32(spec_u32_to_le_bytes(v) + rest) == Ok::<(u32, Seq<u8>), LoadError>((v, rest)),
{
    lemma_auto_spec_u32_to_from_le_bytes();
    let b = spec_u32_to_le_bytes(v) + rest;
    assert(b.subrange(0, 4) =~= spec_u32_to_le_bytes(v));
    assert(b.skip(4) =~= rest);
}

/// A raw scalar written in front of anything reads back unchanged.
pub proof fn lemma_take_i64_front(v: i64, rest: Seq<u8>)
    ensures
        take_i64(i64_le(v) + rest) == Ok::<(i64, Seq<u8>), LoadError>((v, rest)),
{
    lemma_auto_spec_u64_to_from_le_bytes();
    let b = i64_le(v) + rest;
    assert(b.subrange(0, 8) =~= spec_u64_to_le_bytes(v as u64));
    assert(b.skip(8) =~= rest);
    assert(((v as u64) as i64) == v) by (bit_vector);
}

/// A serialized node reads back unchanged.
pub proof fn lemma_parse_node_front(nd: Node, rest: Seq<u8>)
    requires
        nd.ok(),
    ensures
        parse_node(ser_node(nd) + rest) == Ok::<(Node, Seq<u8>), LoadError>((nd, rest)),
{
    let r6 = i64_le(nd.rotor_speed) + rest;
    let r5 = i64_le(nd.fixed_p.y) + r6;
    let r4 = i64_le(nd.fixed_p.x) + r5;
    let r3 = i64_le(nd.v.y) + r4;
    let r2 = i64_le(nd.v.x) + r3;
    let r1 = i64_le(nd.p.y) + r2;
    let b = ser_node(nd) + rest;
    assert(b =~= i64_le(nd.p.x) + r1);
    lemma_take_i64_front(nd.p.x, r1);
    lemma_take_i64_front(nd.p.y, r2);
    lemma_take_i64_front(nd.v.x, r3);
    lemma_take_i64_front(nd.v.y, r4);
    lemma_take_i64_front(nd.fixed_p.x, r5);
    lemma_take_i64_front(nd.fixed_p.y, r6);
    lemma_take_i64_front(nd.rotor_speed, rest);
}

/// A serialized node table reads back unchanged.
pub proof fn lemma_parse_nodes_front(s: Seq<Node>, i: int, rest: Seq<u8>)
    requires
        0 <= i <= s.len(),
        forall|k: int| 0 <= k < s.len() ==> (#[trigger] s[k]).ok(),
    ensures
        parse_nodes(ser_nodes_from(s, i) + rest, (s.len() - i) as nat) == Ok::<
            (Seq<Node>, Seq<u8>),
            LoadError,
        >((s.skip(i), rest)),
    decreases s.len() - i,
{
    if i == s.len() {
        assert(ser_nodes_from(s, i) + rest =~= rest);
        assert(s.skip(i) =~= Seq::<Node>::empty());
    } else {
        let tail = ser_nodes_from(s, i + 1) + rest;
        assert(ser_nodes_from(s, i) + rest =~= ser_node(s[i]) + tail);
        lemma_parse_node_front(s[i], tail);
        lemma_parse_nodes_front(s, i + 1, rest);
        assert(seq![s[i]] + s.skip(i + 1) =~= s.skip(i));
    }
}

/// A serialized link reads back unchanged.
pub proof fn lemma_parse_link_front(l: Link, rest: Seq<u8>)
    requires
        l.ok(),
    ensures
        parse_link(ser_link(l) + rest) == Ok::<(Link, Seq<u8>), LoadError>((l, rest)),
{
    let payload: Seq<u8> = match l {
        Link::Hydraulic { speed, .. } => i64_le(speed),
        Link::Spring { stiffness, .. } => i64_le(stiffness),
        _ => Seq::<u8>::empty(),
    };
    let r3 = seq![link_tag(l)] + (payload + rest);
    let r2 = i64_le(l.spec_dist()) + r3;
    let r1 = spec_u32_to_le_bytes(l.spec_n2()) + r2;
    let b = ser_link(l) + rest;
    assert(b =~= spec_u32_to_le_bytes(l.spec_n1()) + r1);
    lemma_take_u32_front(l.spec_n1(), r1);
    lemma_take_u32_front(l.spec_n2(), r2);
    lemma_take_i64_front(l.spec_dist(), r3);
    assert(r3[0] == link_tag(l));
    assert(r3.skip(1) =~= payload + rest);
    match l {
        Link::Hydraulic { speed, .. } => {
            lemma_take_i64_front(speed, rest);
        },
        Link::Spring { stiffness, .. } => {
            lemma_take_i64_front(stiffness, rest);
        },
        _ => {
            assert(payload + rest =~= rest);
        },
    }
}

/// A serialized link table reads back unchanged.
pub proof fn lemma_parse_links_front(s: Seq<Link>, i: int, rest: Seq<u8>)
    requires
        0 <= i <= s.len(),
        forall|k: int| 0 <= k < s.len() ==> (#[trigger] s[k]).ok(),
    ensures
        parse_links(ser_links_from(s, i) + rest, (s.len() - i) as nat) == Ok::<
            (Seq<Link>, Seq<u8>),
            LoadError,
        >((s.skip(i), rest)),
    decreases s.len() - i,
{
    if i == s.len() {
        assert(ser_links_from(s, i) + rest =~= rest);
        assert(s.skip(i) =~= Seq::<Link>::empty());
    } else {
        let tail = ser_links_from(s, i + 1) + rest;
        assert(ser_links_from(s, i) + rest =~= ser_link(s[i]) + tail);
        lemma_parse_link_front(s[i], tail);
        lemma_parse_links_front(s, i + 1, rest);
        assert(seq![s[i]] + s.skip(i + 1) =~= s.skip(i));
    }
}

/// Re-inserting the link table of a well-formed world accepts every link.
pub proof fn lemma_accept_all(w: World, k: int)
    requires
        w.wf(),
        0 <= k <= w.n_links(),
    ensures
        accept_links(w.n_nodes(), w.links@, k) == w.links@.take(k),
    decreases k,
{
    if k > 0 {
        lemma_accept_all(w, k - 1);
        let acc = accept_links(w.n_nodes(), w.links@, k - 1);
        let l = w.links@[k - 1];
        assert(!any_connects(acc, l.spec_n1(), l.spec_n2())) by {
            if any_connects(acc, l.spec_n1(), l.spec_n2()) {
                let i = choose|i: int|
                    0 <= i < acc.len() && (#[trigger] acc[i]).connects(l.spec_n1(), l.spec_n2());
                assert(w.links@[i] == acc[i]);
                assert(w.links@[i].connects(
                    w.links@[k - 1].spec_n1(),
                    w.links@[k - 1].spec_n2(),
                ));
            }
        }
        assert(w.links@.take(k - 1).push(l) =~= w.links@.take(k));
    }
}

/// The round trip: parsing the bytes a well-formed world serializes to
/// yields the same radius, node table and link table, and re-inserting that
/// link table accepts every link unchanged. Together with the contracts of
/// `serealize` and `deserialize`, loading a saved world rebuilds its nodes
/// and links exactly, whatever order the links were stored in.
pub proof fn lemma_save_load_round_trip(w: World)
    requires
        w.wf(),
    ensures
        parse_world(spec_serialize(w)) == Ok::<(i64, Seq<Node>, Seq<Link>), LoadError>(
            (w.radius, w.nodes@, w.links@),
        ),
        accept_links(w.n_nodes(), w.links@, w.n_links()) == w.links@,
{
    let b = spec_serialize(w);
    let nodes_bytes = ser_nodes_from(w.nodes@, 0);
    let links_bytes = ser_links_from(w.links@, 0);
    let r4 = links_bytes;
    let r3 = spec_u32_to_le_bytes(w.links@.len() as u32) + r4;
    let r2 = ser_nodes_from(w.nodes@, 0) + r3;
    let r1 = spec_u32_to_le_bytes(w.nodes@.len() as u32) + r2;
    let r0 = i64_le(w.radius) + r1;
    assert(b =~= spec_u32_to_le_bytes(FORMAT_VERSION) + r0);
    lemma_take_u32_front(FORMAT_VERSION, r0);
    lemma_take_i64_front(w.radius, r1);
    lemma_take_u32_front(w.nodes@.len() as u32, r2);
    lemma_parse_nodes_front(w.nodes@, 0, r3);
    assert(w.nodes@.skip(0) =~= w.nodes@);
    assert((w.nodes@.len() as u32) as nat == w.nodes@.len());
    lemma_take_u32_front(w.links@.len() as u32, r4);
    lemma_parse_links_front(w.links@, 0, Seq::<u8>::empty());
    assert(links_bytes + Seq::<u8>::empty() =~= links_bytes);
    assert(w.links@.skip(0) =~= w.links@);
    assert((w.links@.len() as u32) as nat == w.links@.len());
    lemma_accept_all(w, w.n_links());
    assert(w.links@.take(w.n_links()) =~= w.links@);
}

} // verus!
