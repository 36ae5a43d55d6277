//! Point masses.
//!
//! A node carries a position, a velocity, an optional per-axis position lock
//! and an optional constant angular drive. An axis is locked exactly when the
//! corresponding component of `fixed_p` differs from the `FX_UNSET` sentinel;
//! the locked component holds the pinned coordinate.

use vstd::prelude::*;

use crate::fixed::{fx_add, fx_clip, fx_mul_raw, fx_ok, FX_UNSET};
use crate::vec2::Vec2;

verus! {

#[derive(Clone, Copy, PartialEq, Eq, Structural, Debug)]
pub struct Node {
    pub p: Vec2,
    pub v: Vec2,
    pub fixed_p: Vec2,
    pub rotor_speed: i64,
}

/// A lock coordinate is either a scalar in range or the unset sentinel.
pub open spec fn lock_ok(x: i64) -> bool {
    fx_ok(x as int) || x == FX_UNSET
}

impl Node {
    /// All scalars lie in range; lock coordinates may also be unset.
    pub open spec fn ok(self) -> bool {
        &&& self.p.ok()
        &&& self.v.ok()
        &&& lock_ok(self.fixed_p.x)
        &&& lock_ok(self.fixed_p.y)
        &&& fx_ok(self.rotor_speed as int)
    }

    pub open spec fn spec_fixed_x(&self) -> bool {
        self.fixed_p.x != FX_UNSET
    }

    #[verifier::when_used_as_spec(spec_fixed_x)]
    pub fn fixed_x(&self) -> (r: bool)
        ensures
            r == self.spec_fixed_x(),
    {
        self.fixed_p.x != FX_UNSET
    }

    pub open spec fn spec_fixed_y(&self) -> bool {
        self.fixed_p.y != FX_UNSET
    }

    #[verifier::when_used_as_spec(spec_fixed_y)]
    pub fn fixed_y(&self) -> (r: bool)
        ensures
            r == self.spec_fixed_y(),
    {
        self.fixed_p.y != FX_UNSET
    }

    pub open spec fn spec_fixed(&self) -> bool {
        self.spec_fixed_x() && self.spec_fixed_y()
    }

    /// Fully fixed: both axes locked.
    #[verifier::when_used_as_spec(spec_fixed)]
    pub fn fixed(&self) -> (r: bool)
        ensures
            r == self.spec_fixed(),
    {
        self.fixed_x() && self.fixed_y()
    }

    pub open spec fn spec_rotor(&self) -> bool {
        self.rotor_speed != 0
    }

    /// A constant-angular-drive hub.
    #[verifier::when_used_as_spec(spec_rotor)]
    pub fn rotor(&self) -> (r: bool)
        ensures
            r == self.spec_rotor(),
    {
        self.rotor_speed != 0
    }

    pub fn new(x: i64, y: i64) -> (r: Node)
        requires
            fx_ok(x as int),
            fx_ok(y as int),
        ensures
            r == (Node {
                p: Vec2 { x, y },
                v: Vec2::spec_zero(),
                fixed_p: Vec2 { x: FX_UNSET, y: FX_UNSET },
                rotor_speed: 0,
            }),
            r.ok(),
            !r.spec_fixed_x(),
            !r.spec_fixed_y(),
    {
        Node {
            p: Vec2 { x, y },
            v: Vec2::zero(),
            fixed_p: Vec2 { x: FX_UNSET, y: FX_UNSET },
            rotor_speed: 0,
        }
    }

    /// A node pinned on the horizontal axis at its starting abscissa.
    pub fn new_fixed_x(x: i64, y: i64) -> (r: Node)
        requires
            fx_ok(x as int),
            fx_ok(y as int),
        ensures
            r.p == (Vec2 { x, y }),
            r.v == Vec2::spec_zero(),
            r.fixed_p == (Vec2 { x, y: FX_UNSET }),
            r.rotor_speed == 0,
            r.ok(),
    {
        let mut node = Node::new(x, y);
        node.fixed_p.x = x;
        node
    }

    /// A node pinned on the vertical axis at its starting ordinate.
    pub fn new_fixed_y(x: i64, y: i64) -> (r: Node)
        requires
            fx_ok(x as int),
            fx_ok(y as int),
        ensures
            r.p == (Vec2 { x, y }),
            r.v == Vec2::spec_zero(),
            r.fixed_p == (Vec2 { x: FX_UNSET, y }),
            r.rotor_speed == 0,
            r.ok(),
    {
        let mut node = Node::new(x, y);
        node.fixed_p.y = y;
        node
    }

    /// A node pinned on both axes at its starting position.
    pub fn new_fixed(x: i64, y: i64) -> (r: Node)
        requires
            fx_ok(x as int),
            fx_ok(y as int),
        ensures
            r.p == (Vec2 { x, y }),
            r.v == Vec2::spec_zero(),
            r.fixed_p == (Vec2 { x, y }),
            r.rotor_speed == 0,
            r.ok(),
    {
        let mut node = Node::new(x, y);
        node.fixed_p = node.p;
        node
    }

    /// A fully fixed node that drives its neighbors at a constant angular
    /// speed.
    pub fn new_rotor(x: i64, y: i64, speed: i64) -> (r: Node)
        requires
            fx_ok(x as int),
            fx_ok(y as int),
            fx_ok(speed as int),
        ensures
            r.p == (Vec2 { x, y }),
            r.v == Vec2::spec_zero(),
            r.fixed_p == (Vec2 { x, y }),
            r.rotor_speed == speed,
            r.ok(),
    {
        let mut node = Node::new(x, y);
        node.fixed_p = node.p;
        node.rotor_speed = speed;
        node
    }

    /// The node translated by `(x, y)`: the position moves, and every locked
    /// axis is re-pinned at its translated coordinate.
    pub open spec fn spec_moved_by(self, x: i64, y: i64) -> Node {
        Node {
            p: self.p.spec_add(Vec2 { x, y }),
            fixed_p: Vec2 {
                x: if self.spec_fixed_x() {
                    fx_clip(self.fixed_p.x + x) as i64
                } else {
                    self.fixed_p.x
                },
                y: if self.spec_fixed_y() {
                    fx_clip(self.fixed_p.y + y) as i64
                } else {
                    self.fixed_p.y
                },
            },
            ..self
        }
    }

    pub fn move_by(&mut self, x: i64, y: i64)
        requires
            old(self).ok(),
            fx_ok(x as int),
            fx_ok(y as int),
        ensures
            *final(self) == old(self).spec_moved_by(x, y),
            final(self).ok(),
            final(self).spec_fixed_x() == old(self).spec_fixed_x(),
            final(self).spec_fixed_y() == old(self).spec_fixed_y(),
    {
        self.p = self.p.add(Vec2::new(x, y));
        if self.fixed_x() {
            self.fixed_p.x = fx_add(self.fixed_p.x, x);
        }
        if self.fixed_y() {
            self.fixed_p.y = fx_add(self.fixed_p.y, y);
        }
    }

    /// Half the squared speed.
    pub open spec fn spec_kinetic_energy(&self) -> i64 {
        fx_clip(fx_mul_raw(32768, self.v.spec_len2() as int)) as i64
    }

    #[verifier::when_used_as_spec(spec_kinetic_energy)]
    pub fn kinetic_energy(&self) -> (r: i64)
        requires
            self.ok(),
        ensures
            r == self.spec_kinetic_energy(),
            fx_ok(r as int),
            r >= 0,
    {
        let l2 = self.v.len2();
        proof {
            assert(fx_mul_raw(32768, l2 as int) >= 0) by (nonlinear_arith)
                requires
                    l2 >= 0,
            ;
        }
        crate::fixed::fx_mul(32768, l2)
    }
}

impl Default for Node {
    fn default() -> (r: Node)
        ensures
            r == (Node {
                p: Vec2::spec_zero(),
                v: Vec2::spec_zero(),
                fixed_p: Vec2 { x: FX_UNSET, y: FX_UNSET },
                rotor_speed: 0,
            }),
            r.ok(),
    {
        Node {
            p: Vec2::zero(),
            v: Vec2::zero(),
            fixed_p: Vec2 { x: FX_UNSET, y: FX_UNSET },
            rotor_speed: 0,
        }
    }
}

} // verus!
