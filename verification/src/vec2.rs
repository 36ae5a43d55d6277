//! 2D vectors over the fixed-point scalars.
//!
//! Each executable operation has a spec twin (attached with
//! `when_used_as_spec`) built from the exact fixed-point semantics, so
//! contracts elsewhere can speak of `a.add(b)` or `a.dist(&b)` directly.

use vstd::prelude::*;

use crate::fixed::{
    fx_add, fx_clip, fx_div, fx_mul, fx_mul_raw, fx_ok, fx_sub, isqrt, sqrt_floor, FX_MAX,
};

verus! {

#[derive(Clone, Copy, PartialEq, Eq, Structural, Debug)]
pub struct Vec2 {
    pub x: i64,
    pub y: i64,
}

impl Vec2 {
    /// Both components lie in the scalar range.
    pub open spec fn ok(self) -> bool {
        fx_ok(self.x as int) && fx_ok(self.y as int)
    }

    pub open spec fn spec_new(x: i64, y: i64) -> Vec2 {
        Vec2 { x, y }
    }

    #[verifier::when_used_as_spec(spec_new)]
    pub fn new(x: i64, y: i64) -> (r: Vec2)
        ensures
            r == Vec2::spec_new(x, y),
    {
        Vec2 { x, y }
    }

    pub open spec fn spec_splat(v: i64) -> Vec2 {
        Vec2 { x: v, y: v }
    }

    #[verifier::when_used_as_spec(spec_splat)]
    pub fn splat(v: i64) -> (r: Vec2)
        ensures
            r == Vec2::spec_splat(v),
    {
        Vec2 { x: v, y: v }
    }

    pub open spec fn spec_zero() -> Vec2 {
        Vec2 { x: 0, y: 0 }
    }

    #[verifier::when_used_as_spec(spec_zero)]
    pub fn zero() -> (r: Vec2)
        ensures
            r == Vec2::spec_zero(),
            r.ok(),
    {
        Vec2 { x: 0, y: 0 }
    }

    pub open spec fn spec_add(self, rhs: Vec2) -> Vec2 {
        Vec2 { x: fx_clip(self.x + rhs.x) as i64, y: fx_clip(self.y + rhs.y) as i64 }
    }

    #[verifier::when_used_as_spec(spec_add)]
    pub fn add(self, rhs: Vec2) -> (r: Vec2)
        requires
            self.ok(),
            rhs.ok(),
        ensures
            r == self.spec_add(rhs),
            r.ok(),
    {
        Vec2 { x: fx_add(self.x, rhs.x), y: fx_add(self.y, rhs.y) }
    }

    pub open spec fn spec_sub(self, rhs: Vec2) -> Vec2 {
        Vec2 { x: fx_clip(self.x - rhs.x) as i64, y: fx_clip(self.y - rhs.y) as i64 }
    }

    #[verifier::when_used_as_spec(spec_sub)]
    pub fn sub(self, rhs: Vec2) -> (r: Vec2)
        requires
            self.ok(),
            rhs.ok(),
        ensures
            r == self.spec_sub(rhs),
            r.ok(),
    {
        Vec2 { x: fx_sub(self.x, rhs.x), y: fx_sub(self.y, rhs.y) }
    }

    pub open spec fn spec_neg(self) -> Vec2 {
        Vec2 { x: -self.x as i64, y: -self.y as i64 }
    }

    #[verifier::when_used_as_spec(spec_neg)]
    pub fn neg(self) -> (r: Vec2)
        requires
            self.ok(),
        ensures
            r == self.spec_neg(),
            r.ok(),
    {
        Vec2 { x: -self.x, y: -self.y }
    }

    /// Componentwise scaling by a scalar.
    pub open spec fn spec_scale(self, k: i64) -> Vec2 {
        Vec2 {
            x: fx_clip(fx_mul_raw(self.x as int, k as int)) as i64,
            y: fx_clip(fx_mul_raw(self.y as int, k as int)) as i64,
        }
    }

    #[verifier::when_used_as_spec(spec_scale)]
    pub fn scale(self, k: i64) -> (r: Vec2)
        requires
            self.ok(),
            fx_ok(k as int),
        ensures
            r == self.spec_scale(k),
            r.ok(),
    {
        Vec2 { x: fx_mul(self.x, k), y: fx_mul(self.y, k) }
    }

    /// Componentwise division by a nonzero scalar.
    pub open spec fn spec_scale_div(self, k: i64) -> Vec2 {
        Vec2 {
            x: fx_clip(crate::fixed::fx_div_raw(self.x as int, k as int)) as i64,
            y: fx_clip(crate::fixed::fx_div_raw(self.y as int, k as int)) as i64,
        }
    }

    #[verifier::when_used_as_spec(spec_scale_div)]
    pub fn scale_div(self, k: i64) -> (r: Vec2)
        requires
            self.ok(),
            fx_ok(k as int),
            k != 0,
        ensures
            r == self.spec_scale_div(k),
            r.ok(),
    {
        Vec2 { x: fx_div(self.x, k), y: fx_div(self.y, k) }
    }

    pub open spec fn spec_dot(&self, rhs: &Vec2) -> i64 {
        fx_clip(
            fx_clip(fx_mul_raw(self.x as int, rhs.x as int)) + fx_clip(
                fx_mul_raw(self.y as int, rhs.y as int),
            ),
        ) as i64
    }

    #[verifier::when_used_as_spec(spec_dot)]
    pub fn dot(&self, rhs: &Vec2) -> (r: i64)
        requires
            self.ok(),
            rhs.ok(),
        ensures
            r == self.spec_dot(rhs),
            fx_ok(r as int),
    {
        fx_add(fx_mul(self.x, rhs.x), fx_mul(self.y, rhs.y))
    }

    pub open spec fn spec_len2(&self) -> i64 {
        self.spec_dot(self)
    }

    #[verifier::when_used_as_spec(spec_len2)]
    pub fn len2(&self) -> (r: i64)
        requires
            self.ok(),
        ensures
            r == self.spec_len2(),
            fx_ok(r as int),
            r >= 0,
    {
        proof {
            lemma_dot_self_nonneg(*self);
        }
        self.dot(self)
    }

    /// Exact squared magnitude of the raw components, before any clamping.
    pub open spec fn norm2_wide(self) -> int {
        self.x * self.x + self.y * self.y
    }

    /// Euclidean length: the rounded-down square root of the exact squared
    /// magnitude, clamped into the scalar range.
    pub open spec fn spec_len(&self) -> i64 {
        fx_clip(sqrt_floor(self.norm2_wide() as nat) as int) as i64
    }

    #[verifier::when_used_as_spec(spec_len)]
    pub fn len(&self) -> (r: i64)
        requires
            self.ok(),
        ensures
            r == self.spec_len(),
            fx_ok(r as int),
            r >= 0,
    {
        let ax: u128 = if self.x < 0 {
            (-self.x) as u128
        } else {
            self.x as u128
        };
        let ay: u128 = if self.y < 0 {
            (-self.y) as u128
        } else {
            self.y as u128
        };
        assert(ax * ax == self.x * self.x && ay * ay == self.y * self.y) by (nonlinear_arith)
            requires
                ax == crate::fixed::iabs(self.x as int),
                ay == crate::fixed::iabs(self.y as int),
        ;
        assert(ax * ax < 0x200_0000_0000_0000_0000_0000 && ay * ay
            < 0x200_0000_0000_0000_0000_0000) by (nonlinear_arith)
            requires
                ax <= FX_MAX as u128,
                ay <= FX_MAX as u128,
        ;
        let n: u128 = ax * ax + ay * ay;
        let s: u64 = isqrt(n);
        if s > FX_MAX as u64 {
            FX_MAX
        } else {
            s as i64
        }
    }

    pub open spec fn spec_dist(&self, rhs: &Vec2) -> i64 {
        rhs.spec_sub(*self).spec_len()
    }

    /// Distance between two points: the length of their clamped difference.
    #[verifier::when_used_as_spec(spec_dist)]
    pub fn dist(&self, rhs: &Vec2) -> (r: i64)
        requires
            self.ok(),
            rhs.ok(),
        ensures
            r == self.spec_dist(rhs),
            fx_ok(r as int),
            r >= 0,
    {
        rhs.sub(*self).len()
    }

    /// The perpendicular vector, a quarter turn counterclockwise.
    pub open spec fn spec_cross(&self) -> Vec2 {
        Vec2 { x: -self.y as i64, y: self.x }
    }

    #[verifier::when_used_as_spec(spec_cross)]
    pub fn cross(&self) -> (r: Vec2)
        requires
            self.ok(),
        ensures
            r == self.spec_cross(),
            r.ok(),
    {
        Vec2 { x: -self.y, y: self.x }
    }

    pub open spec fn spec_min(&self, rhs: &Vec2) -> Vec2 {
        Vec2 {
            x: if self.x <= rhs.x {
                self.x
            } else {
                rhs.x
            },
            y: if self.y <= rhs.y {
                self.y
            } else {
                rhs.y
            },
        }
    }

    #[verifier::when_used_as_spec(spec_min)]
    pub fn min(&self, rhs: &Vec2) -> (r: Vec2)
        ensures
            r == self.spec_min(rhs),
    {
        Vec2 {
            x: if self.x <= rhs.x {
                self.x
            } else {
                rhs.x
            },
            y: if self.y <= rhs.y {
                self.y
            } else {
                rhs.y
            },
        }
    }

    pub open spec fn spec_max(&self, rhs: &Vec2) -> Vec2 {
        Vec2 {
            x: if self.x >= rhs.x {
                self.x
            } else {
                rhs.x
            },
            y: if self.y >= rhs.y {
                self.y
            } else {
                rhs.y
            },
        }
    }

    #[verifier::when_used_as_spec(spec_max)]
    pub fn max(&self, rhs: &Vec2) -> (r: Vec2)
        ensures
            r == self.spec_max(rhs),
    {
        Vec2 {
            x: if self.x >= rhs.x {
                self.x
            } else {
                rhs.x
            },
            y: if self.y >= rhs.y {
                self.y
            } else {
                rhs.y
            },
        }
    }
}

impl Vec2 {
    /// The unit-length direction of the vector, with the divisor clamped
    /// away from zero so the origin maps to itself.
    pub open spec fn spec_norm(&self) -> Vec2 {
        let l = self.spec_len();
        let den: i64 = if l < 1 {
            1
        } else {
            l
        };
        self.spec_scale_div(den)
    }

    #[verifier::when_used_as_spec(spec_norm)]
    pub fn norm(&self) -> (r: Vec2)
        requires
            self.ok(),
        ensures
            r == self.spec_norm(),
            r.ok(),
    {
        let l = self.len();
        let den: i64 = if l < 1 {
            1
        } else {
            l
        };
        self.scale_div(den)
    }

    /// The componentwise sign, as fixed-point units.
    pub open spec fn spec_sign(&self) -> Vec2 {
        Vec2 {
            x: if self.x > 0 {
                crate::fixed::FX_ONE
            } else if self.x < 0 {
                -crate::fixed::FX_ONE as i64
            } else {
                0
            },
            y: if self.y > 0 {
                crate::fixed::FX_ONE
            } else if self.y < 0 {
                -crate::fixed::FX_ONE as i64
            } else {
                0
            },
        }
    }

    #[verifier::when_used_as_spec(spec_sign)]
    pub fn sign(&self) -> (r: Vec2)
        ensures
            r == self.spec_sign(),
            r.ok(),
    {
        Vec2 {
            x: if self.x > 0 {
                crate::fixed::FX_ONE
            } else if self.x < 0 {
                -crate::fixed::FX_ONE
            } else {
                0
            },
            y: if self.y > 0 {
                crate::fixed::FX_ONE
            } else if self.y < 0 {
                -crate::fixed::FX_ONE
            } else {
                0
            },
        }
    }

    /// The componentwise magnitude.
    pub open spec fn spec_abs(&self) -> Vec2 {
        Vec2 {
            x: if self.x < 0 {
                -self.x as i64
            } else {
                self.x
            },
            y: if self.y < 0 {
                -self.y as i64
            } else {
                self.y
            },
        }
    }

    #[verifier::when_used_as_spec(spec_abs)]
    pub fn abs(&self) -> (r: Vec2)
        requires
            self.ok(),
        ensures
            r == self.spec_abs(),
            r.ok(),
    {
        Vec2 {
            x: if self.x < 0 {
                -self.x
            } else {
                self.x
            },
            y: if self.y < 0 {
                -self.y
            } else {
                self.y
            },
        }
    }

    /// Linear interpolation toward `rhs` by the fixed-point fraction `k`.
    pub open spec fn spec_lerp(&self, rhs: &Vec2, k: i64) -> Vec2 {
        self.spec_add(rhs.spec_sub(*self).spec_scale(k))
    }

    #[verifier::when_used_as_spec(spec_lerp)]
    pub fn lerp(&self, rhs: &Vec2, k: i64) -> (r: Vec2)
        requires
            self.ok(),
            rhs.ok(),
            fx_ok(k as int),
        ensures
            r == self.spec_lerp(rhs, k),
            r.ok(),
    {
        self.add(rhs.sub(*self).scale(k))
    }

    pub open spec fn spec_max_elem(&self) -> i64 {
        if self.x >= self.y {
            self.x
        } else {
            self.y
        }
    }

    /// The larger component.
    #[verifier::when_used_as_spec(spec_max_elem)]
    pub fn max_elem(&self) -> (r: i64)
        ensures
            r == self.spec_max_elem(),
    {
        if self.x >= self.y {
            self.x
        } else {
            self.y
        }
    }

    pub open spec fn spec_min_elem(&self) -> i64 {
        if self.x <= self.y {
            self.x
        } else {
            self.y
        }
    }

    /// The smaller component.
    #[verifier::when_used_as_spec(spec_min_elem)]
    pub fn min_elem(&self) -> (r: i64)
        ensures
            r == self.spec_min_elem(),
    {
        if self.x <= self.y {
            self.x
        } else {
            self.y
        }
    }
}

impl Default for Vec2 {
    fn default() -> (r: Vec2)
        ensures
            r == Vec2::spec_zero(),
    {
        Vec2 { x: 0, y: 0 }
    }
}

/// The dot product of a vector with itself is nonnegative.
pub proof fn lemma_dot_self_nonneg(a: Vec2)
    ensures
        a.spec_dot(&a) >= 0,
{
    assert(fx_mul_raw(a.x as int, a.x as int) >= 0) by (nonlinear_arith);
    assert(fx_mul_raw(a.y as int, a.y as int) >= 0) by (nonlinear_arith);
}

} // verus!
