//! Fixed-point scalar arithmetic.
//!
//! A scalar is a Q16.16 value held in an `i64`: the raw integer is the real
//! value times `FX_ONE`. Every operation clamps its result to the symmetric
//! range `[-FX_MAX, FX_MAX]`, so arithmetic is total and never overflows.
//! Division clamps its divisor away from zero at the call sites that need it.

use vstd::prelude::*;

verus! {

/// Raw representation of 1.0.
pub const FX_ONE: i64 = 65536;

/// Largest raw magnitude a scalar may hold (2^44).
pub const FX_MAX: i64 = 0x1000_0000_0000;

/// Sentinel raw value standing for "no value"; outside the clamped range.
pub const FX_UNSET: i64 = i64::MAX;

/// A raw value that lies in the clamped scalar range.
pub open spec fn fx_ok(x: int) -> bool {
    -(FX_MAX as int) <= x <= FX_MAX as int
}

/// Clamp an unbounded value into the scalar range.
pub open spec fn fx_clip(x: int) -> int {
    if x > FX_MAX as int {
        FX_MAX as int
    } else if x < -(FX_MAX as int) {
        -(FX_MAX as int)
    } else {
        x
    }
}

/// Magnitude of a mathematical integer.
pub open spec fn iabs(x: int) -> int {
    if x < 0 {
        -x
    } else {
        x
    }
}

/// The product of two scalars, rescaled: magnitudes are multiplied, divided
/// by `FX_ONE` rounding toward zero, and the sign is applied afterwards.
pub open spec fn fx_mul_raw(a: int, b: int) -> int {
    if (a < 0) != (b < 0) {
        -((iabs(a) * iabs(b)) / (FX_ONE as int))
    } else {
        (iabs(a) * iabs(b)) / (FX_ONE as int)
    }
}

/// The quotient of two scalars, rescaled the same way (b != 0).
pub open spec fn fx_div_raw(a: int, b: int) -> int {
    if (a < 0) != (b < 0) {
        -((iabs(a) * (FX_ONE as int)) / iabs(b))
    } else {
        (iabs(a) * (FX_ONE as int)) / iabs(b)
    }
}

/// Saturating sum of two scalars.
pub fn fx_add(a: i64, b: i64) -> (r: i64)
    requires
        fx_ok(a as int),
        fx_ok(b as int),
    ensures
        r == fx_clip(a + b),
        fx_ok(r as int),
{
    let s: i64 = a + b;
    if s > FX_MAX {
        FX_MAX
    } else if s < -FX_MAX {
        -FX_MAX
    } else {
        s
    }
}

/// Saturating difference of two scalars.
pub fn fx_sub(a: i64, b: i64) -> (r: i64)
    requires
        fx_ok(a as int),
        fx_ok(b as int),
    ensures
        r == fx_clip(a - b),
        fx_ok(r as int),
{
    let s: i64 = a - b;
    if s > FX_MAX {
        FX_MAX
    } else if s < -FX_MAX {
        -FX_MAX
    } else {
        s
    }
}

/// Negation of a scalar (exact: the range is symmetric).
pub fn fx_neg(a: i64) -> (r: i64)
    requires
        fx_ok(a as int),
    ensures
        r == -(a as int),
        fx_ok(r as int),
{
    -a
}

/// Saturating product of two scalars.
pub fn fx_mul(a: i64, b: i64) -> (r: i64)
    requires
        fx_ok(a as int),
        fx_ok(b as int),
    ensures
        r == fx_clip(fx_mul_raw(a as int, b as int)),
        fx_ok(r as int),
{
    let neg: bool = (a < 0) != (b < 0);
    let aa: u128 = if a < 0 {
        (-a) as u128
    } else {
        a as u128
    };
    let bb: u128 = if b < 0 {
        (-b) as u128
    } else {
        b as u128
    };
    assert(aa == iabs(a as int) && bb == iabs(b as int));
    assert(aa * bb <= (FX_MAX as u128) * (FX_MAX as u128)) by (nonlinear_arith)
        requires
            aa <= FX_MAX as u128,
            bb <= FX_MAX as u128,
    ;
    let p: u128 = aa * bb;
    let q: u128 = p / 65536;
    let m: i64 = if q > FX_MAX as u128 {
        FX_MAX
    } else {
        q as i64
    };
    if neg {
        -m
    } else {
        m
    }
}

/// Saturating quotient of two scalars; the divisor must be nonzero.
pub fn fx_div(a: i64, b: i64) -> (r: i64)
    requires
        fx_ok(a as int),
        fx_ok(b as int),
        b != 0,
    ensures
        r == fx_clip(fx_div_raw(a as int, b as int)),
        fx_ok(r as int),
{
    let neg: bool = (a < 0) != (b < 0);
    let aa: u128 = if a < 0 {
        (-a) as u128
    } else {
        a as u128
    };
    let bb: u128 = if b < 0 {
        (-b) as u128
    } else {
        b as u128
    };
    assert(aa == iabs(a as int) && bb == iabs(b as int));
    let q: u128 = (aa * 65536) / bb;
    let m: i64 = if q > FX_MAX as u128 {
        FX_MAX
    } else {
        q as i64
    };
    if neg {
        -m
    } else {
        m
    }
}

/// The nonnegative square root, rounded down.
pub open spec fn sqrt_floor(n: nat) -> nat {
    choose|r: nat| #[trigger] (r * r) <= n < (r + 1) * (r + 1)
}

/// Any integer square root rounded down is unique.
pub proof fn lemma_sqrt_floor_unique(n: nat, r: nat)
    requires
        r * r <= n,
        n < (r + 1) * (r + 1),
    ensures
        sqrt_floor(n) == r,
{
    assert(exists|x: nat| #[trigger] (x * x) <= n < (x + 1) * (x + 1)) by {
        assert(r * r <= n < (r + 1) * (r + 1));
    }
    let s = sqrt_floor(n);
    assert(s * s <= n < (s + 1) * (s + 1));
    if s < r {
        assert((s + 1) * (s + 1) <= r * r) by (nonlinear_arith)
            requires
                s + 1 <= r,
        ;
    }
    if r < s {
        assert((r + 1) * (r + 1) <= s * s) by (nonlinear_arith)
            requires
                r + 1 <= s,
        ;
    }
}

/// Integer square root by bisection.
pub fn isqrt(n: u128) -> (r: u64)
    requires
        n < 0x1000_0000_0000_0000_0000_0000,
    ensures
        r * r <= n < (r + 1) * (r + 1),
        r == sqrt_floor(n as nat),
{
    if n == 0 {
        proof {
            assert((0nat + 1) * (0nat + 1) == 1) by (nonlinear_arith);
            lemma_sqrt_floor_unique(n as nat, 0);
        }
        return 0;
    }
    let mut lo: u64 = 0;
    let mut hi: u64 = 0x4000_0000_0000;
    assert((0x4000_0000_0000 as int) * (0x4000_0000_0000 as int)
        == 0x1000_0000_0000_0000_0000_0000);
    while lo + 1 < hi
        invariant
            lo < hi,
            hi <= 0x4000_0000_0000,
            (lo as int) * (lo as int) <= n,
            n < (hi as int) * (hi as int),
        decreases hi - lo,
    {
        let mid: u64 = lo + (hi - lo) / 2;
        assert((mid as int) * (mid as int) < 0x1000_0000_0000_0000_0000_0000) by (nonlinear_arith)
            requires
                mid < 0x4000_0000_0000,
        ;
        let sq: u128 = (mid as u128) * (mid as u128);
        if sq <= n {
            lo = mid;
        } else {
            hi = mid;
        }
    }
    proof {
        lemma_sqrt_floor_unique(n as nat, lo as nat);
    }
    lo
}

/// Fixed-point square root of a nonnegative scalar: the raw result is the
/// rounded-down square root of the raw value rescaled by `FX_ONE`.
pub fn fx_sqrt(a: i64) -> (r: i64)
    requires
        fx_ok(a as int),
        a >= 0,
    ensures
        r == fx_clip(sqrt_floor((a * FX_ONE) as nat) as int),
        fx_ok(r as int),
        r >= 0,
{
    let n: u128 = (a as u128) * (FX_ONE as u128);
    let s: u64 = isqrt(n);
    if s > FX_MAX as u64 {
        FX_MAX
    } else {
        s as i64
    }
}

} // verus!
