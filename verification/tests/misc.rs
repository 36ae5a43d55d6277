use truss::atlas::Packer;
use truss::cooldown::Cooldown;
use truss::fixed::{fx_add, fx_div, fx_mul, fx_neg, fx_sqrt, FX_MAX, FX_ONE};
use truss::vec2::Vec2;

fn fx(v: i64) -> i64 {
    v * FX_ONE
}

#[test]
fn fixed_point_arithmetic_is_exact_on_integers() {
    assert_eq!(fx_add(fx(2), fx(3)), fx(5));
    assert_eq!(fx_mul(fx(2), fx(3)), fx(6));
    assert_eq!(fx_mul(-fx(2), fx(3)), -fx(6));
    assert_eq!(fx_div(fx(6), fx(3)), fx(2));
    assert_eq!(fx_div(fx(1), fx(2)), FX_ONE / 2);
    assert_eq!(fx_sqrt(fx(9)), fx(3));
    assert_eq!(fx_neg(fx(4)), -fx(4));
}

#[test]
fn fixed_point_saturates() {
    assert_eq!(fx_add(FX_MAX, FX_MAX), FX_MAX);
    assert_eq!(fx_add(-FX_MAX, -FX_MAX), -FX_MAX);
    assert_eq!(fx_mul(FX_MAX, FX_MAX), FX_MAX);
}

#[test]
fn vector_length_is_euclidean() {
    let v = Vec2::new(fx(3), fx(4));
    assert_eq!(v.len(), fx(5));
    assert_eq!(v.len2(), fx(25));
    let a = Vec2::new(0, 0);
    let b = Vec2::new(fx(3), fx(4));
    assert_eq!(a.dist(&b), fx(5));
}

#[test]
fn vector_dot_and_perpendicular() {
    let a = Vec2::new(fx(2), fx(3));
    let b = Vec2::new(fx(4), -fx(1));
    assert_eq!(a.dot(&b), fx(5));
    let c = a.cross();
    assert_eq!(a.dot(&c), 0);
}

#[test]
fn cooldown_cadence() {
    let mut c = Cooldown::new(10, 100);
    assert!(!c.ready(105));
    assert!(c.ready(110));
    assert_eq!(c.dt(104), 4);
    c.next();
    assert_eq!(c.timer, 110);
    assert!(!c.ready(115));
    c.reset(200);
    assert_eq!(c.dt(200), 0);
    // a mark ahead of the clock saturates to zero elapsed
    assert_eq!(c.dt(150), 0);
}

#[test]
fn packer_places_in_bounds_disjoint_rects() {
    let mut p = Packer::new(100, 100, false);
    let r1 = p.pack(30, 40).unwrap();
    assert_eq!((r1.2, r1.3), (30, 40));
    let r2 = p.pack(30, 40).unwrap();
    // both fit inside the atlas and do not overlap
    for r in [r1, r2] {
        assert!(r.0 + r.2 <= 100 && r.1 + r.3 <= 100);
    }
    let apart = r1.0 + r1.2 <= r2.0 || r2.0 + r2.2 <= r1.0 || r1.1 + r1.3 <= r2.1 || r2.1 + r2.3
        <= r1.1;
    assert!(apart);
}

#[test]
fn packer_rejects_what_cannot_fit() {
    let mut p = Packer::new(100, 100, false);
    assert_eq!(p.pack(101, 10), None);
    assert_eq!(p.pack(10, 101), None);
}

#[test]
fn packer_rotates_when_allowed() {
    let mut p = Packer::new(200, 100, true);
    let r = p.pack(50, 150).unwrap();
    assert_eq!((r.2, r.3), (150, 50));
    let mut q = Packer::new(200, 100, false);
    assert_eq!(q.pack(50, 150), None);
}

#[test]
fn packer_reset_reclaims_everything() {
    let mut p = Packer::new(64, 64, false);
    assert!(p.pack(64, 64).is_some());
    assert_eq!(p.pack(1, 1), None);
    p.reset();
    assert!(p.pack(64, 64).is_some());
}

#[test]
fn packer_resize_opens_new_space() {
    let mut p = Packer::new(64, 64, false);
    assert!(p.pack(64, 64).is_some());
    p.resize(128, 64);
    let r = p.pack(60, 60).unwrap();
    assert!(r.0 >= 64);
}

#[test]
fn packer_first_pack_lands_at_the_origin() {
    let mut p = Packer::new(100, 100, false);
    assert_eq!(p.pack(10, 20), Some((0, 0, 10, 20)));
}
