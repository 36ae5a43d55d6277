//! A 2D structure sandbox: point-mass nodes joined by rigid, rope, hydraulic
//! and spring constraints, advanced by a fixed-step solver under gravity and
//! contact collision, with live editing (add, link, remove, copy) and binary
//! persistence of the whole world.
//!
//! All physical scalars are Q16.16 fixed-point numbers held in `i64`, clamped
//! to a symmetric range, so every formula of the solver is exact integer
//! arithmetic with a proved meaning.

pub mod fixed;
pub mod vec2;
pub mod node;
pub mod link;
pub mod world;
pub mod flush;
pub mod select;
pub mod serial;
pub mod hash_grid;
pub mod solve;
pub mod integrator;
pub mod cooldown;
pub mod atlas;
