//! The free idempotent rig on two generators, with coefficients folded into
//! `{0, 1, 2, 3}`, and the congruence generated by identifying every element
//! with its square.

pub mod rig;
pub mod union_find;
pub mod closure;
pub mod report;
