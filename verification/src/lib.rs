//! Generic algebra for groups of unknown order: a group capability interface,
//! binary exponentiation, divide-and-conquer multi-exponentiation, and
//! parameter setup for a polynomial-commitment scheme.
pub mod bigint;
pub mod util;
pub mod groups;
pub mod primitives;
