//! An exact-integer tableau engine: an `n` by `n + 1` grid of signed
//! integers with bounds-checked, divisibility-aware row operations (swap,
//! scalar multiply, guarded scalar divide, add-a-scaled-row), built on a
//! number-theory library of gcd, lcm and divisor-set enumeration that makes
//! those operations exact and safe.
pub mod arith;
pub mod factors;
pub mod grid;
pub mod parse;
pub mod tableau;
