//! Binomial coefficients C(n, k), computed three ways: by plain recursion, by
//! a rolling row of Pascal's triangle, and by recursion over a memo table.
//!
//! `pascal` holds the mathematical definition and the laws proved of it,
//! `bounds` says which coefficients fit in a `u64`, and `bin_coeff` holds the
//! three executable functions, each proved to return exactly C(n, k).

pub mod pascal;
pub mod bounds;
pub mod bin_coeff;
