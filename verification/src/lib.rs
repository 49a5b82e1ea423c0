//! Partial extended GCD of arbitrary-precision integers, with a Lehmer-style
//! machine-word acceleration of the inner Euclidean steps.
//!
//! The arbitrary-precision arithmetic itself is supplied by the `num-bigint`
//! crate and is relied upon through the contracts in [`bigops`]; the algorithm
//! built on top of it lives in [`gcd`] and is verified.

pub mod bigops;
pub mod gcd;

pub use gcd::partial_extended_gcd;
pub use gcd::partial_extended_gcd_plain;
pub use gcd::shift_trunc;
