//! Solves systems of simultaneous modular congruences with the Chinese
//! remainder theorem, built on the extended Euclidean algorithm.
pub mod crt;
pub mod euclid;

pub use crt::chinese_remainder_theorem;
pub use euclid::extended_gcd;
pub use euclid::mod_inverse;
