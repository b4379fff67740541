//! Feldman-style verifiable secret sharing over a prime field.
//!
//! A dealer splits a byte string into shares of a random polynomial whose
//! constant term is the secret, publishes the coefficients as commitments,
//! and any large enough set of shares gives the secret back by Lagrange
//! interpolation at zero.

pub mod vss;

pub use vss::FeldmanVSS;
