//! A node of a Shamir secret-sharing multi-party computation protocol over
//! the Mersenne-prime field F_p with p = 2^61 - 1.
//!
//! The crate is organised in three layers: `math` holds the field
//! arithmetic, polynomials and Lagrange interpolation; `mpc` holds Shamir
//! sharing, share algebra and the degree-reduction multiplication protocol;
//! `net` holds the framed packet transport and the party-indexed network.

pub mod math;
pub mod mpc;
pub mod net;
pub mod rng;
