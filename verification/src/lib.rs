//! A KZG polynomial commitment scheme over the curve BLS12-381: commit keys
//! in monomial and in Lagrange form, domains of roots of unity with their
//! Fourier transforms on scalars and on points, polynomials in both forms,
//! and openings of commitments, single and aggregated. The curve arithmetic
//! and the pairing are those of `blstrs`; everything built on them is
//! verified against contracts that speak of field elements as integers and
//! of points as the multiples of their group's generator.

use vstd::prelude::*;

pub mod commit_key;
pub mod dft;
pub mod domain;
pub mod error;
pub mod field;
pub mod fourier;
pub mod g1;
pub mod g2;
pub mod inversion;
pub mod kzg;
pub mod lagrange;
pub mod polynomial;
pub mod scalar;
pub mod sums;
pub mod unity;

pub use crate::commit_key::{CommitKey, CommitKeyLagrange};
pub use crate::domain::Domain;
pub use crate::error::Error;
pub use crate::g1::{g1_lincomb, G1Point};
pub use crate::g2::G2Point;
pub use crate::inversion::{batch_inverse, batch_inversion, inverse};
pub use crate::kzg::aggregated_proof::AggregatedKZG;
pub use crate::kzg::challenge::{challenge_from_hash, derive_challenge, transcript_bytes};
pub use crate::kzg::opening::{open, verify, KZGWitness};
pub use crate::kzg::srs::PublicParameters;
pub use crate::polynomial::{Coefficients, Polynomial};
pub use crate::scalar::Scalar;

verus! {

/// Number of bytes in the serialised form of a scalar.
pub const SCALAR_SERIALISED_SIZE: usize = 32;

/// Number of bytes in the compressed serialised form of a G1 point.
pub const G1_POINT_SERIALISED_SIZE: usize = 48;

/// A commitment to a polynomial.
pub type KZGCommitment = G1Point;

} // verus!
