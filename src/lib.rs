//! A sum-check proof that a witness satisfies a customizable constraint
//! system `(M1 z) * (M2 z) - M3 z == 0` over a prime field.
use vstd::prelude::*;

/// Dense integer matrices and vectors.
pub mod dense;
/// Arithmetic modulo a prime.
pub mod field;
/// Multilinear extensions of tables and the eq-indicator.
pub mod mle;
/// Polynomials in one variable and rings of named variables.
pub mod polynomial;
/// The constraint system, the round polynomials and the prover.
pub mod prover;
/// Replaying a transcript, check by check.
pub mod replay;

verus! {

} // verus!
