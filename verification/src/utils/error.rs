//! What can go wrong when polynomials are built or combined.

use vstd::prelude::*;

verus! {

/// The ways in which an operation on polynomials is refused.
#[derive(Debug, Clone, Copy, PartialEq, Eq, Structural)]
pub enum PolynomialError {
    /// The two operands are defined over fields with different moduli.
    FieldNotEqual,
    /// The modulus is zero, so there is no field to work in.
    InvalidModulus,
}

} // verus!
