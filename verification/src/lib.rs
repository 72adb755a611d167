//! Dense univariate polynomials over the integers modulo a 64-bit modulus,
//! with 256-bit coefficients on the way in and out.

pub mod field;
pub mod laws;
pub mod model;
pub mod polynomial;
pub mod utils;
pub mod wide;

pub use polynomial::Polynomial;
