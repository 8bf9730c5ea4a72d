//! Field arithmetic, polynomials and Lagrange interpolation.
pub mod field;
pub mod interpolation;
pub mod polynomial;

pub use field::FiniteField;
pub use interpolation::lagrange_interpolate;
pub use polynomial::Polynomial;
