//! A (t, n) threshold secret-sharing scheme over a prime field.
pub mod error;
pub mod math;

pub use error::Error;
pub mod share;

pub use share::Share;
pub mod scheme;

pub use scheme::shamirs::ShamirSecretSharing;
