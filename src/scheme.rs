//! The threshold scheme that splits and reconstructs secrets.
pub mod laws;
pub mod shamirs;

pub use shamirs::ShamirSecretSharing;
