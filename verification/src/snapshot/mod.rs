//! The engine's input: feature and blocking columns and their consistency.

pub mod atoms;
pub mod blocking;
pub mod error;
pub mod features;
pub mod fingerprint_laws;
pub mod laws;
pub mod metadata;
