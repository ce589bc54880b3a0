//! Verified core of a metadata duplicate-detection engine.

pub mod columns;
pub mod digest;
pub mod identity;
pub mod pipeline;
pub mod progress;
pub mod reduce;
pub mod resource;
pub mod scheduler;
pub mod scoring;
pub mod snapshot;
pub mod sorting;
pub mod text;
