//! The work catalog, the frozen recall plan and coverage certificates.

pub mod catalog;
pub mod jobs;
pub mod laws;
pub mod recall;
