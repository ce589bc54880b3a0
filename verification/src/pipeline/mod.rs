//! The matching pipeline: from a snapshot to components and their summary.

pub mod admission;
pub mod atoms;
pub mod catalog;
pub mod chains;
pub mod collector_plan;
pub mod collectors;
pub mod compaction;
pub mod components;
pub mod connectivity;
pub mod count_laws;
pub mod error;
pub mod expansion;
pub mod fallback;
pub mod gathering;
pub mod laws;
pub mod memory_laws;
pub mod pairs;
pub mod plans;
pub mod rescue_edges;
pub mod rescue_exact;
pub mod rescue_memory;
pub mod rescue_plan;
pub mod rescue_scan;
pub mod rescue_store;
pub mod run;
pub mod run_plan;
pub mod sampling;
pub mod sampling_laws;
pub mod scopes;
pub mod shared;
pub mod submission;
pub mod summary;
pub mod summary_laws;
pub mod summary_rows;
pub mod summary_runs;
pub mod summary_scope;
pub mod tokens;
