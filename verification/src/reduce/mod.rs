//! Connectivity: edges, union-find, spanning forests and component roots.

pub mod chain;
pub mod codec;
pub mod collector;
pub mod commit;
pub mod component;
pub mod dsu;
pub mod error;
pub mod forest;
pub mod graph;
pub mod scratch;
pub mod storage;
