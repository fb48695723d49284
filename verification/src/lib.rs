//! Verified core of a process-memory snapshot analyzer.

pub mod models;
pub mod pattern;
pub mod regions;
pub mod text;
pub mod snapshot;
