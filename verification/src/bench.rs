//! The benchmark programs: their settings, their work and their reports.
pub mod compare;
pub mod report;
pub mod workload;
