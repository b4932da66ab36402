//! Three-way merging and the reports a sync produces.

pub mod engine;
pub mod fold;
pub mod merge;
pub mod report;
