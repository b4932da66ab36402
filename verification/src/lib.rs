//! Settings sync for JetBrains IDEs: canonical XML, a flat projection of
//! settings, three-way merging, pruning, plugin compatibility and reports.

pub mod backend;
pub mod config;
pub mod error;
pub mod glob;
pub mod ide;
pub mod paths;
pub mod plugins;
pub mod progress;
pub mod settings;
pub mod strmap;
pub mod strset;
pub mod style;
pub mod sync;
pub mod text;
pub mod xml;
