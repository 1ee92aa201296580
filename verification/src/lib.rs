//! Verified core of a tool that exports the repositories of a GitHub enterprise as YAML.

pub mod args;
pub mod collect;
pub mod document;
pub mod laws;
pub mod model;
pub mod paging;
pub mod report;
pub mod retry;
pub mod run;
pub mod sort;
pub mod text;
pub mod yaml;
