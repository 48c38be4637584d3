//! Repotracer: watch a code base change over time.
//!
//! The verified core of the tool: line-level blame bookkeeping used by the
//! "theseus" analysis, the per-file measurements and their aggregation,
//! configuration lookups, clone-URL parsing, tool detection and commit
//! selection by time granularity.

pub mod collectors;
pub mod config;
pub mod dates;
pub mod file_blame;
pub mod glob_pattern;
pub mod granularity;
pub mod guess_tools;
pub mod jq_stats;
pub mod measurement;
pub mod paths;
pub mod repo_cache;
pub mod repo_sets;
pub mod repo_url;
pub mod snapshot;
pub mod stat;
pub mod sync;
pub mod text;
pub mod tokei_stats;
pub mod tree_walk;
