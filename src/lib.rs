//! Dependency analysis of an epic's issues: references found in free text, a cache of
//! fetched issues, the graph of blockers, consistency checks and a rendering of the
//! graph; also the naming and grouping helpers of the other commands.

pub mod branch;
pub mod cleanup;
pub mod config;
pub mod epic;
pub mod extractor;
pub mod github;
pub mod jira;
pub mod refs;
pub mod render;
pub mod text;
