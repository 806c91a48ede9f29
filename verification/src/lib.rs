//! Publishes a filtered copy of a history: the commits of a branch are rebuilt
//! so that only the paths that a policy lets through remain, and whatever the
//! policy leaves untouched keeps its digest.

pub mod config;
pub mod git_utils;
