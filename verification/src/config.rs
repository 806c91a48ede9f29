//! What is published where.

use vstd::prelude::*;
use crate::git_utils::path::RepoPath;

verus! {

/// Where the configuration lies, from the top of the working tree.
pub const DEFAULT_CONFIG_PATH: &'static str = ".git-publish/config.yml";

/// What is published, and where to.
#[derive(Clone, Debug, PartialEq, Eq)]
pub struct Config {
    pub remotes: Vec<RemoteConfig>,
}

/// One destination, with the paths that it is to receive.
#[derive(Clone, Debug, PartialEq, Eq)]
pub struct RemoteConfig {
    /// The address that the rebuilt history is pushed to.
    pub url: String,
    /// The paths to publish; with none listed, everything is published.
    pub included: Vec<RepoPath>,
    /// The paths to hold back.
    pub excluded: Vec<RepoPath>,
}

} // verus!
