//! What a run is asked to do.

use vstd::prelude::*;
use crate::collect::{Archived, Filter, Forks, Visibility};

verus! {

/// The arguments of a run.
#[derive(Debug)]
pub struct Args {
    /// Enterprise slugs, as they were given.
    pub enterprise: Vec<String>,
    /// Where the only report goes, if not into a file named after its enterprise.
    pub output: Option<Output>,
    pub visibility: Visibility,
    pub archived: Archived,
    pub forks: Forks,
    /// Whether to ask for topics.
    pub topics: bool,
    /// The GraphQL endpoint, if it is given in full.
    pub api_url: Option<String>,
    /// The host of a GitHub Enterprise Server.
    pub hostname: Option<String>,
    /// How many organizations are queried at once.
    pub concurrency: u16,
    /// How often a request is tried again.
    pub max_retries: u32,
    /// How many items are requested at once.
    pub batch_size: u32,
}

/// Where a single report goes.
#[derive(Debug, Clone, Copy, PartialEq, Eq, Structural)]
pub enum Output {
    Stdout,
    File,
}

impl Args {
    /// The filter that the arguments select.
    pub open spec fn selection(self) -> Filter {
        Filter { visibility: self.visibility, archived: self.archived, forks: self.forks }
    }

    /// The filter that the arguments select.
    pub fn filter(&self) -> (res: Filter)
        ensures
            res == self.selection(),
    {
        Filter { visibility: self.visibility, archived: self.archived, forks: self.forks }
    }
}

} // verus!
