//! What a run is asked to do.

use vstd::prelude::*;

verus! {

/// The options of a run.
#[derive(Debug, Clone)]
pub struct Cli {
    /// Directory to scan for duplicates.
    pub path: String,
    /// Number of parallel threads for hashing. More than one pays off where
    /// the files are on solid-state storage; otherwise a single thread is
    /// typically faster.
    pub threads: Option<usize>,
    /// Skip the hash cache and compute all hashes fresh.
    pub no_cache: bool,
}

impl Cli {
    /// The number of threads to hash with: the one asked for, or one.
    pub open spec fn workers(self) -> usize {
        match self.threads {
            Some(count) => count,
            None => 1,
        }
    }

    /// Computes `workers`.
    pub fn worker_count(&self) -> (count: usize)
        ensures
            count == self.workers(),
    {
        match self.threads {
            Some(count) => count,
            None => 1,
        }
    }
}

impl Default for Cli {
    /// The current directory, one thread, with the cache.
    fn default() -> (cli: Self)
        ensures
            cli.path@ == "."@,
            cli.threads == Some(1usize),
            !cli.no_cache,
    {
        Cli { path: ".".to_owned(), threads: Some(1), no_cache: false }
    }
}

} // verus!
