//! The command-line surface the server exposes.
//!
//! The commands carry no options of their own: the run command is
//! driven by the shared `--config`, `--port` and `--filter-search-domain`
//! options, and the version command prints build information.  Their
//! execution forks, serves and prints, and so lives outside the
//! library.

use vstd::prelude::*;

verus! {

/// Runs the DNS server with the provided configuration.
pub struct Run {}

impl Run {
    /// The run command runs the server with the given configuration.
    pub fn new() -> (r: Self)
        ensures
            r == (Run {  }),
    {
        Self {  }
    }
}

impl Default for Run {
    fn default() -> (r: Self)
        ensures
            r == (Run {  }),
    {
        Self::new()
    }
}

/// Displays build information.
pub struct Version {}

impl Version {
    pub fn new() -> (r: Self)
        ensures
            r == (Version {  }),
    {
        Self {  }
    }
}

} // verus!
