//! Server configuration: the data directory and the listening port. The
//! values come from configuration collaborators outside this crate; the
//! defaults live here.

use vstd::prelude::*;

verus! {

/// What the server needs to start: where the segment lives and which port
/// to listen on.
#[derive(Debug)]
pub struct Config {
    pub data_dir: String,
    pub port: usize,
}

impl Default for Config {
    /// The stock configuration: data beside the process, the default port.
    fn default() -> (r: Config)
        ensures
            r.data_dir@ == "./data"@,
            r.port == 2288,
    {
        Config { data_dir: "./data".to_owned(), port: 2288 }
    }
}

} // verus!
