//! Plain configuration and error-surface types shared with the server shell
//! around the core.

use vstd::prelude::*;

verus! {

/// An error message as the API layer reports it.
#[derive(Debug)]
pub struct ApiError {
    pub msg: String,
}

/// The server's configuration: the workspace directory it serves.
#[derive(Debug)]
pub struct QuakeServerConfig {
    pub workspace: String,
}

impl Default for QuakeServerConfig {
    /// An empty workspace path.
    fn default() -> (r: QuakeServerConfig)
        ensures
            r.workspace@ == Seq::<char>::empty(),
    {
        QuakeServerConfig { workspace: String::new() }
    }
}

} // verus!
