//! Settings and handle of the static file collaborator.
//!
//! The proxy engine only looks at the `enabled` flag and hands the directory
//! over; serving the files is the collaborator's own business.

use vstd::prelude::*;

verus! {

/// Settings of the static file collaborator.
#[derive(Debug)]
pub struct Config {
    /// Whether the collaborator is started at all.
    pub enabled: bool,
    /// Directory the files are served from.
    pub path: String,
}

/// Handle on the directory that the collaborator serves.
pub struct StaticFileServer {
    files: String,
}

impl StaticFileServer {
    /// The directory this handle was made for.
    pub closed spec fn root(&self) -> Seq<char> {
        self.files@
    }

    /// A handle that serves from `files`.
    pub fn new(files: String) -> (server: Self)
        ensures
            server.root() == files@,
    {
        StaticFileServer { files }
    }

    /// The directory to serve from.
    pub fn files(&self) -> (dir: &str)
        ensures
            dir@ == self.root(),
    {
        self.files.as_str()
    }
}

} // verus!
