//! The state of the desktop front-end: the files queued for conversion.

use vstd::prelude::*;

verus! {

/// Where a queued file stands.
#[derive(Debug, Clone, Copy, PartialEq, Eq, Structural)]
pub enum Status {
    /// Waiting to be converted.
    Pending,
}

/// One file in the queue.
#[derive(Debug, Clone)]
pub struct FileEntry {
    pub input: std::path::PathBuf,
    pub status: Status,
}

/// The front-end's state.
#[derive(Debug)]
pub struct App {
    pub files: Vec<FileEntry>,
}

impl Default for App {
    /// An empty queue.
    fn default() -> (r: Self)
        ensures
            r.files@.len() == 0,
    {
        App { files: Vec::new() }
    }
}

} // verus!
