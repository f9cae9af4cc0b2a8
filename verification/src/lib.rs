use vstd::prelude::*;

pub mod laws;
pub mod loader;
pub mod orbit;
pub mod paths;
pub mod tree;

verus! {

/// Whether an entry of a file tree stands for a file or for a directory.
#[derive(Copy, Clone, Debug, PartialEq, Eq, Structural)]
pub enum FileEntryType {
    Directory,
    File,
}

impl FileEntryType {
    /// True exactly for directory entries.
    pub fn is_dir(&self) -> (r: bool)
        ensures
            r == (*self is Directory),
    {
        match self {
            FileEntryType::Directory => true,
            FileEntryType::File => false,
        }
    }

    /// True exactly for file entries.
    pub fn is_file(&self) -> (r: bool)
        ensures
            r == (*self is File),
    {
        !self.is_dir()
    }
}

/// How an ingestion reacts when an incoming file collides with a local path
/// that is already registered in the tree.
///
/// - `Strict`: the collision is a fatal contract violation; ingestion stops
///   with an error naming the incoming full path and the occupant's full
///   path.
/// - `NoRoot`: every entry bound to the root that first claimed the contested
///   path is evicted from the tree, and ingestion of the current root stops
///   with a single root-level conflict.
/// - `First`: the existing occupant is kept, the incoming file is dropped,
///   and a standard conflict naming both full paths is reported.
/// - `Last`: the incoming file replaces the occupant and nothing is reported.
#[derive(Copy, Clone, Debug, PartialEq, Eq, Structural)]
pub enum ConflictHandler {
    Strict,
    NoRoot,
    First,
    Last,
}

} // verus!
