//! The capability a tree uses to reach the storage that backs its entries.

use crate::FileEntryType;
use vstd::prelude::*;

verus! {

/// A pluggable storage strategy, consulted with a `(root path, local path)`
/// pair. A tree never inspects the storage itself; everything it knows about
/// bytes, sizes and physical existence comes through this trait.
///
/// Each query has a specification twin (`..._spec`) that fixes, for one
/// loader value, what the query answers; an implementation proves that its
/// executable methods agree with its own specification functions. The
/// `..._spec` functions returning `Option` use `None` for "the loader fails
/// on this pair" (for `type_spec`, `data_spec`, `actual_path_spec`) or for
/// "no size is known" (`size_spec`).
pub trait FileLoader {
    /// The error type loader failures are reported with.
    type ErrorType;

    /// Whether storage currently holds the pair.
    open spec fn exists_spec(&self, root: Seq<char>, local: Seq<char>) -> bool {
        vstd::pervasive::arbitrary()
    }

    /// The size reported for the pair, if any.
    open spec fn size_spec(&self, root: Seq<char>, local: Seq<char>) -> Option<usize> {
        vstd::pervasive::arbitrary()
    }

    /// How the pair is classified, or `None` when classification fails.
    open spec fn type_spec(&self, root: Seq<char>, local: Seq<char>) -> Option<FileEntryType> {
        vstd::pervasive::arbitrary()
    }

    /// The bytes behind the pair, or `None` when loading fails.
    open spec fn data_spec(&self, root: Seq<char>, local: Seq<char>) -> Option<Seq<u8>> {
        vstd::pervasive::arbitrary()
    }

    /// The concrete addressable path of the pair, if one exists.
    open spec fn actual_path_spec(&self, root: Seq<char>, local: Seq<char>) -> Option<Seq<char>> {
        vstd::pervasive::arbitrary()
    }

    /// Existence check for the pair.
    fn path_exists(&self, root_path: &str, local_path: &str) -> (r: bool)
        ensures
            r == self.exists_spec(root_path@, local_path@),
    ;

    /// Size query for the pair.
    fn get_file_size(&self, root_path: &str, local_path: &str) -> (r: Option<usize>)
        ensures
            r == self.size_spec(root_path@, local_path@),
    ;

    /// Classification of the pair as a file or a directory.
    fn get_path_type(&self, root_path: &str, local_path: &str) -> (r: Result<
        FileEntryType,
        Self::ErrorType,
    >)
        ensures
            match r {
                Ok(t) => self.type_spec(root_path@, local_path@) == Some(t),
                Err(_) => self.type_spec(root_path@, local_path@) is None,
            },
    ;

    /// Loads the bytes behind the pair.
    fn load_path(&self, root_path: &str, local_path: &str) -> (r: Result<Vec<u8>, Self::ErrorType>)
        ensures
            match r {
                Ok(d) => self.data_spec(root_path@, local_path@) == Some(d@),
                Err(_) => self.data_spec(root_path@, local_path@) is None,
            },
    ;

    /// The concrete addressable path for the pair.
    fn get_actual_path(&self, root_path: &str, local_path: &str) -> (r: Option<String>)
        ensures
            match r {
                Some(p) => self.actual_path_spec(root_path@, local_path@) == Some(p@),
                None => self.actual_path_spec(root_path@, local_path@) is None,
            },
    ;
}

} // verus!
