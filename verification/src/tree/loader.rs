//! Loaders bundled with the library.
//!
//! Adapters for concrete storage (a directory on disk, an archive) live with
//! the embedding application; the loaders here are self-contained.

use crate::loader::FileLoader;
use crate::paths::{
    base_name, base_name_of, check_path, join_path, join_paths, valid_path,
};
use crate::tree::TreeError;
use crate::FileEntryType;
use vstd::prelude::*;
use vstd::string::*;

verus! {

/// Whether the final component of a path carries an extension dot.
pub open spec fn name_has_dot(p: Seq<char>) -> bool {
    exists|i: int| 0 <= i < base_name(p).len() && (#[trigger] base_name(p)[i]) == '.'
}

/// The default loader for trees whose entries are registered explicitly
/// rather than read from a physical store. It classifies a path by its name
/// alone — a final component with an extension dot is a file, any other is a
/// directory — and reports nothing as physically present: existence checks
/// fail, sizes are unknown, and loading bytes is an error.
pub struct StandardLoader;

impl FileLoader for StandardLoader {
    type ErrorType = TreeError;

    open spec fn exists_spec(&self, root: Seq<char>, local: Seq<char>) -> bool {
        false
    }

    open spec fn size_spec(&self, root: Seq<char>, local: Seq<char>) -> Option<usize> {
        None
    }

    open spec fn type_spec(&self, root: Seq<char>, local: Seq<char>) -> Option<FileEntryType> {
        if valid_path(local) {
            Some(
                if name_has_dot(local) {
                    FileEntryType::File
                } else {
                    FileEntryType::Directory
                },
            )
        } else {
            None
        }
    }

    open spec fn data_spec(&self, root: Seq<char>, local: Seq<char>) -> Option<Seq<u8>> {
        None
    }

    open spec fn actual_path_spec(&self, root: Seq<char>, local: Seq<char>) -> Option<Seq<char>> {
        Some(join_path(root, local))
    }

    fn path_exists(&self, root_path: &str, local_path: &str) -> (r: bool) {
        false
    }

    fn get_file_size(&self, root_path: &str, local_path: &str) -> (r: Option<usize>) {
        None
    }

    fn get_path_type(&self, root_path: &str, local_path: &str) -> (r: Result<
        FileEntryType,
        TreeError,
    >) {
        if !check_path(local_path) {
            return Err(TreeError::NoFileName(local_path.to_owned()));
        }
        let name = base_name_of(local_path);
        let n = name.as_str().unicode_len();
        let mut i: usize = 0;
        while i < n
            invariant
                i <= n,
                n == name@.len(),
                valid_path(local_path@),
                name@ == base_name(local_path@),
                forall|j: int| 0 <= j < i ==> (#[trigger] name@[j]) != '.',
            decreases n - i,
        {
            if name.as_str().get_char(i) == '.' {
                proof {
                    assert(0 <= i < base_name(local_path@).len() && base_name(local_path@)[i as int]
                        == '.');
                    assert(name_has_dot(local_path@));
                }
                return Ok(FileEntryType::File);
            }
            i += 1;
        }
        Ok(FileEntryType::Directory)
    }

    fn load_path(&self, root_path: &str, local_path: &str) -> (r: Result<Vec<u8>, TreeError>) {
        Err(TreeError::PathDoesNotExist(local_path.to_owned()))
    }

    fn get_actual_path(&self, root_path: &str, local_path: &str) -> (r: Option<String>) {
        Some(join_paths(root_path, local_path))
    }
}

/// The view of one synthetic file: its pair and its bytes.
pub ghost struct MemoryFileView {
    pub root: Seq<char>,
    pub local: Seq<char>,
    pub data: Seq<u8>,
}

/// One synthetic file of a [`MemoryLoader`].
pub struct MemoryFile {
    pub root_path: String,
    pub local_path: String,
    pub data: Vec<u8>,
}

impl View for MemoryFile {
    type V = MemoryFileView;

    open spec fn view(&self) -> MemoryFileView {
        MemoryFileView { root: self.root_path@, local: self.local_path@, data: self.data@ }
    }
}

/// The bytes recorded for a pair: the first matching file wins.
pub open spec fn mem_lookup(s: Seq<MemoryFileView>, root: Seq<char>, local: Seq<char>) -> Option<
    Seq<u8>,
>
    decreases s.len(),
{
    if s.len() == 0 {
        None
    } else if s[0].root == root && s[0].local == local {
        Some(s[0].data)
    } else {
        mem_lookup(s.drop_first(), root, local)
    }
}

/// A loader over purely synthetic data: a table of `(root, local)` pairs
/// with their bytes, held in memory. Every recorded pair exists and is a
/// file; everything else is absent. Useful for the virtual layer and
/// anywhere no physical store stands behind a tree.
pub struct MemoryLoader {
    files: Vec<MemoryFile>,
}

impl View for MemoryLoader {
    type V = Seq<MemoryFileView>;

    closed spec fn view(&self) -> Seq<MemoryFileView> {
        Seq::new(self.files@.len(), |i: int| self.files@[i]@)
    }
}

/// Scanning forward, the part of the table not yet visited decides the
/// lookup once no earlier file matched.
proof fn lemma_mem_lookup_skip(s: Seq<MemoryFileView>, root: Seq<char>, local: Seq<char>, i: int)
    requires
        0 <= i < s.len(),
        !(s[i].root == root && s[i].local == local),
    ensures
        mem_lookup(s.skip(i), root, local) == mem_lookup(s.skip(i + 1), root, local),
{
    assert(s.skip(i)[0] == s[i]);
    assert(s.skip(i).drop_first() =~= s.skip(i + 1));
}

impl MemoryLoader {
    /// An empty table.
    pub fn new() -> (r: MemoryLoader)
        ensures
            r@ == Seq::<MemoryFileView>::empty(),
    {
        let r = MemoryLoader { files: Vec::new() };
        proof {
            assert(r@ =~= Seq::<MemoryFileView>::empty());
        }
        r
    }

    /// Records bytes for a pair. An earlier record for the same pair keeps
    /// priority: the first match wins.
    pub fn add_file(&mut self, root_path: &str, local_path: &str, data: Vec<u8>)
        ensures
            final(self)@ == old(self)@.push(
                MemoryFileView { root: root_path@, local: local_path@, data: data@ },
            ),
    {
        let ghost v0 = self@;
        let ghost dv = data@;
        self.files.push(
            MemoryFile {
                root_path: root_path.to_owned(),
                local_path: local_path.to_owned(),
                data,
            },
        );
        proof {
            assert(self@ =~= v0.push(
                MemoryFileView { root: root_path@, local: local_path@, data: dv },
            ));
        }
    }

    /// Index of the first file recorded for a pair, if any.
    fn find(&self, root_path: &str, local_path: &str) -> (r: Option<usize>)
        ensures
            match r {
                Some(i) => i < self@.len() && self@[i as int].root == root_path@
                    && self@[i as int].local == local_path@ && mem_lookup(
                    self@,
                    root_path@,
                    local_path@,
                ) == Some(self@[i as int].data),
                None => mem_lookup(self@, root_path@, local_path@) is None,
            },
    {
        let rp = root_path.to_owned();
        let lp = local_path.to_owned();
        let n = self.files.len();
        let mut i: usize = 0;
        proof {
            assert(self@.skip(0) =~= self@);
        }
        while i < n
            invariant
                i <= n,
                n == self.files.len(),
                self@.len() == n,
                rp@ == root_path@,
                lp@ == local_path@,
                mem_lookup(self@, root_path@, local_path@) == mem_lookup(
                    self@.skip(i as int),
                    root_path@,
                    local_path@,
                ),
            decreases n - i,
        {
            if self.files[i].root_path == rp && self.files[i].local_path == lp {
                proof {
                    assert(self@.skip(i as int)[0] == self@[i as int]);
                }
                return Some(i);
            }
            proof {
                lemma_mem_lookup_skip(self@, root_path@, local_path@, i as int);
            }
            i += 1;
        }
        proof {
            assert(self@.skip(n as int) =~= Seq::<MemoryFileView>::empty());
        }
        None
    }
}

impl FileLoader for MemoryLoader {
    type ErrorType = TreeError;

    open spec fn exists_spec(&self, root: Seq<char>, local: Seq<char>) -> bool {
        mem_lookup(self@, root, local) is Some
    }

    open spec fn size_spec(&self, root: Seq<char>, local: Seq<char>) -> Option<usize> {
        match mem_lookup(self@, root, local) {
            Some(d) => Some(d.len() as usize),
            None => None,
        }
    }

    open spec fn type_spec(&self, root: Seq<char>, local: Seq<char>) -> Option<FileEntryType> {
        if mem_lookup(self@, root, local) is Some {
            Some(FileEntryType::File)
        } else {
            None
        }
    }

    open spec fn data_spec(&self, root: Seq<char>, local: Seq<char>) -> Option<Seq<u8>> {
        mem_lookup(self@, root, local)
    }

    open spec fn actual_path_spec(&self, root: Seq<char>, local: Seq<char>) -> Option<Seq<char>> {
        Some(join_path(root, local))
    }

    fn path_exists(&self, root_path: &str, local_path: &str) -> (r: bool) {
        match self.find(root_path, local_path) {
            Some(_) => true,
            None => false,
        }
    }

    fn get_file_size(&self, root_path: &str, local_path: &str) -> (r: Option<usize>) {
        match self.find(root_path, local_path) {
            Some(i) => Some(self.files[i].data.len()),
            None => None,
        }
    }

    fn get_path_type(&self, root_path: &str, local_path: &str) -> (r: Result<
        FileEntryType,
        TreeError,
    >) {
        match self.find(root_path, local_path) {
            Some(_) => Ok(FileEntryType::File),
            None => Err(TreeError::PathDoesNotExist(local_path.to_owned())),
        }
    }

    fn load_path(&self, root_path: &str, local_path: &str) -> (r: Result<Vec<u8>, TreeError>) {
        match self.find(root_path, local_path) {
            Some(i) => Ok(vstd::slice::slice_to_vec(self.files[i].data.as_slice())),
            None => Err(TreeError::PathDoesNotExist(local_path.to_owned())),
        }
    }

    fn get_actual_path(&self, root_path: &str, local_path: &str) -> (r: Option<String>) {
        Some(join_paths(root_path, local_path))
    }
}

} // verus!
