//! A single path of a file tree and its metadata.

use crate::paths::{base_name, base_name_of, check_path, join_path, join_paths, valid_path};
use crate::tree::TreeError;
use vstd::prelude::*;

verus! {

/// The view of a [`Node`]: its key (the final path component), its local
/// path, and the root path backing it.
pub ghost struct NodeView {
    pub name: Seq<char>,
    pub local: Seq<char>,
    pub root: Seq<char>,
}

/// One path of a file tree. `name` is the node's key: the final component of
/// `local_path`. `root_path` names the physical location that supplies the
/// entry's bytes; it is the empty sentinel for directories and for entries
/// with no physical backing. A node does not know whether it stands for a
/// file or for a directory; the tree records that beside it.
pub struct Node {
    pub name: String,
    pub local_path: String,
    pub root_path: String,
}

impl View for Node {
    type V = NodeView;

    open spec fn view(&self) -> NodeView {
        NodeView { name: self.name@, local: self.local_path@, root: self.root_path@ }
    }
}

impl Clone for Node {
    fn clone(&self) -> (r: Self)
        ensures
            r == *self,
    {
        Node {
            name: self.name.clone(),
            local_path: self.local_path.clone(),
            root_path: self.root_path.clone(),
        }
    }
}

impl Node {
    /// Builds a node for a local path, deriving its key from the final path
    /// component. A string that is not a normalized local path carries no
    /// usable file name and is rejected.
    pub fn new(root_path: &str, local_path: &str) -> (r: Result<Node, TreeError>)
        ensures
            match r {
                Ok(n) => valid_path(local_path@) && n@ == (NodeView {
                    name: base_name(local_path@),
                    local: local_path@,
                    root: root_path@,
                }),
                Err(e) => !valid_path(local_path@) && (e matches TreeError::NoFileName(p)
                    && p@ == local_path@),
            },
    {
        if check_path(local_path) {
            Ok(Node {
                name: base_name_of(local_path),
                local_path: local_path.to_owned(),
                root_path: root_path.to_owned(),
            })
        } else {
            Err(TreeError::NoFileName(local_path.to_owned()))
        }
    }

    /// Changes the root this node is backed by; its place in a tree (its
    /// local path and key) is unaffected.
    pub fn change_root(&mut self, new_root: &str) -> (r: Result<(), TreeError>)
        ensures
            r is Ok,
            final(self)@ == (NodeView { root: new_root@, ..old(self)@ }),
    {
        self.root_path = new_root.to_owned();
        Ok(())
    }

    /// The full path of the node: its root joined with its local path.
    pub fn full_path(&self) -> (r: String)
        ensures
            r@ == join_path(self@.root, self@.local),
    {
        join_paths(self.root_path.as_str(), self.local_path.as_str())
    }
}

} // verus!
