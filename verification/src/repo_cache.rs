//! The flattened form of a repository's trees: objects, file names and
//! paths are numbered, and trees list their children by number.
use vstd::prelude::*;

verus! {

/// The number of an object in the object set.
pub type OidIdx = u32;

/// The number of a file or directory name in the name set.
pub type FilenameIdx = u32;

/// The number of a path in the path set.
pub type FilepathIdx = u32;

/// The number of a tree entry in the entry set.
pub type EntryIdx = u32;

/// Whether a tree entry is a file or a directory.
#[derive(Debug, Clone, Copy, PartialEq, Eq, Hash, Structural)]
pub enum TreeChildKind {
    Blob,
    Tree,
}

/// A tree entry: an object under a name.
#[derive(Debug, Clone, Copy, PartialEq, Eq, Hash, Structural)]
pub struct MyEntry {
    pub oid_idx: OidIdx,
    pub filename_idx: FilenameIdx,
    pub kind: TreeChildKind,
}

/// A tree entry under a full path.
#[derive(Debug, Clone, Copy, PartialEq, Eq, Hash, Structural)]
pub struct AliasedEntry {
    pub oid_idx: OidIdx,
    pub filepath_idx: FilepathIdx,
    pub kind: TreeChildKind,
}

/// A tree and its entries.
#[derive(Debug, Clone)]
pub struct TreeEntry {
    pub oid_idx: OidIdx,
    pub children: Vec<EntryIdx>,
}

/// Where a file sits: the tree that holds it and its name.
#[derive(Debug, Clone, Copy, PartialEq, Eq, Structural)]
pub struct BlobParent {
    pub tree_id: usize,
    pub filename_idx: usize,
}

/// An object of the flattened repository: a file, or a tree with its
/// entries.
#[derive(Debug, Clone)]
pub enum TreeChild {
    Blob,
    Tree(TreeEntry),
}

impl TreeChild {
    /// The tree, of an object that is one.
    pub fn unwrap_tree(&self) -> (r: &TreeEntry)
        requires
            *self is Tree,
        ensures
            *self == TreeChild::Tree(*r),
    {
        match self {
            TreeChild::Tree(t) => t,
            TreeChild::Blob => vstd::pervasive::unreached(),
        }
    }
}

} // verus!
