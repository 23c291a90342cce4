use vstd::prelude::*;

verus! {

/// A stored object that a tree entry can point at: one file's contents, or
/// a nested directory.
#[derive(Debug, PartialEq, Eq)]
pub enum Object {
    Blob(crate::blob::Blob),
    Tree(crate::tree::Tree),
}

/// The content hash an object is stored under.
pub open spec fn spec_object_hash(o: Object) -> Seq<u8> {
    match o {
        Object::Blob(b) => b@,
        Object::Tree(t) => t.hash_view(),
    }
}

impl Object {
    /// The content hash of this object.
    pub fn hash(&self) -> (h: &crate::hash::Hash)
        ensures
            h@ == spec_object_hash(*self),
    {
        match self {
            Object::Blob(blob) => blob.hash(),
            Object::Tree(tree) => tree.hash(),
        }
    }
}

} // verus!
