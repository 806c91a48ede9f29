//! Digests, trees and commits as plain values.

use vstd::prelude::*;

verus! {

/// The digest that addresses a node of the object store: twenty raw bytes.
#[derive(Clone, Copy, Debug, PartialEq, Eq, PartialOrd, Ord, Hash)]
pub struct ObjectId {
    pub bytes: [u8; 20],
}

/// The mode that marks an entry as a tree.
pub const TREE_MODE: i32 = 0o040000;

/// One entry of a tree: a name, a mode and the digest of a blob or of a tree.
#[derive(Clone, Debug, PartialEq, Eq)]
pub struct TreeEntry {
    /// The path segment; `None` where the stored name is not valid text.
    pub name: Option<String>,
    /// The marker for a regular file, an executable, a directory or a link.
    pub mode: i32,
    /// The digest of the child.
    pub id: ObjectId,
}

/// A tree as read from the object store.
#[derive(Clone, Debug, PartialEq, Eq)]
pub struct TreeNode {
    pub id: ObjectId,
    pub entries: Vec<TreeEntry>,
}

/// What the rebuilder reads of a commit: its own digest, that of its tree,
/// those of its parents, in order, and its message. Author and committer stay
/// in the store.
#[derive(Clone, Debug, PartialEq, Eq)]
pub struct CommitNode {
    pub id: ObjectId,
    pub tree: ObjectId,
    pub parents: Vec<ObjectId>,
    /// The message as it is stored; `None` where it is not valid text.
    pub message: Option<String>,
}

impl ObjectId {
    /// A number drawn from the first eight bytes, by which digests are filed.
    pub open spec fn slot_of(self) -> u64 {
        (self.bytes[0] as u64) | (self.bytes[1] as u64) << 8 | (self.bytes[2] as u64) << 16 | (
        self.bytes[3] as u64) << 24 | (self.bytes[4] as u64) << 32 | (self.bytes[5] as u64) << 40
            | (self.bytes[6] as u64) << 48 | (self.bytes[7] as u64) << 56
    }

    /// The digest made of `bytes`.
    pub fn from_bytes(bytes: [u8; 20]) -> (id: ObjectId)
        ensures
            id.bytes == bytes,
    {
        ObjectId { bytes }
    }

    /// Whether both digests are the same.
    pub fn same(&self, other: &ObjectId) -> (r: bool)
        ensures
            r == (*self == *other),
    {
        let mut i: usize = 0;
        while i < 20
            invariant
                i <= 20,
                forall|j: int| 0 <= j < i ==> self.bytes[j] == other.bytes[j],
            decreases 20 - i,
        {
            if self.bytes[i] != other.bytes[i] {
                return false;
            }
            i += 1;
        }
        assert(self.bytes =~= other.bytes);
        true
    }

    /// The number by which this digest is filed.
    pub fn slot(&self) -> (s: u64)
        ensures
            s == self.slot_of(),
    {
        (self.bytes[0] as u64) | (self.bytes[1] as u64) << 8 | (self.bytes[2] as u64) << 16 | (
        self.bytes[3] as u64) << 24 | (self.bytes[4] as u64) << 32 | (self.bytes[5] as u64) << 40
            | (self.bytes[6] as u64) << 48 | (self.bytes[7] as u64) << 56
    }
}

} // verus!
