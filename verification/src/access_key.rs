//! Access keys: how a child position in the tree is addressed from its
//! parent.  A map member is addressed by name, a list element by a circular
//! zero-based index (negative values count from the end, -1 is the last).
use vstd::prelude::*;

verus! {

/// Circular zero-based list index: 0 is the first element, -1 the last.
pub type CircularZeroIndex = isize;

/// The key under which a node is reached from its parent.  `None` marks the
/// root, which is reached from no parent at all.
#[derive(Debug, PartialEq, Eq)]
pub enum AccessKey {
    Root,
    Key(String),
    Index(CircularZeroIndex),
}

/// Mathematical counterpart of `AccessKey`, over character sequences and
/// unbounded integers.
pub enum KeyModel {
    AtRoot,
    Name(Seq<char>),
    Idx(int),
}

impl View for AccessKey {
    type V = KeyModel;

    open spec fn view(&self) -> KeyModel {
        match self {
            AccessKey::Root => KeyModel::AtRoot,
            AccessKey::Key(s) => KeyModel::Name(s@),
            AccessKey::Index(i) => KeyModel::Idx(*i as int),
        }
    }
}

impl AccessKey {
    /// Structure-preserving copy; `clone` on a `String` field keeps its view.
    pub fn duplicate(&self) -> (r: AccessKey)
        ensures
            r == *self,
            r@ == self@,
    {
        match self {
            AccessKey::Root => AccessKey::Root,
            AccessKey::Key(s) => AccessKey::Key(s.clone()),
            AccessKey::Index(i) => AccessKey::Index(*i),
        }
    }

    /// Equality of access keys, decided by their models.
    pub fn key_eq(&self, other: &AccessKey) -> (r: bool)
        ensures
            r == (self@ == other@),
    {
        match (self, other) {
            (AccessKey::Root, AccessKey::Root) => true,
            (AccessKey::Key(a), AccessKey::Key(b)) => *a == *b,
            (AccessKey::Index(a), AccessKey::Index(b)) => *a == *b,
            _ => {
                proof {
                    assert(self@ != other@);
                }
                false
            },
        }
    }
}

} // verus!
