//! The recoverable errors of cursor operations.  Each carries the focus (by
//! its slot id) at which the lookup or write failed, and the access key that
//! failed, where one is involved.
use vstd::prelude::*;

use crate::access_key::AccessKey;
use crate::focus::Focus;
use crate::path::AccessPathError;

verus! {

#[derive(Debug)]
pub enum Error {
    /// Lookup of an absent map key or list index.
    NoSuchItem { focus: usize, access_key: AccessKey },
    /// A composite navigation failed between two focuses.
    FailedToNavigate { from: usize, to: usize },
    /// The access key's kind does not match the node variant at the focus.
    WrongItemAccess { focus: usize, access_key: AccessKey },
    /// A collection operation was applied to a scalar node.
    CollectionRequired { focus: usize },
    /// A path string could not be resolved.
    AccessPathError(AccessPathError),
}

impl Error {
    pub fn no_such_item<T>(parent_focus: &Focus, access_key: &AccessKey) -> (r: Result<T, Error>)
        ensures
            r matches Result::Err(e) && (e matches Error::NoSuchItem { focus, access_key: k }
                && focus == parent_focus.id && k@ == access_key@),
    {
        Result::Err(
            Error::NoSuchItem { focus: parent_focus.id, access_key: access_key.duplicate() },
        )
    }

    pub fn mismatched_access_key<T>(parent_focus: &Focus, access_key: &AccessKey) -> (r: Result<
        T,
        Error,
    >)
        ensures
            r matches Result::Err(e) && (e matches Error::WrongItemAccess { focus, access_key: k }
                && focus == parent_focus.id && k@ == access_key@),
    {
        Result::Err(
            Error::WrongItemAccess { focus: parent_focus.id, access_key: access_key.duplicate() },
        )
    }

    pub fn should_be_collection<T>(parent_focus: &Focus) -> (r: Result<T, Error>)
        ensures
            r matches Result::Err(e) && (e matches Error::CollectionRequired { focus } && focus
                == parent_focus.id),
    {
        Result::Err(Error::CollectionRequired { focus: parent_focus.id })
    }
}

} // verus!
