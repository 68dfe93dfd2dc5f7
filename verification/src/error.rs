//! The errors that tree operations report.

use std::string::ToString;
use vstd::prelude::*;
use vstd::string::to_string_from_display_ensures;

verus! {

/// `core::fmt::Error`, the error of a formatting operation. It is carried
/// as it is: nothing of it is read.
#[verifier::external_type_specification]
#[verifier::external_body]
pub struct ExFmtError(core::fmt::Error);

/// The error type for this crate.
#[derive(Debug)]
pub enum Error {
    /// The root node is already present in the tree.
    RootNodeAlreadyPresent,
    /// An invalid operation was performed on the tree.
    InvalidOperation(String),
    /// The node was not found in the tree.
    NodeNotFound(String),
    /// An error occurred while formatting the output.
    FmtError(core::fmt::Error),
}

/// The text that [`Error::to_string`] puts in front of every message.
pub open spec fn error_prefix() -> Seq<char> {
    "Error: "@
}

/// The message of [`Error::RootNodeAlreadyPresent`].
pub open spec fn root_present_message() -> Seq<char> {
    "Error: Root node already present in the tree. You cannot add another root node."@
}

/// The message of [`Error::NodeNotFound`] for a node whose id is written `id`.
pub open spec fn node_not_found_message(id: Seq<char>) -> Seq<char> {
    "Error: Node "@ + id + " not found in the tree."@
}

/// The message of [`Error::InvalidOperation`] with the given reason.
pub open spec fn invalid_operation_message(reason: Seq<char>) -> Seq<char> {
    error_prefix() + reason
}

impl Error {
    /// Whether `text` is a message of this error. All variants but
    /// `FmtError` have exactly one message; that of `FmtError` is whatever
    /// the formatting error itself displays.
    pub open spec fn has_message(self, text: String) -> bool {
        match self {
            Error::RootNodeAlreadyPresent => text@ == root_present_message(),
            Error::InvalidOperation(reason) => text@ == invalid_operation_message(reason@),
            Error::NodeNotFound(id) => text@ == node_not_found_message(id@),
            Error::FmtError(inner) => to_string_from_display_ensures::<core::fmt::Error>(
                &inner,
                text,
            ),
        }
    }

    /// The message of the error, as it is shown to a user.
    pub fn to_string(&self) -> (text: String)
        ensures
            self.has_message(text),
    {
        match self {
            Error::RootNodeAlreadyPresent => String::from_str(
                "Error: Root node already present in the tree. You cannot add another root node.",
            ),
            Error::InvalidOperation(reason) => {
                let text = String::from_str("Error: ").concat(reason.as_str());
                text
            },
            Error::NodeNotFound(id) => {
                let text = String::from_str("Error: Node ").concat(id.as_str()).concat(
                    " not found in the tree.",
                );
                text
            },
            Error::FmtError(inner) => inner.to_string(),
        }
    }
}

impl Clone for Error {
    fn clone(&self) -> (copy: Self)
        ensures
            copy.same_as(*self),
    {
        match self {
            Error::RootNodeAlreadyPresent => Error::RootNodeAlreadyPresent,
            Error::InvalidOperation(reason) => Error::InvalidOperation(reason.clone()),
            Error::NodeNotFound(id) => Error::NodeNotFound(id.clone()),
            Error::FmtError(_) => Error::FmtError(formatting_failure()),
        }
    }
}

/// Makes a `core::fmt::Error`, which is a unit struct. Nothing is claimed
/// of the value: it has nothing in it.
#[verifier::external_body]
pub(crate) fn formatting_failure() -> core::fmt::Error {
    core::fmt::Error
}

impl Error {
    /// Two errors are the same when they are of the same variant and carry
    /// the same text. A formatting error carries nothing.
    pub open spec fn same_as(self, other: Error) -> bool {
        match (self, other) {
            (Error::RootNodeAlreadyPresent, Error::RootNodeAlreadyPresent) => true,
            (Error::InvalidOperation(a), Error::InvalidOperation(b)) => a@ == b@,
            (Error::NodeNotFound(a), Error::NodeNotFound(b)) => a@ == b@,
            (Error::FmtError(_), Error::FmtError(_)) => true,
            _ => false,
        }
    }
}

impl PartialEq for Error {
    fn eq(&self, other: &Self) -> (equal: bool)
    {
        match (self, other) {
            (Error::RootNodeAlreadyPresent, Error::RootNodeAlreadyPresent) => true,
            (Error::InvalidOperation(a), Error::InvalidOperation(b)) => *a == *b,
            (Error::NodeNotFound(a), Error::NodeNotFound(b)) => *a == *b,
            (Error::FmtError(_), Error::FmtError(_)) => true,
            _ => false,
        }
    }
}

impl vstd::std_specs::cmp::PartialEqSpecImpl for Error {
    open spec fn obeys_eq_spec() -> bool {
        true
    }

    open spec fn eq_spec(&self, other: &Self) -> bool {
        self.same_as(*other)
    }
}

impl From<core::fmt::Error> for Error {
    fn from(err: core::fmt::Error) -> (error: Self)
    {
        Error::FmtError(err)
    }
}

impl vstd::std_specs::convert::FromSpecImpl<core::fmt::Error> for Error {
    open spec fn obeys_from_spec() -> bool {
        true
    }

    open spec fn from_spec(err: core::fmt::Error) -> Self {
        Error::FmtError(err)
    }
}

} // verus!
