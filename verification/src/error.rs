//! What can go wrong.
use crate::text::concat3;
use vstd::prelude::*;

verus! {

/// The kinds of failure.
#[derive(Debug, Clone, Copy, PartialEq, Eq, Structural)]
pub enum ErrorKind {
    /// Bytes that are no text.
    NotText,
    /// Packed bytes that cannot be unpacked.
    BadArchive,
    /// A date that is none.
    BadDate,
    /// A price unit that is none.
    BadPriceScale,
    /// A line that is no JSON.
    BadJson,
    /// A row that lacks a field, or holds one that cannot be used.
    BadRow,
    /// A table without a header that can be read.
    BadTable,
    /// A table without a column that is needed.
    MissingColumn,
    /// An adapter that is not registered.
    UnknownAdapter,
    /// A key of a profile that is none.
    BadProfile,
    /// An argument that is missing or cannot be used.
    BadArgument,
    /// A file that is not there.
    NotFound,
}

/// A failure and what to tell the user of it.
#[derive(Debug, Clone, PartialEq, Eq)]
pub struct Error {
    pub kind: ErrorKind,
    pub message: String,
}

impl View for Error {
    type V = (ErrorKind, Seq<char>);

    open spec fn view(&self) -> (ErrorKind, Seq<char>) {
        (self.kind, self.message@)
    }
}

/// A message, with that of what it came from.
pub open spec fn because(context: Seq<char>, cause: Seq<char>) -> Seq<char> {
    context + "\n  caused by: "@ + cause
}

impl Error {
    /// A failure that came from another one.
    pub(crate) fn caused(kind: ErrorKind, context: &str, cause: &str) -> (r: Error)
        ensures
            r@ == (kind, because(context@, cause@)),
    {
        Error { kind, message: concat3(context, "\n  caused by: ", cause) }
    }

    /// A failure of a kind, with its message.
    pub fn new(kind: ErrorKind, message: String) -> (r: Error)
        ensures
            r@ == (kind, message@),
    {
        Error { kind, message }
    }

    /// What to tell the user.
    pub fn to_text(&self) -> (r: String)
        ensures
            r@ == self.message@,
    {
        self.message.clone()
    }
}

} // verus!
