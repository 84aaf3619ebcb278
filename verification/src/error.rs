use vstd::prelude::*;

verus! {

/// The errors of the database.
#[derive(Debug, Clone, PartialEq)]
pub enum Error {
    /// The SQL text could not be lexed or parsed.
    Parse(String),
    /// Anything else that went wrong while executing a statement.
    Internal(String),
    /// A write met a version written by a transaction that this one cannot see.
    WriteConflict,
}

pub type Result<T> = core::result::Result<T, Error>;

impl Error {
    /// The text that a client is shown for this error.
    pub open spec fn message(&self) -> Seq<char> {
        match self {
            Error::Parse(msg) => "parse error "@ + msg@,
            Error::Internal(msg) => "internal error "@ + msg@,
            Error::WriteConflict => "write conflict, try transaction"@,
        }
    }

    /// The message shown to a client.
    pub fn to_string(&self) -> (s: String)
        ensures
            s@ == self.message(),
    {
        match self {
            Error::Parse(msg) => String::from_str("parse error ").concat(msg.as_str()),
            Error::Internal(msg) => String::from_str("internal error ").concat(msg.as_str()),
            Error::WriteConflict => String::from_str("write conflict, try transaction"),
        }
    }
}

} // verus!
