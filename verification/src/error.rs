//! The errors of the library.

use crate::text::join2;
use vstd::prelude::*;

verus! {

/// All errors produced by the richclip library.
#[derive(Debug)]
pub enum Error {
    /// The requested item or MIME format does not exist.
    NotFound,
    /// A database error, with its text.
    Database(String),
    /// An I/O error (blob file read/write), with its text.
    Io(String),
    /// A JSON serialization/deserialization error, with its text.
    Json(String),
    /// A UUID parse error, with its text.
    InvalidId(String),
    /// Any other error wrapped with context.
    Other(String),
}

/// Convenience alias.
pub type Result<T> = std::result::Result<T, Error>;

impl Error {
    /// The text under which the error is shown.
    pub open spec fn shown(self) -> Seq<char> {
        match self {
            Error::NotFound => "not found"@,
            Error::Database(e) => "database error: "@ + e@,
            Error::Io(e) => "io error: "@ + e@,
            Error::Json(e) => "json error: "@ + e@,
            Error::InvalidId(e) => "invalid id: "@ + e@,
            Error::Other(e) => e@,
        }
    }

    /// The text under which the error is shown.
    pub fn message(&self) -> (r: String)
        ensures
            r@ == self.shown(),
    {
        match self {
            Error::NotFound => "not found".to_owned(),
            Error::Database(e) => join2("database error: ", e.as_str()),
            Error::Io(e) => join2("io error: ", e.as_str()),
            Error::Json(e) => join2("json error: ", e.as_str()),
            Error::InvalidId(e) => join2("invalid id: ", e.as_str()),
            Error::Other(e) => e.clone(),
        }
    }

    /// Exit code mapping for CLI error contract.
    /// `2` = not found (no such item/mime), `1` = everything else.
    pub fn code(&self) -> (r: i32)
        ensures
            r == (if *self is NotFound {
                2int
            } else {
                1int
            }),
    {
        match self {
            Error::NotFound => 2,
            _ => 1,
        }
    }

    /// The machine-readable code: `not_found` or `error`.
    pub open spec fn json_name(self) -> Seq<char> {
        if self is NotFound {
            "not_found"@
        } else {
            "error"@
        }
    }

    /// Machine-readable error code string for JSON output.
    pub fn json_code(&self) -> (r: &'static str)
        ensures
            r@ == self.json_name(),
    {
        match self {
            Error::NotFound => "not_found",
            _ => "error",
        }
    }

    /// The database error with exactly this text.
    pub open spec fn is_database(self, text: Seq<char>) -> bool {
        self matches Error::Database(e) && e@ == text
    }
}

/// An error is reported as `not_found` exactly when the process exits with 2.
pub proof fn law_codes_agree(e: Error, code: int, name: Seq<char>)
    requires
        code == (if e is NotFound {
            2int
        } else {
            1int
        }),
        name == e.json_name(),
    ensures
        code == 2 <==> name == "not_found"@,
{
    reveal_strlit("not_found");
    reveal_strlit("error");
    assert("not_found"@.len() != "error"@.len());
}

/// What is shown of an error is its kind and its text; an error of no other kind
/// is its text alone.
pub proof fn law_error_texts(text: String)
    ensures
        Error::NotFound.shown() == "not found"@,
        Error::Database(text).shown() == "database error: "@ + text@,
        Error::Io(text).shown() == "io error: "@ + text@,
        Error::Json(text).shown() == "json error: "@ + text@,
        Error::InvalidId(text).shown() == "invalid id: "@ + text@,
        Error::Other(text).shown() == text@,
{
}

} // verus!
