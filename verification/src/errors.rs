//! Error types returned by the store and by the request-facing helpers.

use vstd::prelude::*;
use vstd::string::StringExecFns;

verus! {

/// The library's error taxonomy.
///
/// `Validation` reports a caller-supplied database name that violates a
/// precondition (reserved, empty, already present, or absent).
/// `Serialization` reports a stored blob that failed to decode.
/// `Conversion` reports a value (such as a clock reading or a header)
/// that could not be converted.
#[derive(Debug)]
pub enum DbError {
    Validation(String),
    Serialization(String),
    Conversion(String),
}

/// Body of an error reply handed to the request layer.
#[derive(Debug)]
pub enum ApiError {
    Msg(String),
}

/// A validation failure kept with its human-readable context.
#[derive(Debug)]
pub enum ErrorCtx {
    Validation(String),
}

impl ApiError {
    /// The reply for a request path that matches no route.
    pub fn from_not_found(path: &str) -> (r: Self)
        ensures
            r matches ApiError::Msg(m) && m@ == "This is not the path you're looking for, path = \""@
                + path@ + "\"."@,
    {
        let mut msg = "This is not the path you're looking for, path = \"".to_owned();
        msg.append(path);
        msg.append("\".");
        ApiError::Msg(msg)
    }

    /// The reply used when no specific message can be produced.
    pub fn not_found_generic() -> (r: Self)
        ensures
            r matches ApiError::Msg(m) && m@ == "Not found"@,
    {
        ApiError::Msg("Not found".to_owned())
    }

    /// The message carried by this reply.
    pub fn message(self) -> (r: String)
        ensures
            self matches ApiError::Msg(m) && r == m,
    {
        match self {
            ApiError::Msg(m) => m,
        }
    }
}

impl ErrorCtx {
    /// The full human-readable rendering of this error.
    pub fn to_message(&self) -> (r: String)
        ensures
            self matches ErrorCtx::Validation(m) && r@ == "Validation error: "@ + m@,
    {
        match self {
            ErrorCtx::Validation(m) => {
                let mut out = "Validation error: ".to_owned();
                out.append(m.as_str());
                out
            },
        }
    }
}

} // verus!
