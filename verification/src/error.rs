//! The shared error type and the HTTP status each error maps to.
use vstd::prelude::*;

use crate::text::{decimal, push_decimal, push_text};

verus! {

/// An error that maps directly onto a documented HTTP status code.
#[derive(Debug, Clone, PartialEq, Eq)]
pub enum EdamameError {
    /// Invalid identifier, filename, sequence or metadata (`400`).
    BadRequest(String),
    /// The same identifier exists with other bytes, or metadata conflicts (`409`).
    Conflict(String),
    /// The requested resource is unknown (`404`).
    NotFound(String),
    /// A generated playlist would reference an invalid state (`422`).
    Unprocessable(String),
    /// No ACTIVE cache node is available for new clients (`503`).
    Unavailable(String),
    /// A canonical segment could not be fetched while prewarming (`502`).
    BadGateway(String),
    /// An unexpected internal error (`500`).
    Internal(String),
}

impl EdamameError {
    pub open spec fn status_spec(&self) -> u16 {
        match self {
            EdamameError::BadRequest(_) => 400,
            EdamameError::Conflict(_) => 409,
            EdamameError::NotFound(_) => 404,
            EdamameError::Unprocessable(_) => 422,
            EdamameError::Unavailable(_) => 503,
            EdamameError::BadGateway(_) => 502,
            EdamameError::Internal(_) => 500,
        }
    }

    pub open spec fn message_spec(&self) -> Seq<char> {
        match self {
            EdamameError::BadRequest(m) => m@,
            EdamameError::Conflict(m) => m@,
            EdamameError::NotFound(m) => m@,
            EdamameError::Unprocessable(m) => m@,
            EdamameError::Unavailable(m) => m@,
            EdamameError::BadGateway(m) => m@,
            EdamameError::Internal(m) => m@,
        }
    }

    /// The HTTP status code this error maps to.
    pub fn status(&self) -> (code: u16)
        ensures
            code == self.status_spec(),
    {
        match self {
            EdamameError::BadRequest(_) => 400,
            EdamameError::Conflict(_) => 409,
            EdamameError::NotFound(_) => 404,
            EdamameError::Unprocessable(_) => 422,
            EdamameError::Unavailable(_) => 503,
            EdamameError::BadGateway(_) => 502,
            EdamameError::Internal(_) => 500,
        }
    }

    /// The human-readable message this error carries.
    pub fn message(&self) -> (m: &str)
        ensures
            m@ == self.message_spec(),
    {
        match self {
            EdamameError::BadRequest(m) => m.as_str(),
            EdamameError::Conflict(m) => m.as_str(),
            EdamameError::NotFound(m) => m.as_str(),
            EdamameError::Unprocessable(m) => m.as_str(),
            EdamameError::Unavailable(m) => m.as_str(),
            EdamameError::BadGateway(m) => m.as_str(),
            EdamameError::Internal(m) => m.as_str(),
        }
    }

    /// The text the error displays as: `"{message} ({status})"`.
    pub fn describe(&self) -> (s: String)
        ensures
            s@ == self.message_spec() + " ("@ + decimal(self.status_spec() as nat) + ")"@,
    {
        let mut s = String::new();
        push_text(&mut s, self.message());
        push_text(&mut s, " (");
        push_decimal(&mut s, self.status() as u64);
        push_text(&mut s, ")");
        assert(s@ =~= self.message_spec() + " ("@ + decimal(self.status_spec() as nat) + ")"@);
        s
    }
}

/// A `String` holding `prefix` followed by `subject`.
pub fn prefixed(prefix: &str, subject: &str) -> (s: String)
    ensures
        s@ == prefix@ + subject@,
{
    let mut s = String::new();
    push_text(&mut s, prefix);
    push_text(&mut s, subject);
    assert(s@ =~= prefix@ + subject@);
    s
}

} // verus!
