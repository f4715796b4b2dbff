//! The failures that the tracker reports.

use vstd::prelude::*;

verus! {

/// What went wrong, as the tracker reports it.
#[derive(Clone, Copy, Debug, PartialEq, Eq, Structural)]
pub enum Error {
    /// A worker that ran a task did not hand a result back.
    TaskJoin,
    /// The clock gave a time outside the calendar this tracker keeps.
    TimeFormat,
    /// The storage layer failed.
    Database,
    /// No value has been recorded yet.
    NotFound,
    /// A login left a field empty.
    MissingCredentials,
    /// A login did not match, or a token carries a foreign issuer.
    WrongCredentials,
    /// A token could not be made.
    TokenGeneration,
    /// A token is malformed, not signed with the server's secret, or expired.
    InvalidToken,
}

/// The texts that failures are reported with: one per status, so that the
/// text tells no more than the status does.
pub const BAD_REQUEST_TEXT: &'static str = "Bad request";

pub const UNAUTHORIZED_TEXT: &'static str = "Unauthorized";

pub const NOT_FOUND_TEXT: &'static str = "Not found";

pub const INTERNAL_TEXT: &'static str = "Internal server error";

/// The text reported under an HTTP status.
pub open spec fn status_text(status: u16) -> Seq<char> {
    if status == 400 {
        BAD_REQUEST_TEXT@
    } else if status == 401 {
        UNAUTHORIZED_TEXT@
    } else if status == 404 {
        NOT_FOUND_TEXT@
    } else {
        INTERNAL_TEXT@
    }
}

impl Error {
    /// The HTTP status under which the failure is reported.
    pub open spec fn status_spec(self) -> u16 {
        match self {
            Error::MissingCredentials => 400,
            Error::WrongCredentials | Error::InvalidToken => 401,
            Error::NotFound => 404,
            Error::TaskJoin | Error::TimeFormat | Error::Database | Error::TokenGeneration => 500,
        }
    }

    /// The HTTP status under which the failure is reported: a client error
    /// for missing fields, "unauthorized" for every failed check of who the
    /// caller is, "not found" for an empty series, and a server error for
    /// the rest.
    pub fn status(&self) -> (r: u16)
        ensures
            r == self.status_spec(),
    {
        match self {
            Error::MissingCredentials => 400,
            Error::WrongCredentials | Error::InvalidToken => 401,
            Error::NotFound => 404,
            Error::TaskJoin | Error::TimeFormat | Error::Database | Error::TokenGeneration => 500,
        }
    }

    /// The generic text the failure is reported with. It depends on the
    /// status alone: a wrong credential and a bad or expired token read
    /// alike, and no cause from storage or a worker is shown.
    pub fn message(&self) -> (r: &'static str)
        ensures
            r@ == status_text(self.status_spec()),
    {
        match self {
            Error::MissingCredentials => BAD_REQUEST_TEXT,
            Error::WrongCredentials | Error::InvalidToken => UNAUTHORIZED_TEXT,
            Error::NotFound => NOT_FOUND_TEXT,
            Error::TaskJoin | Error::TimeFormat | Error::Database | Error::TokenGeneration => INTERNAL_TEXT,
        }
    }
}

} // verus!
