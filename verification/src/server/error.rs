//! Errors of the server's API and the answers they give.

use vstd::prelude::*;
use vstd::string::StringExecFns;

verus! {

/// What a failed request reports.
#[derive(Clone, Debug, PartialEq, Eq)]
pub enum ApiError {
    BadRequest(String),
    NotFound(String),
    InvalidSignature,
    UnregisteredIdentity(String),
    Internal(String),
    Store(String),
}

/// The HTTP status of an error.
pub open spec fn status_of(e: ApiError) -> u16 {
    match e {
        ApiError::BadRequest(_) => 400,
        ApiError::NotFound(_) => 404,
        ApiError::InvalidSignature => 400,
        ApiError::UnregisteredIdentity(_) => 400,
        ApiError::Internal(_) => 500,
        ApiError::Store(_) => 500,
    }
}

/// The message an error shows to the client; internal details stay
/// hidden.
pub open spec fn message_of(e: ApiError) -> Seq<char> {
    match e {
        ApiError::BadRequest(m) => m@,
        ApiError::NotFound(m) => m@,
        ApiError::InvalidSignature => "invalid signature"@,
        ApiError::UnregisteredIdentity(kid) => "identity not registered: "@ + kid@,
        ApiError::Internal(_) => "internal server error"@,
        ApiError::Store(_) => "internal server error"@,
    }
}

impl ApiError {
    /// The HTTP status and the client-facing message of the error.
    pub fn status_and_message(&self) -> (r: (u16, String))
        ensures
            r.0 == status_of(*self),
            r.1@ == message_of(*self),
    {
        match self {
            ApiError::BadRequest(msg) => (400, msg.clone()),
            ApiError::NotFound(msg) => (404, msg.clone()),
            ApiError::InvalidSignature => (400, String::from_str("invalid signature")),
            ApiError::UnregisteredIdentity(kid) => {
                let mut m = String::from_str("identity not registered: ");
                m.append(kid.as_str());
                (400, m)
            },
            ApiError::Internal(_) => (500, String::from_str("internal server error")),
            ApiError::Store(_) => (500, String::from_str("internal server error")),
        }
    }
}

} // verus!
