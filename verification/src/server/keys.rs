//! Identity registration and lookup parameters.

use vstd::prelude::*;

verus! {

/// Registration of a public key.
#[derive(Clone, Debug, PartialEq, Eq)]
pub struct RegisterKeyRequest {
    pub public_key: String,
    pub display_name: Option<String>,
    pub github_repo: Option<String>,
}

/// Number of leaderboard appearances listed for a key when none is given.
pub fn default_lb_limit() -> (r: usize)
    ensures
        r == 10,
{
    10
}

/// Lookup of a key.
#[derive(Clone, Debug, PartialEq, Eq)]
pub struct GetKeyParams {
    pub leaderboard_limit: usize,
}

/// Page size of a key's submissions when none is given.
pub fn default_limit() -> (r: i64)
    ensures
        r == 50,
{
    50
}

/// A page of a key's submissions.
#[derive(Clone, Debug, PartialEq, Eq)]
pub struct SubmissionParams {
    pub limit: i64,
    pub offset: i64,
}

} // verus!
