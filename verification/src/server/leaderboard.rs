//! Leaderboard listing parameters.

use vstd::prelude::*;

verus! {

/// Page size when none is given.
pub fn default_limit() -> (r: i64)
    ensures
        r == 50,
{
    50
}

/// A page of a leaderboard.
#[derive(Clone, Debug, PartialEq, Eq)]
pub struct PaginationParams {
    pub limit: i64,
    pub offset: i64,
}

/// Incremental CID sync: only CIDs admitted since the given RFC 3339 time.
#[derive(Clone, Debug, PartialEq, Eq)]
pub struct CidParams {
    pub since: Option<String>,
}

/// Summary of one leaderboard.
#[derive(Clone, Debug, PartialEq, Eq)]
pub struct LeaderboardSummary {
    pub n: i32,
    pub entry_count: i64,
}

/// A leaderboard entry joined with its graph6 text.
#[derive(Clone, Debug, PartialEq, Eq)]
pub struct LeaderboardGraphRow {
    pub rank: i32,
    pub cid: String,
    pub score_bytes: Vec<u8>,
    pub graph6: String,
}

} // verus!
