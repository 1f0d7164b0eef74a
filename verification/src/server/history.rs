//! Score-history query parameters.

use vstd::prelude::*;

verus! {

/// Number of history points when none is given.
pub fn default_limit() -> (r: i64)
    ensures
        r == 500,
{
    500
}

/// A history query: points since an RFC 3339 time, at most `limit`.
#[derive(Clone, Debug, PartialEq, Eq)]
pub struct HistoryParams {
    pub since: Option<String>,
    pub limit: i64,
}

} // verus!
