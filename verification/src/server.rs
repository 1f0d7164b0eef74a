//! Request parameters, error answers and cache entries of the leaderboard
//! server.

pub mod cache;
pub mod error;
pub mod history;
pub mod keys;
pub mod leaderboard;
pub mod submit;
