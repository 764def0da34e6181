//! Code-aware retrieval over a source repository: overlapping line windows,
//! lexical index policy, and commit-history co-change mining.

pub mod chunk;
pub mod cochange;
pub mod diff;
pub mod history;
pub mod lexical;
pub mod patch;
pub mod query;
pub mod text;
