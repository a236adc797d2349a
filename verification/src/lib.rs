//! Pattern-matching term lookup for a segmented full-text index.
//!
//! A textual pattern is compiled into a deterministic byte-level acceptor;
//! the acceptor is walked in lock-step with a sorted term dictionary to
//! enumerate exactly the matching terms; the posting lists of those terms
//! are merged into one ascending, duplicate-free scored document stream.

pub mod acceptor;
pub mod dictionary;
pub mod matcher;
pub mod postings;
pub mod query;
pub mod pattern;
