//! Scanner core for detecting packages affected by the Shai Hulud V2 supply-chain
//! compromise in an npm-style lock file.
//!
//! The library covers the scanning pipeline itself: lock-file normalization,
//! exact matching against a curated feed of known-vulnerable package versions,
//! and the publish-date heuristic that flags packages whose installed version
//! was published after the attack instant.  Fetching the feed, querying the
//! registry and printing the report are left to the surrounding program, which
//! hands this crate plain values and receives the classified collections back.

pub mod error;
pub mod feed;
pub mod instant;
pub mod normalize;
pub mod package;
pub mod registry;
pub mod scanner;
pub mod scheduler;
pub mod versions;
