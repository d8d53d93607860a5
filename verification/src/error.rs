//! Fatal error conditions of a scan run.

use vstd::prelude::*;

verus! {

/// A condition that aborts the whole scan: partial results would be
/// misleading, so the caller is expected to stop and report it.
#[derive(Debug, PartialEq, Eq)]
pub enum ScanError {
    /// A raw manifest key does not have the expected dependency-tree path
    /// shape, which indicates an incompatible lock-file format.
    MalformedManifestKey { key: String },
    /// The registry reported a publish timestamp that cannot be parsed as an
    /// instant; malformed registry data is surfaced instead of silently
    /// misclassifying the package.
    InvalidTimestamp { version: String, timestamp: String },
}

} // verus!
