use vstd::prelude::*;

verus! {

/// Errors of the detection-and-quarantine pipeline.
#[derive(Debug, Clone, Copy, PartialEq, Eq, Structural)]
pub enum DeduckError {
    /// A required directory (the root, or the quarantine directory) is absent.
    NotFound,
    /// A file operation failed, or a destination filename was already taken.
    IoError,
    /// A required persisted configuration value is absent or malformed.
    ConfigMissing,
}

} // verus!
