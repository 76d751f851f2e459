//! The ways a scan can fail.
use vstd::prelude::*;

verus! {

/// What is wrong with a request that is refused before any byte is read.
#[derive(Debug, Clone, Copy, PartialEq, Eq, Structural)]
pub enum ConfigProblem {
    /// The worker count was zero.
    ZeroWorkers,
    /// The pattern held no byte.
    EmptyPattern,
}

impl ConfigProblem {
    /// A short human-readable description.
    pub fn describe(&self) -> (r: &'static str) {
        match self {
            ConfigProblem::ZeroWorkers => "the worker count must be at least one",
            ConfigProblem::EmptyPattern => "the pattern must hold at least one byte",
        }
    }
}

/// Why a scan produced no count.
#[derive(Debug, PartialEq, Eq)]
pub enum ScanError {
    /// The file to scan does not exist.
    FileNotFound,
    /// Opening, seeking or reading the file failed.
    IoFailure { cause: String },
    /// The request itself is unusable.
    InvalidConfiguration { problem: ConfigProblem },
    /// A worker stopped abnormally.
    WorkerFailure { cause: String },
    /// Fewer partial counts arrived than ranges were planned.
    IncompleteResults,
}

/// The error for a file that could not be opened or read: `FileNotFound`
/// when it does not exist, `IoFailure` with the cause otherwise.
pub fn io_error(not_found: bool, cause: String) -> (r: ScanError)
    ensures
        not_found ==> r == ScanError::FileNotFound,
        !not_found ==> r == (ScanError::IoFailure { cause }),
{
    if not_found {
        ScanError::FileNotFound
    } else {
        ScanError::IoFailure { cause }
    }
}

} // verus!
