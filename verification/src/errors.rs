//! Error kinds surfaced by the identifier pipeline.

use vstd::prelude::*;

verus! {

/// Errors about a job's sub-path argument.
#[derive(Clone, PartialEq, Eq, Debug)]
pub enum FilePathError {
    /// The sub-path does not lie under the location root.
    SubPathNotInLocation(String),
    /// The sub-path is not a directory.
    SubPathNotDirectory(String),
}

/// Errors a job run can end with.
#[derive(Clone, PartialEq, Eq, Debug)]
pub enum JobError {
    /// The job stopped early: nothing to do, or an invariant broke
    /// mid-run.
    EarlyFinish { name: String, reason: String },
    /// A sub-path argument was rejected.
    FilePath(FilePathError),
}

} // verus!
