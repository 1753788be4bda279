//! The failure kinds of the alias manager.

use vstd::prelude::*;

verus! {

/// Everything that can go wrong in one invocation: adding an alias that is
/// already taken, naming an alias that is not in the store, loading malformed
/// persisted state, failing to spawn the child shell, or an editor session
/// that ended abnormally. All of these are terminal for the invocation; none
/// is retried.
#[derive(Debug, Clone, Copy, PartialEq, Eq, Structural)]
pub enum PierError {
    DuplicateAlias,
    AliasNotFound,
    LoadError,
    ExecutionFailed,
    EditorFailed,
}

impl PierError {
    /// A short human-readable description of the error kind; callers prepend
    /// context (such as the offending alias) when reporting.
    pub fn message(&self) -> (m: &'static str)
        ensures
            *self == PierError::DuplicateAlias ==> m@ == "alias already exists in the store"@,
            *self == PierError::AliasNotFound ==> m@ == "alias not found in the store"@,
            *self == PierError::LoadError ==> m@ == "persisted store state is missing or malformed"@,
            *self == PierError::ExecutionFailed ==> m@ == "the shell process could not be started"@,
            *self == PierError::EditorFailed ==> m@ == "the external editor did not produce content"@,
    {
        match self {
            PierError::DuplicateAlias => "alias already exists in the store",
            PierError::AliasNotFound => "alias not found in the store",
            PierError::LoadError => "persisted store state is missing or malformed",
            PierError::ExecutionFailed => "the shell process could not be started",
            PierError::EditorFailed => "the external editor did not produce content",
        }
    }
}

} // verus!
