//! What can go wrong.
use vstd::prelude::*;

verus! {

/// `git2::Error`, of which nothing is read.
#[verifier::external_type_specification]
#[verifier::external_body]
pub struct ExGitError(git2::Error);

/// Why there is no diff.
#[derive(Debug)]
pub enum DiffError {
    /// a reason in words
    Generic(String),
    /// git could not do its part
    Git(git2::Error),
    /// a file or a line is too large to be shown
    TooLarge,
}

} // verus!
