//! The error type shared by the diff engine.

use vstd::prelude::*;

verus! {

/// Everything that can go wrong while reading, applying or combining a diff.
#[derive(Clone, Copy, Debug, PartialEq, Eq, Structural)]
pub enum DiffError {
    /// A reader ran out of bytes in the middle of a block or a copy.
    UnexpectedEof,
    /// A block started with an action outside the known range.
    UnknownAction,
    /// A list of diffs to combine held fewer than two entries.
    InvalidInput,
    /// The diff iterator could not be built from the given inputs.
    CreateFailed,
}

impl DiffError {
    /// The human-readable description, matching the wording reported
    /// by the engine's operations.
    pub fn message(&self) -> (r: String)
        ensures
            *self is UnexpectedEof ==> r@ == "Unexpected EOF"@,
            *self is UnknownAction ==> r@ == "Unknown Action: possibly corrupted file or diff"@,
            *self is InvalidInput ==> r@ == "Number of diff must be greater than one"@,
            *self is CreateFailed ==> r@ == "Error while creating DiffIterator"@,
    {
        match self {
            DiffError::UnexpectedEof => "Unexpected EOF".to_owned(),
            DiffError::UnknownAction => "Unknown Action: possibly corrupted file or diff".to_owned(),
            DiffError::InvalidInput => "Number of diff must be greater than one".to_owned(),
            DiffError::CreateFailed => "Error while creating DiffIterator".to_owned(),
        }
    }
}

} // verus!
