//! The library's user-facing error type.

use vstd::prelude::*;

verus! {

/// A failure of a catalogue operation.
#[derive(Debug)]
pub enum LibraryError {
    /// The named book does not exist in the library.
    Missing(String),
    /// A book with the same title is already in the library.
    Exists(String),
}

impl LibraryError {
    /// A human-readable description of the failure.
    pub fn message(&self) -> (r: String)
        ensures
            match self {
                LibraryError::Missing(t) => r@ == t@ + " does not exist in the library!"@,
                LibraryError::Exists(t) => r@ == t@ + " already exists in the library!"@,
            },
    {
        match self {
            LibraryError::Missing(t) => {
                let mut s = t.clone();
                s.append(" does not exist in the library!");
                s
            },
            LibraryError::Exists(t) => {
                let mut s = t.clone();
                s.append(" already exists in the library!");
                s
            },
        }
    }
}

} // verus!
