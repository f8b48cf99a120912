//! The interface an external catalogue source implements.

use vstd::prelude::*;

verus! {

/// A series of works as reported by a source.
#[derive(Debug)]
pub struct Series {}

/// A provider of series data.
pub trait Source {
    /// Get a list of all the series tracked by a source.
    fn series(&self) -> Series;
}

} // verus!
