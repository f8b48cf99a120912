//! The building blocks of a written work's content.

use vstd::prelude::*;

verus! {

/// A label attached to a work.
#[derive(Debug)]
pub enum Tag {
    Genre(String),
    Other(String),
}

/// One element of a chapter, rendered in sequence with no fancy
/// formatting.
#[derive(Debug)]
pub enum Entry {
    Paragraph(String),
    Image(Vec<u8>),
}

} // verus!
