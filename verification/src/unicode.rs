//! The two external Unicode capabilities the engine consumes: canonical
//! decomposition (NFD) and canonical-combining-class lookup.  Both are
//! pure functions of their input, so their results are given names that
//! the engine's contracts are stated over.

use vstd::prelude::*;

use unicode_canonical_combining_class::get_canonical_combining_class_u32;
use unicode_normalization::UnicodeNormalization;

use crate::table::CODEPOINT_LIMIT;

verus! {

/// The canonical decomposition (NFD) of a string, as a codepoint
/// sequence.
pub uninterp spec fn nfd_of(s: Seq<char>) -> Seq<u32>;

/// The canonical combining class of a codepoint; zero marks a starter.
pub uninterp spec fn ccc_of(cp: u32) -> u8;

/// Relies on unicode_normalization's `nfd`: the canonical decomposition
/// is a function of the input characters alone, every element of it is
/// a Unicode scalar value, and the decomposition of the empty string is
/// empty.
#[verifier::external_body]
pub(crate) fn nfd_codepoints(s: &str) -> (r: Vec<u32>)
    ensures
        r@ == nfd_of(s@),
        forall|i: int| 0 <= i < r@.len() ==> r@[i] < CODEPOINT_LIMIT,
        s@.len() == 0 ==> r@.len() == 0,
{
    s.nfd().map(|ch| ch as u32).collect()
}

/// Relies on unicode_canonical_combining_class's
/// `get_canonical_combining_class_u32`: the combining class is a
/// function of the codepoint alone.
#[verifier::external_body]
pub(crate) fn combining_class(cp: u32) -> (r: u8)
    ensures
        r == ccc_of(cp),
{
    get_canonical_combining_class_u32(cp) as u8
}

} // verus!
