//! A Unicode-correct string collation engine together with the small
//! in-memory catalogue types of the reading site built on top of it.
//!
//! The collation core follows the Unicode Collation Algorithm in its
//! default, non-tailored form: a table compiler turns the textual
//! weight data into a sorted [`table::WeightTable`], and the runtime
//! engine normalizes text, matches codepoint sequences (contiguous and
//! discontiguous), derives implicit weights for unlisted codepoints,
//! builds a three-level sort key and compares two strings by it.

pub mod builder;
pub mod collate;
pub mod collection;
pub mod config;
pub mod csv;
pub mod entry;
pub mod error;
pub mod parser;
pub mod source;
pub mod stats;
pub mod table;
pub mod unicode;
pub mod user;

pub use collate::collate;
pub use collate::sort_key;
pub use table::CollateElement;
pub use table::WeightTable;
