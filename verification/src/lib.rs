//! A catalog of media works tagged with hierarchical labels, searched through
//! a small boolean query language.
//!
//! The crate is organized around four pieces: a query parser that turns free
//! text into a boolean expression tree, a canonicalizer that gives
//! semantically-equivalent expressions an identical structural identity, a
//! compiler and executor that lower that tree into relational set operations
//! against a catalog, and a tag-expression language for bulk, hierarchical
//! tagging with transitive "implies" edges between tags.

use vstd::prelude::*;

pub mod catalog;
pub mod models;
pub mod parse;
pub mod record;
pub mod search;
pub mod tag;
pub mod utils;

verus! {

/// The kind of entity an error refers to.
#[derive(Debug, Clone, Copy, PartialEq, Eq, Structural)]
pub enum ModelKind {
    Work,
    Author,
    Tag,
}

impl ModelKind {
    /// The display name of the model kind.
    pub fn as_str(&self) -> (r: &'static str)
        ensures
            self is Work ==> r@ == "Work"@,
            self is Author ==> r@ == "Author"@,
            self is Tag ==> r@ == "Tag"@,
    {
        match self {
            ModelKind::Work => "Work",
            ModelKind::Author => "Author",
            ModelKind::Tag => "Tag",
        }
    }
}

/// An error from the catalog's operations. Parse errors are reported
/// separately, as [`parse::ParseError`].
#[derive(Debug)]
pub enum Error {
    /// A referenced entity does not exist where the operation requires it
    /// to.
    NotFound { kind: ModelKind },
}

} // verus!
