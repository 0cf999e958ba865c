//! Opaque string-backed tokens: entity identifiers, pagination cursors and
//! timestamp values.
//!
//! None of these is ever parsed by this crate: they are carried verbatim
//! between payloads, and two tokens are the same exactly when their texts
//! are. Timestamps keep their wire text, so re-encoding one reproduces it
//! exactly.

use vstd::prelude::*;

verus! {

/// Identifier of a database entity.
#[derive(Debug, Clone, PartialEq, Eq)]
pub struct DatabaseId(pub String);

/// Identifier of a page entity.
#[derive(Debug, Clone, PartialEq, Eq)]
pub struct PageId(pub String);

/// Identifier of a block entity.
#[derive(Debug, Clone, PartialEq, Eq)]
pub struct BlockId(pub String);

/// Opaque continuation token of a paginated response.
#[derive(Debug, Clone, PartialEq, Eq)]
pub struct PagingCursor(pub String);

/// A point in time, kept as its wire text.
#[derive(Debug, Clone, PartialEq, Eq)]
pub struct Timestamp(pub String);

impl DatabaseId {
    /// The identifier's text.
    pub open spec fn view(self) -> Seq<char> {
        self.0@
    }

    /// Identifier equality: by underlying text.
    pub fn same(&self, other: &DatabaseId) -> (r: bool)
        ensures
            r == (self@ == other@),
    {
        self.0 == other.0
    }
}

impl PageId {
    /// The identifier's text.
    pub open spec fn view(self) -> Seq<char> {
        self.0@
    }

    /// Identifier equality: by underlying text.
    pub fn same(&self, other: &PageId) -> (r: bool)
        ensures
            r == (self@ == other@),
    {
        self.0 == other.0
    }
}

impl BlockId {
    /// The identifier's text.
    pub open spec fn view(self) -> Seq<char> {
        self.0@
    }

    /// Identifier equality: by underlying text.
    pub fn same(&self, other: &BlockId) -> (r: bool)
        ensures
            r == (self@ == other@),
    {
        self.0 == other.0
    }
}

impl PagingCursor {
    /// The token's text.
    pub open spec fn view(self) -> Seq<char> {
        self.0@
    }
}

impl Timestamp {
    /// The timestamp's wire text.
    pub open spec fn view(self) -> Seq<char> {
        self.0@
    }
}

} // verus!
