//! Token ids and ranges of them.

use vstd::prelude::*;

verus! {

/// A dictionary token id: one code of a compressed stream.
pub type Token = u16;

/// The longest token a dictionary holds, in bytes.
pub const MAX_TOKEN_SIZE: usize = 16;

/// The number of ids a [`Token`] can name.
pub const MAX_TOKENS: usize = 65536;

/// An inclusive range of token ids, empty when `begin > last`.
#[derive(Copy, Clone, Debug, PartialEq, Eq, Structural)]
pub struct TokenRange {
    /// First id of the range.
    pub begin: Token,
    /// Last id of the range.
    pub last: Token,
}

impl TokenRange {
    /// `id` lies in the range.
    pub open spec fn has(self, id: int) -> bool {
        self.begin <= id <= self.last
    }

    /// No id lies in the range.
    pub open spec fn nothing(self) -> bool {
        self.begin > self.last
    }

    /// A range that holds no id.
    pub fn empty_range() -> (r: TokenRange)
        ensures
            r.nothing(),
    {
        TokenRange { begin: 1, last: 0 }
    }

    /// Whether no id lies in the range.
    pub fn is_empty(&self) -> (r: bool)
        ensures
            r == self.nothing(),
    {
        self.begin > self.last
    }

    /// Whether `id` lies in the range.
    pub fn contains(&self, id: Token) -> (r: bool)
        ensures
            r == self.has(id as int),
    {
        self.begin <= id && id <= self.last
    }
}

/// Ids are 16 bits wide, and tokens have 16 bytes at the most. A range holds
/// the ids from its first to its last, and none where the first is past it.
pub proof fn lemma_ids_and_ranges(r: TokenRange, id: int)
    ensures
        MAX_TOKENS == 65536,
        MAX_TOKEN_SIZE == 16,
        r.has(id) <==> r.begin <= id && id <= r.last,
        r.nothing() <==> r.last < r.begin,
{
}

} // verus!
