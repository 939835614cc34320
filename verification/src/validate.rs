//! Ways in which stored column data can be malformed.

use vstd::prelude::*;

verus! {

/// Ways in which a stored frequency index can be malformed.
#[derive(Debug, Copy, Clone, PartialEq, Eq, Structural)]
pub enum InvalidFrequencyIndex {
    /// The number of prefix sums is not one more than that of the tokens.
    BadLength,
    /// The first prefix sum is not 0.
    FirstCumulativeNotZero,
    /// A prefix sum exceeds its successor.
    DecreasingCumulative,
    /// The code count does not fit a prefix sum.
    FrequencyOverflow,
    /// The last prefix sum is not the code count.
    InvalidTotal,
    /// The counts are not those of the code stream.
    FrequenciesMismatch,
}

/// Ways in which a column can be malformed.
#[derive(Debug, Copy, Clone, PartialEq, Eq, Structural)]
pub enum InvalidColumn {
    /// A code, or a token count, is outside the token domain.
    CodeOutOfRange,
    /// The frequency index is malformed.
    FrequencyIndex(InvalidFrequencyIndex),
}

} // verus!
