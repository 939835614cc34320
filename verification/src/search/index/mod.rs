//! Reusable indexes over compressed search data.
//!
//! Each index owns its storage contract and validation boundary. Token-frequency
//! indexes support cheap structural validation of deserialized storage and
//! optional full validation against a code stream.

pub mod frequency;

pub use frequency::{
    build_token_frequency_index, BorrowedTokenFrequencyIndexStorage, OwnedTokenFrequencyIndexStorage, TokenFrequencyIndex,
    TokenFrequencyIndexError, TokenFrequencyIndexStorage, TokenFrequencyIndexView,
};
