//! Compressed-domain `contains` queries: the rows of a column whose decoded
//! bytes contain a pattern, found without decoding them.
//!
//! Three searchers answer the same question over different forms of one
//! automaton: [`ContainsSearcher`] over the dense token table,
//! [`sparse::SparseSearcher`] over base destinations and exceptions, and
//! [`classdfa::ClassSearcher`] over classes of tokens.

pub mod classdfa;
pub mod dfa;
pub mod filter;
pub mod prefilter;
pub mod scan;
pub mod searcher;
pub mod sparse;
pub mod stats;
pub mod window;

pub use dfa::MAX_PATTERN_LEN;
pub use searcher::ContainsSearcher;
pub use stats::CodeStats;
