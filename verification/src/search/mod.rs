//! Search over compressed codes, without decoding rows.

pub mod contains_prefilter;
pub mod index;
pub mod kmp;
pub mod lookup;
pub mod prefilter;
pub mod prefix;
pub mod tokenize;
