//! Scans of the code stream against a compiled cover.

pub mod avx2;
pub mod avx512;
pub mod byte;
pub mod dispatch;
pub mod matcher;
pub mod neon;
pub mod nibble;
pub mod policy;
pub mod probe;
pub mod resolver;
pub mod sink;
pub mod sse2;
pub mod stages;
pub mod table;
pub mod words;
