//! Substring and prefix search over dictionary-compressed string columns.
#![allow(unused_imports)]

pub mod bits;
pub mod count;
pub mod dictionary;
pub mod order;
pub mod query;
pub mod rows;
pub mod search;
pub mod text;
pub mod types;
pub mod validate;
