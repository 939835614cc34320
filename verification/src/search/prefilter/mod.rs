//! A prefilter for substring search.

pub mod analysis;
pub mod cover;
pub mod dinic;
pub mod graph;
pub mod layout;
pub mod mincut;
pub mod plan;
pub mod scan;
pub mod shape;
pub mod walk;
