//! In-memory, content-addressable index of a directory tree, with the
//! string matching used to search it.

pub mod algorithm;
pub mod config;
pub mod model;
pub mod order;
pub mod query;
