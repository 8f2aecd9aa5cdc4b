//! A skill tree: named groups of items, arranged in clusters and linked by
//! dependencies, described by documents that may pull in other documents.

pub mod course;
pub mod dict;
pub mod error;
pub mod load;
pub mod merge;
pub mod nesting;
pub mod parse;
pub mod query;
pub mod tree;
pub mod validate;
pub mod value;
pub mod walk;
