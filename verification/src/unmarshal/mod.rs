//! `PMML` unmarshaling: from the XML event stream to raw structures.

pub mod raw;
pub mod cursor;
pub mod nesting;
pub mod common;
pub mod expr;
pub mod tree;
pub mod regression;
pub mod mining;
pub mod scorecard;
pub mod clustering;
pub mod bayes;
pub mod knn;
pub mod grm;
pub mod svm;
pub mod neural;
pub mod association;
pub mod ruleset;
pub mod document;

pub use document::{unmarshal, unmarshal_events};
pub use raw::RawPmml;
