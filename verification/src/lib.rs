//! Conditional-independence testing: the data model, the discrete stratified
//! contingency-table machinery and the query rules of a library of
//! conditional-independence tests.

pub mod cache;
pub mod ci_tests;
pub mod coding;
pub mod counting;
pub mod dataset;
pub mod discrete;
pub mod error;
pub mod gram_index;
pub mod input;
pub mod registry;
pub mod strata;
pub mod strategy;
pub mod tables;

pub use dataset::{ColumnKind, Dataset};
pub use error::CiError;
pub use strategy::{validate_query, DataType, IndependenceRule, TestMeta};
