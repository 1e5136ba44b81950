//! A line-oriented text search: the lines of a text that contain a query, compared as
//! written, without regard to case, or as a regular expression.
//!
//! The searches are proved against a model of texts as sequences of characters. What
//! the regular-expression engine and the lower-casing of the standard library compute
//! is taken on trust and only given a name; see `engine`.
pub mod config;
pub mod encoding;
pub mod engine;
pub mod lines;
pub mod search;
pub mod substring;
pub mod text;

pub use config::{run, Config, Strategy};
pub use lines::Lines;
pub use search::{
    search, search_case_insensitive, search_with_compiled, search_with_regex, wants_pattern_hint,
    SearchError,
};
pub use substring::contains;
