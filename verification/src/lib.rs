//! A line-oriented text search: the lines of a text that contain a query,
//! compared exactly or after lowercasing both sides.
//!
//! Every contract is stated over the `Seq<char>` view of the strings involved.

pub mod config;
pub mod encoding;
pub mod lines;
pub mod search;
pub mod substring;

pub use config::{run, Config, GrepError};
pub use lines::split_first_line;
pub use search::{search, search_case_insensitive};
pub use substring::contains;
