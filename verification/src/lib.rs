//! Line-oriented text search: every line of a text that contains a query,
//! with or without regard to letter case, and the resolution of the search
//! parameters from command-line tokens.

use vstd::prelude::*;

pub mod config;
pub mod lines;
pub mod search;
pub mod text;

pub use crate::config::{Config, ConfigError};
pub use crate::search::{search, search_case_insensitive};

verus! {

/// Searches `contents` as `config` asks: for `config.query`, without regard
/// to case where `config.ignore_case` is set. The lines found come in the
/// order of `contents`, each borrowed from it.
pub fn run<'a>(config: Config, contents: &'a str) -> (found: Vec<&'a str>)
    ensures
        crate::search::line_views(found@) == crate::search::selected_lines(
            config.query@,
            config.ignore_case,
            contents@,
        ),
{
    if config.ignore_case {
        search_case_insensitive(config.query.as_str(), contents)
    } else {
        search(config.query.as_str(), contents)
    }
}

} // verus!
