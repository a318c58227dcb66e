//! What one run searches for, and where.
use vstd::prelude::*;
use crate::search::{
    matching_lines,
    matching_lines_folded,
    search,
    search_case_insensitive,
};

verus! {

/// A query, the file to search in, and whether case counts.
pub struct Config {
    pub query: String,
    pub filename: String,
    pub case_sensitive: bool,
}

/// Why a configuration could not be made.
#[derive(Debug, Clone, Copy, PartialEq, Eq, Structural)]
pub enum ConfigError {
    /// The query or the file name was not given.
    MissingArgument,
}

impl ConfigError {
    /// A description of the error for the user.
    pub fn message(&self) -> (r: &'static str)
        ensures
            r@ == "not enough arguments"@,
    {
        match self {
            ConfigError::MissingArgument => "not enough arguments",
        }
    }
}

impl Config {
    /// Reads a configuration from the program's arguments: the program's
    /// name, then the query, then the file name; further arguments are
    /// ignored. `ignore_case` says whether the user asked for a search that
    /// disregards case.
    pub fn new(args: &[String], ignore_case: bool) -> (r: Result<Config, ConfigError>)
        ensures
            args@.len() < 3 <==> r == Err::<Config, ConfigError>(ConfigError::MissingArgument),
            r matches Ok(c) ==> {
                &&& c.query@ == args@[1]@
                &&& c.filename@ == args@[2]@
                &&& c.case_sensitive == !ignore_case
            },
    {
        if args.len() < 3 {
            return Err(ConfigError::MissingArgument);
        }
        let query = args[1].clone();
        let filename = args[2].clone();
        Ok(Config { query, filename, case_sensitive: !ignore_case })
    }
}

/// The lines of `contents` that match the configured query, with or without
/// regard to case as the configuration says.
pub fn find_matches<'a>(config: &Config, contents: &'a str) -> (r: Vec<&'a str>)
    ensures
        config.case_sensitive ==> r.deep_view() == matching_lines(config.query@, contents@),
        !config.case_sensitive ==> r.deep_view() == matching_lines_folded(
            config.query@,
            contents@,
        ),
{
    if config.case_sensitive {
        search(config.query.as_str(), contents)
    } else {
        search_case_insensitive(config.query.as_str(), contents)
    }
}

} // verus!
