//! The settings of one run and the choice of the search that they call for.
use vstd::prelude::*;
use regex::Error;
use crate::search::{
    case_insensitive_matches, literal_matches, regex_matches, search, search_case_insensitive,
    search_outcome, search_with_regex, SearchError,
};

verus! {

/// The settings of one run: what to look for, where, and how to compare.
pub struct Config {
    pub query: String,
    pub file_path: String,
    pub ignore_case: bool,
    pub use_regex: bool,
}

/// The way in which lines are compared with the query.
#[derive(Clone, Copy, Debug, PartialEq, Eq, Structural)]
pub enum Strategy {
    /// The line contains the query as it is written.
    Literal,
    /// The line contains the query when case is disregarded.
    IgnoreCase,
    /// The query is a regular expression that matches somewhere in the line.
    Pattern,
}

/// The strategy that two switches call for. Disregarding case comes before regular
/// expressions: with both switched on, the query is no pattern.
pub open spec fn strategy_for(ignore_case: bool, use_regex: bool) -> Strategy {
    if ignore_case {
        Strategy::IgnoreCase
    } else if use_regex {
        Strategy::Pattern
    } else {
        Strategy::Literal
    }
}

/// What a search of `text` for `query` gives under `strategy`: the chosen lines, or the
/// engine's error for a pattern that it does not compile.
pub open spec fn matches_under(strategy: Strategy, query: Seq<char>, text: Seq<char>) -> Result<
    Seq<Seq<char>>,
    Error,
> {
    match strategy {
        Strategy::Literal => Ok(literal_matches(query, text)),
        Strategy::IgnoreCase => Ok(case_insensitive_matches(query, text)),
        Strategy::Pattern => regex_matches(query, text),
    }
}

impl Config {
    /// Makes the settings from a program's arguments and the two switches. The
    /// arguments are the program's name, the query and the path of the file, in this
    /// order; further ones are ignored. Fewer than these three are refused.
    pub fn build(args: &[String], ignore_case: bool, use_regex: bool) -> (built: Result<
        Config,
        &'static str,
    >)
        ensures
            args@.len() < 3 <==> built is Err,
            built is Err ==> built->Err_0@ == "Not enough arguments"@,
            built is Ok ==> {
                &&& built->Ok_0.query@ == args@[1]@
                &&& built->Ok_0.file_path@ == args@[2]@
                &&& built->Ok_0.ignore_case == ignore_case
                &&& built->Ok_0.use_regex == use_regex
            },
    {
        if args.len() < 3 {
            return Err("Not enough arguments");
        }
        let query = args[1].clone();
        let file_path = args[2].clone();
        Ok(Config { query, file_path, ignore_case, use_regex })
    }

    /// The strategy that these settings call for.
    pub fn strategy(&self) -> (chosen: Strategy)
        ensures
            chosen == strategy_for(self.ignore_case, self.use_regex),
    {
        if self.ignore_case {
            Strategy::IgnoreCase
        } else if self.use_regex {
            Strategy::Pattern
        } else {
            Strategy::Literal
        }
    }
}

/// Searches `contents`, the text of the file that `config` names, for the query of
/// `config` under the strategy that `config` calls for. The lines come in the order in
/// which they stand in `contents`. A query that is not used as a pattern is never
/// compiled, so it cannot fail.
pub fn run<'a>(config: Config, contents: &'a str) -> (found: Result<Vec<&'a str>, SearchError>)
    ensures
        search_outcome(found) == matches_under(
            strategy_for(config.ignore_case, config.use_regex),
            config.query@,
            contents@,
        ),
        config.ignore_case || !config.use_regex ==> found is Ok,
{
    match config.strategy() {
        Strategy::IgnoreCase => Ok(search_case_insensitive(config.query.as_str(), contents)),
        Strategy::Pattern => search_with_regex(config.query.as_str(), contents),
        Strategy::Literal => Ok(search(config.query.as_str(), contents)),
    }
}

/// Searching again gives the same. Whatever two searches under one strategy, for one
/// query, in one text return, they return the same lines in the same order, or the same
/// error: nothing but the strategy, the query and the text has a say in the result.
pub proof fn lemma_search_again_gives_same(
    strategy: Strategy,
    query: Seq<char>,
    text: Seq<char>,
    first: Result<Vec<&str>, SearchError>,
    second: Result<Vec<&str>, SearchError>,
)
    requires
        search_outcome(first) == matches_under(strategy, query, text),
        search_outcome(second) == matches_under(strategy, query, text),
    ensures
        search_outcome(first) == search_outcome(second),
        first is Ok <==> second is Ok,
        first is Ok ==> first->Ok_0.deep_view() == second->Ok_0.deep_view(),
        first is Err ==> first->Err_0 == second->Err_0,
{
}

} // verus!
