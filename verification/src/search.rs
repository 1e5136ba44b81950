//! The three ways of choosing lines from a text: by a literal query, by a query compared
//! without regard to case, and by a regular expression.
use vstd::prelude::*;
use regex::{Error, Regex};
use crate::engine::{accepts, compiled, lowercased};
use crate::lines::Lines;
use crate::substring::contains;
use crate::text::{lemma_empty_occurs, lines_of, occurs_in};

verus! {

/// Why a search could not be made.
#[derive(Debug)]
pub enum SearchError {
    /// The pattern is not a regular expression that the engine compiles.
    PatternCompile(Error),
}

/// The test "contains `query`" on a line.
pub open spec fn holds_query(query: Seq<char>) -> spec_fn(Seq<char>) -> bool {
    |line: Seq<char>| occurs_in(query, line)
}

/// The test "contains `query` when case is disregarded" on a line: the lower-case form
/// of the line contains the lower-case form of the query.
pub open spec fn holds_query_folded(query: Seq<char>) -> spec_fn(Seq<char>) -> bool {
    |line: Seq<char>| occurs_in(lowercased(query), lowercased(line))
}

/// The test "is matched somewhere by `re`" on a line.
pub open spec fn holds_pattern(re: Regex) -> spec_fn(Seq<char>) -> bool {
    |line: Seq<char>| accepts(re, line)
}

/// The lines of `text` that contain `query`, in the order of the text.
pub open spec fn literal_matches(query: Seq<char>, text: Seq<char>) -> Seq<Seq<char>> {
    lines_of(text).filter(holds_query(query))
}

/// The lines of `text` that contain `query` when case is disregarded, in the order of
/// the text.
pub open spec fn case_insensitive_matches(query: Seq<char>, text: Seq<char>) -> Seq<Seq<char>> {
    lines_of(text).filter(holds_query_folded(query))
}

/// The lines of `text` in which `re` finds a match, in the order of the text.
pub open spec fn pattern_matches(re: Regex, text: Seq<char>) -> Seq<Seq<char>> {
    lines_of(text).filter(holds_pattern(re))
}

/// What a search by regular expression gives: the matching lines, or the engine's error
/// for a pattern that it does not compile.
pub open spec fn regex_matches(pattern: Seq<char>, text: Seq<char>) -> Result<
    Seq<Seq<char>>,
    Error,
> {
    match compiled(pattern) {
        Ok(re) => Ok(pattern_matches(re, text)),
        Err(cause) => Err(cause),
    }
}

/// A search's result as the contracts speak of it: the chosen lines as texts, or the
/// engine's error.
pub open spec fn search_outcome(found: Result<Vec<&str>, SearchError>) -> Result<
    Seq<Seq<char>>,
    Error,
> {
    match found {
        Ok(lines) => Ok(lines.deep_view()),
        Err(SearchError::PatternCompile(cause)) => Err(cause),
    }
}

/// One step of a selection: with `kept` chosen so far and `remaining` still to look at,
/// deciding on the first remaining line keeps the whole selection the same.
proof fn lemma_select_step(
    kept: Seq<Seq<char>>,
    remaining: Seq<Seq<char>>,
    wanted: spec_fn(Seq<char>) -> bool,
)
    requires
        remaining.len() > 0,
    ensures
        wanted(remaining[0]) ==> kept.push(remaining[0]) + remaining.drop_first().filter(wanted)
            == kept + remaining.filter(wanted),
        !wanted(remaining[0]) ==> kept + remaining.drop_first().filter(wanted) == kept
            + remaining.filter(wanted),
{
    let first = seq![remaining[0]];
    let rest = remaining.drop_first();
    assert(remaining =~= first + rest);
    Seq::filter_distributes_over_add(first, rest, wanted);
    reveal_with_fuel(Seq::filter, 2);
    assert(first.drop_last() =~= Seq::<Seq<char>>::empty());
    if wanted(remaining[0]) {
        assert(first.filter(wanted) =~= first);
        assert(kept.push(remaining[0]) + rest.filter(wanted) =~= kept + (first + rest.filter(
            wanted,
        )));
    } else {
        assert(first.filter(wanted) =~= Seq::<Seq<char>>::empty());
        assert(kept + rest.filter(wanted) =~= kept + (first.filter(wanted) + rest.filter(wanted)));
    }
}

/// The end of a selection: with nothing left to look at, what was kept is the selection.
proof fn lemma_select_done(
    kept: Seq<Seq<char>>,
    remaining: Seq<Seq<char>>,
    wanted: spec_fn(Seq<char>) -> bool,
)
    requires
        remaining.len() == 0,
    ensures
        kept + remaining.filter(wanted) == kept,
{
    reveal(Seq::filter);
    assert(kept + remaining.filter(wanted) =~= kept);
}

/// With an empty query every line is chosen.
pub proof fn lemma_empty_query_matches_all(query: Seq<char>, text: Seq<char>)
    requires
        query.len() == 0,
    ensures
        literal_matches(query, text) == lines_of(text),
{
    let lines = lines_of(text);
    let wanted = holds_query(query);
    assert forall|i: int| 0 <= i < lines.len() implies wanted(#[trigger] lines[i]) by {
        lemma_empty_occurs(query, lines[i]);
    }
    lemma_filter_all(lines, wanted);
}

/// A selection whose test holds of every line keeps every line.
proof fn lemma_filter_all(lines: Seq<Seq<char>>, wanted: spec_fn(Seq<char>) -> bool)
    requires
        forall|i: int| 0 <= i < lines.len() ==> wanted(#[trigger] lines[i]),
    ensures
        lines.filter(wanted) == lines,
    decreases lines.len(),
{
    reveal(Seq::filter);
    if lines.len() > 0 {
        lemma_filter_all(lines.drop_last(), wanted);
        assert(lines.drop_last().push(lines.last()) =~= lines);
    }
}

/// The lines of `contents` that contain `query`, character for character, in the order
/// in which they stand in `contents`. Each line is a slice of `contents`.
pub fn search<'a>(query: &str, contents: &'a str) -> (results: Vec<&'a str>)
    ensures
        results.deep_view() == literal_matches(query@, contents@),
        query@.len() == 0 ==> results.deep_view() == lines_of(contents@),
{
    let ghost wanted = holds_query(query@);
    let mut results: Vec<&'a str> = Vec::new();
    let mut lines = Lines::new(contents);
    assert(results.deep_view() =~= Seq::<Seq<char>>::empty());
    loop
        invariant
            wanted == holds_query(query@),
            results.deep_view() + lines@.filter(wanted) == lines_of(contents@).filter(wanted),
        decreases lines@.len(),
    {
        let ghost kept = results.deep_view();
        let ghost remaining = lines@;
        match lines.next_line() {
            Some(line) => {
                proof {
                    lemma_select_step(kept, remaining, wanted);
                }
                if contains(line, query) {
                    results.push(line);
                    assert(results.deep_view() =~= kept.push(line@));
                }
            },
            None => {
                proof {
                    lemma_select_done(kept, remaining, wanted);
                    if query@.len() == 0 {
                        lemma_empty_query_matches_all(query@, contents@);
                    }
                }
                return results;
            },
        }
    }
}

/// The lines of `contents` that contain `query` when case is disregarded: those whose
/// lower-case form contains the lower-case form of `query`. The lines come in the order
/// in which they stand in `contents`, each as a slice of it, in its own spelling.
pub fn search_case_insensitive<'a>(query: &str, contents: &'a str) -> (results: Vec<&'a str>)
    ensures
        results.deep_view() == case_insensitive_matches(query@, contents@),
{
    let needle = query.to_lowercase();
    let ghost wanted = holds_query_folded(query@);
    let mut results: Vec<&'a str> = Vec::new();
    let mut lines = Lines::new(contents);
    assert(results.deep_view() =~= Seq::<Seq<char>>::empty());
    loop
        invariant
            wanted == holds_query_folded(query@),
            needle@ == lowercased(query@),
            results.deep_view() + lines@.filter(wanted) == lines_of(contents@).filter(wanted),
        decreases lines@.len(),
    {
        let ghost kept = results.deep_view();
        let ghost remaining = lines@;
        match lines.next_line() {
            Some(line) => {
                proof {
                    lemma_select_step(kept, remaining, wanted);
                }
                if contains(line.to_lowercase().as_str(), needle.as_str()) {
                    results.push(line);
                    assert(results.deep_view() =~= kept.push(line@));
                }
            },
            None => {
                proof {
                    lemma_select_done(kept, remaining, wanted);
                }
                return results;
            },
        }
    }
}

/// The lines of `contents` in which the compiled pattern `re` finds a match, in the
/// order in which they stand in `contents`, each as a slice of it.
pub fn search_with_compiled<'a>(re: &Regex, contents: &'a str) -> (results: Vec<&'a str>)
    ensures
        results.deep_view() == pattern_matches(*re, contents@),
{
    let ghost wanted = holds_pattern(*re);
    let mut results: Vec<&'a str> = Vec::new();
    let mut lines = Lines::new(contents);
    assert(results.deep_view() =~= Seq::<Seq<char>>::empty());
    loop
        invariant
            wanted == holds_pattern(*re),
            results.deep_view() + lines@.filter(wanted) == lines_of(contents@).filter(wanted),
        decreases lines@.len(),
    {
        let ghost kept = results.deep_view();
        let ghost remaining = lines@;
        match lines.next_line() {
            Some(line) => {
                proof {
                    lemma_select_step(kept, remaining, wanted);
                }
                if re.is_match(line) {
                    results.push(line);
                    assert(results.deep_view() =~= kept.push(line@));
                }
            },
            None => {
                proof {
                    lemma_select_done(kept, remaining, wanted);
                }
                return results;
            },
        }
    }
}

/// The lines of `contents` in which the regular expression `pattern` finds a match, in
/// the order in which they stand in `contents`, each as a slice of it. The pattern is
/// compiled once, before any line is looked at; where the engine does not compile
/// it, the engine's error is returned and no line is.
pub fn search_with_regex<'a>(pattern: &str, contents: &'a str) -> (found: Result<
    Vec<&'a str>,
    SearchError,
>)
    ensures
        search_outcome(found) == regex_matches(pattern@, contents@),
        found is Err <==> compiled(pattern@) is Err,
{
    match Regex::new(pattern) {
        Ok(re) => Ok(search_with_compiled(&re, contents)),
        Err(cause) => Err(SearchError::PatternCompile(cause)),
    }
}

/// Whether the text of an error tells of a pattern that could not be parsed, so that a
/// hint on pattern syntax is in place.
pub fn wants_pattern_hint(message: &str) -> (wanted: bool)
    ensures
        wanted == occurs_in("regex parse error"@, message@),
{
    contains(message, "regex parse error")
}

/// The literal matches are exactly the lines that contain the query: a text is among
/// them if and only if it is a line of the searched text and the query occurs in it.
pub proof fn lemma_literal_matches_are_the_lines_with_query(query: Seq<char>, text: Seq<char>)
    ensures
        forall|line: Seq<char>| #[trigger]
            literal_matches(query, text).contains(line) <==> lines_of(text).contains(line)
                && occurs_in(query, line),
{
    let lines = lines_of(text);
    let wanted = holds_query(query);
    assert forall|line: Seq<char>| #[trigger]
        literal_matches(query, text).contains(line) <==> lines.contains(line) && occurs_in(
            query,
            line,
        ) by {
        if lines.filter(wanted).contains(line) {
            lines.lemma_filter_contains_rev(wanted, line);
        }
        if lines.contains(line) && occurs_in(query, line) {
            let at = choose|at: int| 0 <= at < lines.len() && lines[at] == line;
            lines.lemma_filter_contains(wanted, at);
        }
    }
}

/// Choosing by `narrow` among the lines chosen by `wide` is choosing by `narrow` alone,
/// as long as `narrow` holds of no line of which `wide` does not.
proof fn lemma_filter_within(
    lines: Seq<Seq<char>>,
    wide: spec_fn(Seq<char>) -> bool,
    narrow: spec_fn(Seq<char>) -> bool,
)
    requires
        forall|i: int| 0 <= i < lines.len() && narrow(#[trigger] lines[i]) ==> wide(lines[i]),
    ensures
        lines.filter(wide).filter(narrow) == lines.filter(narrow),
    decreases lines.len(),
{
    reveal(Seq::filter);
    if lines.len() > 0 {
        let front = lines.drop_last();
        let last = lines.last();
        lemma_filter_within(front, wide, narrow);
        if wide(last) {
            let chosen = front.filter(wide).push(last);
            assert(chosen.drop_last() =~= front.filter(wide));
        }
    }
}

/// Disregarding case finds at least what the literal search finds, for a query and a
/// text in which lower-casing loses no match: every line that contains the query still
/// contains it when both are in lower case. The literal matches are then the
/// case-insensitive matches that contain the query as it is written, so each of them
/// is among the case-insensitive matches, and in the same order.
pub proof fn lemma_case_insensitive_covers_literal(query: Seq<char>, text: Seq<char>)
    requires
        forall|i: int|
            0 <= i < lines_of(text).len() && occurs_in(query, #[trigger] lines_of(text)[i])
                ==> occurs_in(lowercased(query), lowercased(lines_of(text)[i])),
    ensures
        literal_matches(query, text) == case_insensitive_matches(query, text).filter(
            holds_query(query),
        ),
        forall|line: Seq<char>| #[trigger]
            literal_matches(query, text).contains(line) ==> case_insensitive_matches(
                query,
                text,
            ).contains(line),
        literal_matches(query, text).len() <= case_insensitive_matches(query, text).len(),
{
    let lines = lines_of(text);
    let folded = case_insensitive_matches(query, text);
    lemma_filter_within(lines, holds_query_folded(query), holds_query(query));
    folded.lemma_filter_len(holds_query(query));
    assert forall|line: Seq<char>| #[trigger]
        literal_matches(query, text).contains(line) implies folded.contains(line) by {
        folded.lemma_filter_contains_rev(holds_query(query), line);
    }
}

} // verus!
