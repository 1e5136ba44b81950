//! What this library takes on trust: the regular-expression engine of the `regex` crate
//! and the lower-casing of the standard library. Nothing in this file is proved. Each
//! item names one outside function and says what the rest of the library assumes of it.
use vstd::prelude::*;
use regex::{Error, Regex};

verus! {

/// `regex::Regex`, a compiled pattern. Its inside is not visible to the proofs.
#[verifier::external_type_specification]
#[verifier::external_body]
pub struct ExRegex(regex::Regex);

/// `regex::Error`, the reason why a pattern was not compiled. Its inside is not visible
/// to the proofs.
#[verifier::external_type_specification]
#[verifier::external_body]
pub struct ExRegexError(regex::Error);

/// What `Regex::new` returns for `pattern`: the compiled pattern, or the error for a
/// pattern that is malformed or too big to compile.
pub uninterp spec fn compiled(pattern: Seq<char>) -> Result<Regex, Error>;

/// What `Regex::is_match` returns for `re` and `haystack`: whether the pattern matches
/// somewhere in the haystack.
pub uninterp spec fn accepts(re: Regex, haystack: Seq<char>) -> bool;

/// What `str::to_lowercase` returns for `text`: its lower-case form under the Unicode
/// rules that std follows, independent of any locale.
pub uninterp spec fn lowercased(text: Seq<char>) -> Seq<char>;

/// `Regex::new` compiles a pattern with the default settings. Assumed: the outcome
/// depends on the pattern alone, so that it can be called `compiled(pattern)`.
pub assume_specification[ Regex::new ](re: &str) -> (outcome: Result<Regex, Error>)
    ensures
        outcome == compiled(re@),
;

/// `Regex::is_match` searches the haystack for a match, unanchored. Assumed: the answer
/// depends on the compiled pattern and the haystack alone, so that it can be called
/// `accepts(re, haystack)`.
pub assume_specification[ Regex::is_match ](re: &Regex, haystack: &str) -> (found: bool)
    ensures
        found == accepts(*re, haystack@),
;

/// `str::to_lowercase` gives the lower-case form of a text as a new `String`. Assumed:
/// the result depends on the text alone, so that it can be called `lowercased(text)`.
pub assume_specification[ str::to_lowercase ](s: &str) -> (lower: String)
    ensures
        lower@ == lowercased(s@),
;

} // verus!
