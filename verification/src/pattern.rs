//! Regular expressions, through the `regex` crate.
//!
//! Matching is the `regex` crate's work and is not restated here: its results
//! are named by the spec functions below, as functions of the pattern and the
//! haystack.
use vstd::prelude::*;
use regex::Regex;

verus! {

/// `regex::Regex`, carried as an opaque value.
#[verifier::external_type_specification]
#[verifier::external_body]
pub struct ExRegex(Regex);

/// Whether `regex::Regex::new` accepts `pattern`.
pub uninterp spec fn regex_compiles(pattern: Seq<char>) -> bool;

/// What `regex::Regex::is_match` answers for a regex built from `pattern`.
pub uninterp spec fn regex_is_match(pattern: Seq<char>, haystack: Seq<char>) -> bool;

/// The texts of the matches that `regex::Regex::find_iter` yields, in order,
/// for a regex built from `pattern`.
pub uninterp spec fn regex_find_all(pattern: Seq<char>, haystack: Seq<char>) -> Seq<Seq<char>>;

/// A compiled regular expression together with the pattern it was built from.
pub(crate) struct Pattern {
    re: Regex,
    source: String,
}

impl View for Pattern {
    type V = Seq<char>;

    closed spec fn view(&self) -> Seq<char> {
        self.source@
    }
}

/// Compiles `pattern` with `regex::Regex::new`. Claimed of it: it succeeds
/// exactly when `regex_compiles(pattern)`, and the compiled value remembers
/// `pattern` as its source.
#[verifier::external_body]
pub(crate) fn compile(pattern: &str) -> (r: Option<Pattern>)
    ensures
        r is Some <==> regex_compiles(pattern@),
        r matches Some(p) ==> p@ == pattern@,
{
    match Regex::new(pattern) {
        Ok(re) => Some(Pattern { re, source: pattern.to_string() }),
        Err(_) => None,
    }
}

/// `regex::Regex::is_match`. Claimed of it: the answer is `regex_is_match`
/// of the regex's source and the haystack.
#[verifier::external_body]
pub(crate) fn is_match(p: &Pattern, haystack: &str) -> (r: bool)
    ensures
        r == regex_is_match(p@, haystack@),
{
    p.re.is_match(haystack)
}

/// `regex::Regex::find_iter`, each match taken as its text. Claimed of it:
/// the texts are `regex_find_all` of the regex's source and the haystack.
#[verifier::external_body]
pub(crate) fn find_all(p: &Pattern, haystack: &str) -> (r: Vec<String>)
    ensures
        r@.map_values(|m: String| m@) == regex_find_all(p@, haystack@),
{
    p.re.find_iter(haystack).map(|m| m.as_str().to_string()).collect()
}

} // verus!
