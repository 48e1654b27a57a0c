//! Regular expressions, as the `regex` crate provides them.
//!
//! The three functions that call the crate are not proved: each states what
//! the crate's documentation promises of the call it makes. The rest of the
//! library reaches them through `Pattern`, which holds an expression that
//! `Regex::new` built and no other.

use regex::Regex;
use vstd::prelude::*;
use vstd::string::*;
use vstd::utf8::*;

verus! {

/// `regex::Regex`, a compiled expression, of which nothing is known but the
/// pattern that `Regex::new` built it from.
#[verifier::external_type_specification]
#[verifier::external_body]
pub struct ExRegex(Regex);

/// The pattern text that `Regex::new` was given when it built the
/// expression. Nothing is said of an expression built in any other way.
pub uninterp spec fn regex_source(re: Regex) -> Seq<char>;

/// Whether `Regex::new` accepts the pattern.
pub uninterp spec fn pattern_compiles(pattern: Seq<char>) -> bool;

/// The byte ranges of the successive non-overlapping matches of the pattern
/// in the haystack, in the order in which `Regex::find_iter` yields them.
pub uninterp spec fn regex_matches(pattern: Seq<char>, haystack: Seq<char>) -> Seq<(usize, usize)>;

/// Whether the pattern matches anywhere in the haystack (`Regex::is_match`).
pub uninterp spec fn regex_is_match(pattern: Seq<char>, haystack: Seq<char>) -> bool;

/// What the documentation of `Match::start` and `Match::end` guarantees of
/// every match, and that of `Regex::find_iter` of their sequence: each range
/// lies inside the haystack with its start not after its end, both ends fall
/// between characters, and no match begins before the one ahead of it ends.
pub open spec fn matches_in_order(ms: Seq<(usize, usize)>, bytes: Seq<u8>) -> bool {
    &&& forall|i: int|
        0 <= i < ms.len() ==> {
            &&& (#[trigger] ms[i]).0 <= ms[i].1 <= bytes.len()
            &&& is_char_boundary(bytes, ms[i].0 as int)
            &&& is_char_boundary(bytes, ms[i].1 as int)
        }
    &&& forall|i: int, j: int| 0 <= i < j < ms.len() ==> (#[trigger] ms[i]).1 <= (#[trigger] ms[j]).0
}

/// `Regex::new`: compiles a pattern, with nothing in place of an expression
/// where the pattern is refused. Whether a pattern is accepted depends on
/// the pattern alone; a compiled expression remembers the pattern it came
/// from.
#[verifier::external_body]
fn compile(pattern: &str) -> (r: Option<Regex>)
    ensures
        r is Some <==> pattern_compiles(pattern@),
        r matches Some(re) ==> regex_source(re) == pattern@,
{
    Regex::new(pattern).ok()
}

/// `Regex::find_iter`, with each `Match` turned into its `(start, end)` byte
/// offsets: the matches of the expression in the haystack, in order.
#[verifier::external_body]
fn find_all(re: &Regex, haystack: &str) -> (r: Vec<(usize, usize)>)
    ensures
        r@ == regex_matches(regex_source(*re), haystack@),
        matches_in_order(r@, haystack.spec_bytes()),
{
    re.find_iter(haystack).map(|m| (m.start(), m.end())).collect()
}

/// `Regex::is_match`: whether the expression matches anywhere in the haystack.
#[verifier::external_body]
fn is_match(re: &Regex, haystack: &str) -> (r: bool)
    ensures
        r == regex_is_match(regex_source(*re), haystack@),
{
    re.is_match(haystack)
}

/// A compiled pattern. The only way to one is `Pattern::new`, so the
/// expression inside is always one that `Regex::new` built from the
/// pattern's text.
pub struct Pattern {
    re: Regex,
}

impl Pattern {
    /// The text of the pattern.
    pub closed spec fn source(&self) -> Seq<char> {
        regex_source(self.re)
    }

    /// Compiles a pattern, if it is one.
    pub fn new(pattern: &str) -> (r: Option<Pattern>)
        ensures
            r is Some <==> pattern_compiles(pattern@),
            r matches Some(p) ==> p.source() == pattern@,
    {
        match compile(pattern) {
            Some(re) => Some(Pattern { re }),
            None => None,
        }
    }

    /// The byte ranges of the matches of the pattern in a text, in order.
    pub fn find_all(&self, haystack: &str) -> (r: Vec<(usize, usize)>)
        ensures
            r@ == regex_matches(self.source(), haystack@),
            matches_in_order(r@, haystack.spec_bytes()),
    {
        find_all(&self.re, haystack)
    }

    /// Whether the pattern matches anywhere in a text.
    pub fn is_match(&self, haystack: &str) -> (r: bool)
        ensures
            r == regex_is_match(self.source(), haystack@),
    {
        is_match(&self.re, haystack)
    }
}

} // verus!
