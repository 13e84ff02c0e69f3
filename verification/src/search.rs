//! Search patterns: regular expressions, matched without regard to case.

use vstd::prelude::*;
use vstd::string::*;
use vstd::utf8::is_char_boundary;

verus! {

/// Whether a pattern is one that the expression engine accepts.
pub uninterp spec fn pattern_compiles(pattern: Seq<char>) -> bool;

/// Whether a pattern, letter case aside, matches somewhere in a text.
pub uninterp spec fn pattern_matches(pattern: Seq<char>, text: Seq<char>) -> bool;

/// The matches of a pattern in a text, letter case aside, first to last and
/// not overlapping: of each the byte offsets where it starts and where it
/// ends.
pub uninterp spec fn pattern_finds(pattern: Seq<char>, text: Seq<char>) -> Seq<(usize, usize)>;

/// `regex::RegexBuilder::new` on the pattern, `case_insensitive(true)`, then
/// `build`. Trusted: whether the build succeeds depends on the pattern alone.
#[verifier::external_body]
fn compiles(pattern: &str) -> (ok: bool)
    ensures
        ok == pattern_compiles(pattern@),
{
    regex::RegexBuilder::new(pattern).case_insensitive(true).build().is_ok()
}

/// `regex::Regex::is_match` of the expression built as in `compiles`, for a
/// pattern that builds. Trusted: the answer depends on the pattern and the
/// text alone.
#[verifier::external_body]
fn is_match(pattern: &str, text: &str) -> (found: bool)
    requires
        pattern_compiles(pattern@),
    ensures
        found == pattern_matches(pattern@, text@),
{
    match regex::RegexBuilder::new(pattern).case_insensitive(true).build() {
        Ok(expression) => expression.is_match(text),
        Err(_) => false,
    }
}

/// `regex::Regex::find_iter` of the expression built as in `compiles`, for a
/// pattern that builds, with `Match::start` and `Match::end` of each match.
/// Trusted: the matches depend on the pattern and the text alone; each starts
/// no later than it ends, both offsets lie within the text on character
/// boundaries, and a match starts no earlier than the one before it ends.
#[verifier::external_body]
fn find_iter(pattern: &str, text: &str) -> (found: Vec<(usize, usize)>)
    requires
        pattern_compiles(pattern@),
    ensures
        found@ == pattern_finds(pattern@, text@),
        well_placed(found@, text.spec_bytes()),
{
    match regex::RegexBuilder::new(pattern).case_insensitive(true).build() {
        Ok(expression) => expression.find_iter(text).map(|m| (m.start(), m.end())).collect(),
        Err(_) => Vec::new(),
    }
}

/// The ranges lie within `bytes` on character boundaries, each starts no
/// later than it ends, and each starts no earlier than the one before it
/// ends.
pub open spec fn well_placed(ranges: Seq<(usize, usize)>, bytes: Seq<u8>) -> bool {
    &&& forall|i: int|
        0 <= i < ranges.len() ==> {
            &&& (#[trigger] ranges[i]).0 <= ranges[i].1 <= bytes.len()
            &&& is_char_boundary(bytes, ranges[i].0 as int)
            &&& is_char_boundary(bytes, ranges[i].1 as int)
        }
    &&& forall|i: int|
        0 <= i < ranges.len() - 1 ==> (#[trigger] ranges[i]).1 <= ranges[i + 1].0
}

/// A search pattern that the expression engine accepts.
#[derive(Debug)]
pub struct Query {
    pattern: String,
}

impl View for Query {
    type V = Seq<char>;

    closed spec fn view(&self) -> Seq<char> {
        self.pattern@
    }
}

impl DeepView for Query {
    type V = Seq<char>;

    open spec fn deep_view(&self) -> Seq<char> {
        self@
    }
}

impl Clone for Query {
    fn clone(&self) -> (copy: Query)
        ensures
            copy@ == self@,
    {
        proof {
            use_type_invariant(self);
        }
        Query { pattern: self.pattern.clone() }
    }
}

impl Query {
    #[verifier::type_invariant]
    spec fn accepted(self) -> bool {
        pattern_compiles(self.pattern@)
    }

    /// The query for `pattern`, or nothing if the engine rejects the pattern.
    pub fn new(pattern: &str) -> (query: Option<Query>)
        ensures
            match query {
                Some(q) => q@ == pattern@ && pattern_compiles(pattern@),
                None => !pattern_compiles(pattern@),
            },
    {
        if compiles(pattern) {
            Some(Query { pattern: String::from_str(pattern) })
        } else {
            None
        }
    }

    /// The pattern as it was written.
    pub fn as_str(&self) -> (pattern: &str)
        ensures
            pattern@ == self@,
    {
        self.pattern.as_str()
    }

    /// Whether the pattern matches somewhere in `text`.
    pub fn is_match(&self, text: &str) -> (found: bool)
        ensures
            found == pattern_matches(self@, text@),
    {
        proof {
            use_type_invariant(self);
        }
        is_match(self.pattern.as_str(), text)
    }

    /// The matches of the pattern in `text`, first to last, as byte ranges.
    pub fn find_all(&self, text: &str) -> (found: Vec<(usize, usize)>)
        ensures
            found@ == pattern_finds(self@, text@),
            well_placed(found@, text.spec_bytes()),
    {
        proof {
            use_type_invariant(self);
        }
        find_iter(self.pattern.as_str(), text)
    }
}

} // verus!
