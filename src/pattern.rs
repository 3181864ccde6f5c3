//! The query pattern: tokens, each taken literally, in order, anywhere in a
//! location, ignoring case; matched by the regex crate.

use vstd::prelude::*;
use regex::Regex;

verus! {

#[verifier::external_type_specification]
#[verifier::external_body]
pub struct ExRegex(regex::Regex);

#[verifier::external_type_specification]
#[verifier::external_body]
pub struct ExRegexError(regex::Error);

/// The characters that have a meaning in a pattern.
pub open spec fn is_meta(c: char) -> bool {
    c == '\\' || c == '.' || c == '+' || c == '*' || c == '?' || c == '(' || c == ')' || c == '|'
        || c == '[' || c == ']' || c == '{' || c == '}' || c == '^' || c == '$' || c == '#' || c
        == '&' || c == '-' || c == '~'
}

/// `s` with a backslash before each meta character, so that it matches itself.
pub open spec fn escaped(s: Seq<char>) -> Seq<char>
    decreases s.len(),
{
    if s.len() == 0 {
        Seq::empty()
    } else {
        let c = s.last();
        escaped(s.drop_last()) + if is_meta(c) {
            seq!['\\', c]
        } else {
            seq![c]
        }
    }
}

/// The parts with `sep` between each two.
pub open spec fn joined(parts: Seq<Seq<char>>, sep: Seq<char>) -> Seq<char>
    decreases parts.len(),
{
    if parts.len() == 0 {
        Seq::empty()
    } else if parts.len() == 1 {
        parts[0]
    } else {
        joined(parts.drop_last(), sep) + sep + parts.last()
    }
}

/// Any text: the pattern that stands before, between and after the tokens.
pub open spec fn any_text() -> Seq<char> {
    seq!['.', '*']
}

/// The pattern of a query: case-insensitive, each token escaped, any text around
/// and between them.
pub open spec fn query_pattern(tokens: Seq<Seq<char>>) -> Seq<char> {
    seq!['(', '?', 'i', ')'] + any_text() + joined(tokens.map_values(|t: Seq<char>| escaped(t)), any_text())
        + any_text()
}

/// Whether the regex crate accepts `pattern` (it is well formed and within the
/// default size limit).
pub uninterp spec fn regex_compiles(pattern: Seq<char>) -> bool;

/// Whether the regex compiled from `pattern` finds a match in `text`.
pub uninterp spec fn regex_finds(pattern: Seq<char>, text: Seq<char>) -> bool;

/// Relies on regex::escape: a backslash is put before each character for which
/// `regex_syntax::is_meta_character` holds, and every character is kept in order.
#[verifier::external_body]
fn escape_token(token: &str) -> (r: String)
    ensures
        r@ == escaped(token@),
{
    regex::escape(token)
}

/// Relies on itertools::join: each part is written through `Display` (for a
/// `String`, its text) with `sep` between two parts.
#[verifier::external_body]
fn join_parts(parts: &Vec<String>, sep: &str) -> (r: String)
    ensures
        r@ == joined(parts@.map_values(|p: String| p@), sep@),
{
    itertools::join(parts, sep)
}

/// A compiled query pattern, kept with its text.
pub struct QueryMatcher {
    regex: Regex,
    source: String,
}

impl QueryMatcher {
    /// The text the matcher was compiled from.
    pub closed spec fn pattern(&self) -> Seq<char> {
        self.source@
    }
}

/// Relies on regex::Regex::new: it succeeds or fails on the pattern alone.
#[verifier::external_body]
fn compile_pattern(pattern: &str) -> (r: Result<QueryMatcher, regex::Error>)
    ensures
        r is Ok <==> regex_compiles(pattern@),
        r is Ok ==> r->Ok_0.pattern() == pattern@,
{
    match Regex::new(pattern) {
        Ok(regex) => Ok(QueryMatcher { regex, source: pattern.to_string() }),
        Err(e) => Err(e),
    }
}

/// Relies on regex::Regex::is_match, on the regex that `compile_pattern` built
/// from the matcher's own text.
#[verifier::external_body]
pub(crate) fn regex_is_match(matcher: &QueryMatcher, text: &str) -> (r: bool)
    ensures
        r == regex_finds(matcher.pattern(), text@),
{
    matcher.regex.is_match(text)
}

/// The pattern text of a query.
pub fn build_query_pattern(tokens: &[&str]) -> (r: String)
    ensures
        r@ == query_pattern(tokens@.map_values(|t: &str| t@)),
{
    let mut parts: Vec<String> = Vec::new();
    let mut i: usize = 0;
    while i < tokens.len()
        invariant
            i <= tokens@.len(),
            parts@.len() == i,
            forall|j: int| 0 <= j < i ==> #[trigger] parts@[j]@ == escaped(tokens@[j]@),
        decreases tokens@.len() - i,
    {
        parts.push(escape_token(tokens[i]));
        i = i + 1;
    }
    let body = join_parts(&parts, ".*");
    let mut pattern = String::from_str("(?i).*");
    pattern.append(body.as_str());
    pattern.append(".*");
    proof {
        reveal_strlit(".*");
        reveal_strlit("(?i).*");
        assert(parts@.map_values(|p: String| p@) =~= tokens@.map_values(|t: &str| t@).map_values(
            |t: Seq<char>| escaped(t),
        ));
        assert(".*"@ =~= any_text());
        assert("(?i).*"@ =~= seq!['(', '?', 'i', ')'] + any_text());
    }
    pattern
}

/// A matcher for `tokens`, or the regex crate's refusal of its pattern.
pub fn compile_query(tokens: &[&str]) -> (r: Result<QueryMatcher, regex::Error>)
    ensures
        r is Ok <==> regex_compiles(query_pattern(tokens@.map_values(|t: &str| t@))),
        r is Ok ==> r->Ok_0.pattern() == query_pattern(tokens@.map_values(|t: &str| t@)),
{
    let pattern = build_query_pattern(tokens);
    compile_pattern(pattern.as_str())
}

} // verus!
