//! Free-text search: the case-insensitive pattern that a query compiles to,
//! and matching names against it.
use regex::{Regex, RegexBuilder};
use vstd::prelude::*;
use vstd::string::{StrSliceExecFns, StringExecFns};

use crate::text::chars_of;

verus! {

#[verifier::external_type_specification]
#[verifier::external_body]
pub struct ExRegex(regex::Regex);

#[verifier::external_type_specification]
#[verifier::external_body]
pub struct ExRegexError(regex::Error);

/// Whether a case-insensitive, Unicode-aware regular expression compiles
/// from `pattern`.
pub uninterp spec fn ci_regex_valid(pattern: Seq<char>) -> bool;

/// Whether the case-insensitive, Unicode-aware regular expression compiled
/// from `pattern` matches somewhere in `text`.
pub uninterp spec fn ci_regex_matches(pattern: Seq<char>, text: Seq<char>) -> bool;

/// Whether a character has the Unicode White_Space property: the controls
/// U+0009 to U+000D, space, U+0085, no-break space, U+1680, U+2000 to U+200A,
/// the line and paragraph separators, U+202F, U+205F and U+3000.
pub open spec fn white_space(c: char) -> bool {
    let u = c as u32;
    (0x9 <= u && u <= 0xD) || u == 0x20 || u == 0x85 || u == 0xA0 || u == 0x1680 || (0x2000 <= u && u <= 0x200A)
        || u == 0x2028 || u == 0x2029 || u == 0x202F || u == 0x205F || u == 0x3000
}

/// The characters that regular expression syntax gives a meaning to.
pub open spec fn is_meta(c: char) -> bool {
    c == '\\' || c == '.' || c == '+' || c == '*' || c == '?' || c == '(' || c == ')' || c == '|'
        || c == '[' || c == ']' || c == '{' || c == '}' || c == '^' || c == '$' || c == '#'
        || c == '&' || c == '-' || c == '~'
}

/// `s` with a backslash before each meta character.
pub open spec fn escaped(s: Seq<char>) -> Seq<char>
    decreases s.len(),
{
    if s.len() == 0 {
        Seq::empty()
    } else if is_meta(s.last()) {
        escaped(s.drop_last()) + seq!['\\', s.last()]
    } else {
        escaped(s.drop_last()) + seq![s.last()]
    }
}

/// The gap pattern of `s`: its words, each followed by `.*`, with the white
/// space between them dropped. `in_word` says whether a word is open.
pub open spec fn gaps(s: Seq<char>, in_word: bool) -> Seq<char>
    decreases s.len(),
{
    if s.len() == 0 {
        if in_word { seq!['.', '*'] } else { Seq::empty() }
    } else if white_space(s[0]) {
        (if in_word { seq!['.', '*'] } else { Seq::empty() }) + gaps(s.drop_first(), false)
    } else {
        seq![s[0]] + gaps(s.drop_first(), true)
    }
}

/// The pattern that a search query compiles to: the query's words, taken
/// literally, in order, with anything between them.
pub open spec fn query_pattern(query: Seq<char>) -> Seq<char> {
    gaps(escaped(query), false)
}

/// Relies on `regex::escape`: a backslash goes before each meta character
/// (regex-syntax's `is_meta_character`), every other character stays.
#[verifier::external_body]
fn escape(s: &str) -> (r: String)
    ensures
        r@ == escaped(s@),
{
    regex::escape(s)
}

/// Relies on `char::is_whitespace`, which is true exactly for the characters
/// with the Unicode White_Space property.
#[verifier::external_body]
fn is_white_space(c: char) -> (r: bool)
    ensures
        r == white_space(c),
{
    c.is_whitespace()
}

/// Relies on `RegexBuilder::build` with case-insensitive and Unicode matching
/// switched on: it succeeds exactly for the patterns that compile.
#[verifier::external_body]
fn build_ci(pattern: &str) -> (r: Result<Regex, regex::Error>)
    ensures
        r is Ok <==> ci_regex_valid(pattern@),
{
    RegexBuilder::new(pattern).case_insensitive(true).unicode(true).build()
}

/// A compiled case-insensitive pattern, with the text it was compiled from.
pub struct Matcher {
    source: String,
    regex: Regex,
}

impl Matcher {
    /// The pattern text this matcher was compiled from.
    pub closed spec fn source(&self) -> Seq<char> {
        self.source@
    }

    pub fn source_str(&self) -> (r: &str)
        ensures
            r@ == self.source(),
    {
        self.source.as_str()
    }

    /// Compiles `pattern` case-insensitively; `None` where it does not
    /// compile.
    pub fn compile(pattern: &str) -> (r: Option<Matcher>)
        ensures
            r is Some <==> ci_regex_valid(pattern@),
            r matches Some(m) ==> m.source() == pattern@,
    {
        match build_ci(pattern) {
            Ok(regex) => Some(Matcher { source: pattern.to_owned(), regex }),
            Err(_) => None,
        }
    }

    /// Whether the pattern matches somewhere in `text`.
    pub fn is_match(&self, text: &str) -> (r: bool)
        ensures
            r == ci_regex_matches(self.source(), text@),
    {
        regex_is_match(self, text)
    }
}

/// Relies on `Regex::is_match`. The regex of a `Matcher` is only ever built
/// by `Matcher::compile`, from the matcher's own source, case-insensitively.
#[verifier::external_body]
fn regex_is_match(m: &Matcher, text: &str) -> (r: bool)
    ensures
        r == ci_regex_matches(m.source(), text@),
{
    m.regex.is_match(text)
}

/// Builds the gap pattern of a search query: the query's words, escaped,
/// each followed by `.*`.
pub fn match_pattern(needle: &str) -> (r: String)
    ensures
        r@ == query_pattern(needle@),
{
    let esc = escape(needle);
    let cs = chars_of(esc.as_str());
    let ghost e = esc@;
    let mut r = String::new();
    let mut in_word = false;
    let mut start: usize = 0;
    let mut i: usize = 0;
    proof {
        reveal_strlit(".*");
        assert(e.skip(0) =~= e);
    }
    while i < cs.len()
        invariant
            cs@ == e,
            esc@ == e,
            i <= e.len(),
            start <= i,
            !in_word ==> start == i,
            r@ + (if in_word { e.subrange(start as int, i as int) } else { Seq::empty() }) + gaps(e.skip(i as int), in_word)
                == gaps(e, false),
            ".*"@ == seq!['.', '*'],
        decreases e.len() - i,
    {
        let c = cs[i];
        let ghost rest = e.skip(i as int);
        assert(rest[0] == c);
        assert(rest.drop_first() =~= e.skip(i + 1));
        if is_white_space(c) {
            if in_word {
                r.append(esc.as_str().substring_char(start, i));
                r.append(".*");
                in_word = false;
            }
            start = i + 1;
        } else {
            if !in_word {
                in_word = true;
                start = i;
            }
            assert(e.subrange(start as int, i + 1) =~= e.subrange(start as int, i as int).push(c));
        }
        proof {
            assert(r@ + (if in_word { e.subrange(start as int, i + 1) } else { Seq::empty() }) + gaps(e.skip(i + 1), in_word)
                =~= gaps(e, false));
        }
        i = i + 1;
    }
    if in_word {
        r.append(esc.as_str().substring_char(start, i));
        r.append(".*");
    }
    assert(e.skip(i as int) =~= Seq::<char>::empty());
    assert(r@ =~= gaps(e, false));
    r
}

/// Compiles a search query into a matcher: its words must appear in order,
/// with anything between them, in any case.
pub fn create_match_regex(needle: &str) -> (r: Option<Matcher>)
    ensures
        r is Some <==> ci_regex_valid(query_pattern(needle@)),
        r matches Some(m) ==> m.source() == query_pattern(needle@),
{
    let pattern = match_pattern(needle);
    Matcher::compile(pattern.as_str())
}

} // verus!
