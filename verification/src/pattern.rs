//! Regular expressions, and the globs that are turned into them.

use vstd::prelude::*;
use vstd::string::*;
use regex::Regex;
use regex::RegexSet;
use crate::text::string_views;

verus! {

/// `regex::Regex`: a compiled expression. It is carried about as it is.
#[verifier::external_type_specification]
#[verifier::external_body]
pub struct ExRegex(regex::Regex);

/// `regex::RegexSet`: a list of expressions compiled as one. It is carried
/// about as it is.
#[verifier::external_type_specification]
#[verifier::external_body]
pub struct ExRegexSet(regex::RegexSet);

/// `regex::Error`: why an expression did not compile.
#[verifier::external_type_specification]
#[verifier::external_body]
pub struct ExRegexError(regex::Error);

/// The expression that a compiled regex was made from.
pub uninterp spec fn regex_source(re: Regex) -> Seq<char>;

/// The expressions that a compiled set was made from, in order.
pub uninterp spec fn regex_set_sources(set: RegexSet) -> Seq<Seq<char>>;

/// Whether an expression compiles on its own.
pub uninterp spec fn regex_compiles(source: Seq<char>) -> bool;

/// Whether a list of expressions compiles as one set.
pub uninterp spec fn regex_set_compiles(sources: Seq<Seq<char>>) -> bool;

/// The byte offsets of the first match of an expression in a text, start
/// inclusive and end exclusive; `None` where it matches nowhere.
pub uninterp spec fn regex_first_match(source: Seq<char>, haystack: Seq<char>) -> Option<(int, int)>;

/// True when some expression of `sources` matches somewhere in `haystack`.
pub open spec fn any_matches(sources: Seq<Seq<char>>, haystack: Seq<char>) -> bool {
    exists|i: int| 0 <= i < sources.len() && regex_first_match(#[trigger] sources[i], haystack) is Some
}

/// `Regex::new`: compiles an expression. Succeeds exactly on the expressions
/// that compile, and the regex remembers the expression it was given.
#[verifier::external_body]
pub(crate) fn regex_new(source: &str) -> (r: Result<Regex, regex::Error>)
    ensures
        r is Ok <==> regex_compiles(source@),
        r matches Ok(re) ==> regex_source(re) == source@,
{
    Regex::new(source)
}

/// `Regex::find`: the first match in `haystack`, as byte offsets. A match
/// lies within the text, its start is not behind its end, and both fall on
/// character boundaries.
#[verifier::external_body]
pub(crate) fn regex_find(re: &Regex, haystack: &str) -> (r: Option<(usize, usize)>)
    ensures
        match r {
            Some((start, end)) => regex_first_match(regex_source(*re), haystack@) == Some(
                (start as int, end as int),
            ),
            None => regex_first_match(regex_source(*re), haystack@) is None,
        },
        r matches Some((start, end)) ==> {
            &&& start <= end <= haystack.spec_bytes().len()
            &&& vstd::utf8::is_char_boundary(haystack.spec_bytes(), start as int)
            &&& vstd::utf8::is_char_boundary(haystack.spec_bytes(), end as int)
        },
{
    re.find(haystack).map(|m| (m.start(), m.end()))
}

/// `Regex::is_match`: whether the expression matches anywhere in `haystack`,
/// which is to say whether `Regex::find` would return a match.
#[verifier::external_body]
pub(crate) fn regex_is_match(re: &Regex, haystack: &str) -> (r: bool)
    ensures
        r == (regex_first_match(regex_source(*re), haystack@) is Some),
{
    re.is_match(haystack)
}

/// `RegexSet::new`: compiles a list of expressions into one set. Succeeds
/// exactly on the lists that compile, and the set remembers the expressions
/// in the order given.
#[verifier::external_body]
pub(crate) fn regex_set_new(sources: &Vec<String>) -> (r: Result<RegexSet, regex::Error>)
    ensures
        r is Ok <==> regex_set_compiles(string_views(sources@)),
        r matches Ok(set) ==> regex_set_sources(set) == string_views(sources@),
{
    RegexSet::new(sources)
}

/// `RegexSet::is_match`: whether one of the expressions of the set matches
/// somewhere in `haystack`.
#[verifier::external_body]
pub(crate) fn regex_set_is_match(set: &RegexSet, haystack: &str) -> (r: bool)
    ensures
        r == any_matches(regex_set_sources(*set), haystack@),
{
    set.is_match(haystack)
}

/// The characters that have a meaning of their own in an expression.
pub open spec fn is_meta_character(c: char) -> bool {
    c == '\\' || c == '.' || c == '+' || c == '*' || c == '?' || c == '(' || c == ')' || c == '|'
        || c == '[' || c == ']' || c == '{' || c == '}' || c == '^' || c == '$' || c == '#'
        || c == '&' || c == '-' || c == '~'
}

/// `text` with a backslash in front of every meta character.
pub open spec fn escaped(text: Seq<char>) -> Seq<char>
    decreases text.len(),
{
    if text.len() == 0 {
        Seq::empty()
    } else if is_meta_character(text[0]) {
        seq!['\\', text[0]] + escaped(text.drop_first())
    } else {
        seq![text[0]] + escaped(text.drop_first())
    }
}

/// `text` with every occurrence of `from` replaced by `to`, going from left
/// to right and never looking again at what was already replaced.
pub open spec fn replaced(text: Seq<char>, from: Seq<char>, to: Seq<char>) -> Seq<char>
    decreases text.len(),
{
    if from.len() == 0 || text.len() < from.len() {
        text
    } else if text.subrange(0, from.len() as int) == from {
        to + replaced(text.subrange(from.len() as int, text.len() as int), from, to)
    } else {
        seq![text[0]] + replaced(text.drop_first(), from, to)
    }
}

/// `regex::escape`: puts a backslash in front of every meta character and
/// leaves the other characters as they are.
#[verifier::external_body]
pub(crate) fn regex_escape(text: &str) -> (r: String)
    ensures
        r@ == escaped(text@),
{
    regex::escape(text)
}

/// `str::replace`: replaces every match of a non-empty piece of text, found
/// from left to right without overlap, by another.
#[verifier::external_body]
pub(crate) fn str_replace(text: &str, from: &str, to: &str) -> (r: String)
    requires
        from@.len() > 0,
    ensures
        r@ == replaced(text@, from@, to@),
{
    text.replace(from, to)
}

/// What one character of a glob becomes in an expression: a star matches any
/// run of characters, a meta character is escaped, anything else stands for
/// itself.
pub open spec fn glob_unit(c: char) -> Seq<char> {
    if c == '*' {
        seq!['.', '*']
    } else if is_meta_character(c) {
        seq!['\\', c]
    } else {
        seq![c]
    }
}

/// A glob turned into an expression, character by character.
pub open spec fn glob_body(glob: Seq<char>) -> Seq<char>
    decreases glob.len(),
{
    if glob.len() == 0 {
        Seq::empty()
    } else {
        glob_unit(glob[0]) + glob_body(glob.drop_first())
    }
}

/// The expression for a glob: its body anchored at both ends, so that it has
/// to match a whole name, behind the modifier that switches case off.
pub open spec fn anchored(glob: Seq<char>, case_insensitive: bool) -> Seq<char> {
    (if case_insensitive {
        seq!['(', '?', 'i', ')']
    } else {
        Seq::empty()
    }) + seq!['^'] + glob_body(glob) + seq!['$']
}

/// The expressions for a list of globs; empty globs are left out.
pub open spec fn converted(globs: Seq<Seq<char>>, case_insensitive: bool) -> Seq<Seq<char>>
    decreases globs.len(),
{
    if globs.len() == 0 {
        Seq::empty()
    } else {
        let rest = converted(globs.drop_last(), case_insensitive);
        if globs.last().len() == 0 {
            rest
        } else {
            rest.push(anchored(globs.last(), case_insensitive))
        }
    }
}

proof fn lemma_escaped_head(text: Seq<char>)
    ensures
        escaped(text).len() >= text.len(),
        text.len() > 0 ==> escaped(text)[0] != '*',
        text.len() > 0 && !is_meta_character(text[0]) ==> escaped(text)[0] == text[0],
        text.len() > 0 && is_meta_character(text[0]) ==> escaped(text)[0] == '\\' && escaped(
            text,
        )[1] == text[0],
    decreases text.len(),
{
    if text.len() > 0 {
        lemma_escaped_head(text.drop_first());
    }
}

/// Escaping a glob and then turning each escaped star into "any run of
/// characters" gives the glob's expression body.
pub proof fn lemma_escape_then_star(glob: Seq<char>)
    ensures
        replaced(escaped(glob), seq!['\\', '*'], seq!['.', '*']) == glob_body(glob),
    decreases glob.len(),
{
    let from = seq!['\\', '*'];
    let to = seq!['.', '*'];
    if glob.len() > 0 {
        let c = glob[0];
        let rest = glob.drop_first();
        let tail = escaped(rest);
        lemma_escape_then_star(rest);
        lemma_escaped_head(rest);
        if is_meta_character(c) {
            let text = seq!['\\', c] + tail;
            assert(escaped(glob) == text);
            assert(text.subrange(2, text.len() as int) =~= tail);
            assert(text.subrange(0, 2) =~= seq!['\\', c]);
            if c == '*' {
                assert(text.subrange(0, 2) =~= from);
                assert(replaced(text, from, to) == to + replaced(tail, from, to));
            } else {
                assert(text.subrange(0, 2) != from) by {
                    assert(text.subrange(0, 2)[1] == c);
                    assert(from[1] == '*');
                }
                let text1 = text.drop_first();
                assert(text1 =~= seq![c] + tail);
                assert(replaced(text, from, to) == seq!['\\'] + replaced(text1, from, to));
                if text1.len() >= 2 {
                    assert(text1.subrange(0, 2) != from) by {
                        assert(text1.subrange(0, 2)[1] == tail[0]);
                        assert(from[1] == '*');
                    }
                    assert(text1.drop_first() =~= tail);
                    assert(replaced(text1, from, to) == seq![c] + replaced(tail, from, to));
                } else {
                    assert(tail.len() == 0);
                    assert(rest.len() == 0);
                    assert(replaced(text1, from, to) == text1);
                    assert(replaced(tail, from, to) == tail);
                }
                assert(replaced(text, from, to) =~= seq!['\\', c] + replaced(tail, from, to));
            }
        } else {
            let text = seq![c] + tail;
            assert(escaped(glob) == text);
            assert(text.drop_first() =~= tail);
            if text.len() >= 2 {
                assert(text.subrange(0, 2) != from) by {
                    assert(text.subrange(0, 2)[0] == c);
                    assert(from[0] == '\\');
                }
                assert(replaced(text, from, to) == seq![c] + replaced(tail, from, to));
            } else {
                assert(tail.len() == 0);
                assert(rest.len() == 0);
                assert(replaced(text, from, to) == text);
            }
        }
    } else {
        assert(escaped(glob).len() == 0);
    }
}

/// The expression that stands for one glob.
pub fn convert_pattern(glob: &str, case_insensitive: bool) -> (r: String)
    ensures
        r@ == anchored(glob@, case_insensitive),
{
    let quoted = regex_escape(glob);
    proof {
        reveal_strlit("\\*");
        reveal_strlit(".*");
        reveal_strlit("^");
        reveal_strlit("$");
        reveal_strlit("(?i)");
        assert("\\*"@ =~= seq!['\\', '*']);
        assert(".*"@ =~= seq!['.', '*']);
        assert("^"@ =~= seq!['^']);
        assert("$"@ =~= seq!['$']);
        assert("(?i)"@ =~= seq!['(', '?', 'i', ')']);
        lemma_escape_then_star(glob@);
    }
    let body = str_replace(quoted.as_str(), "\\*", ".*");
    let mut r = String::new();
    if case_insensitive {
        r.append("(?i)");
    }
    r.append("^");
    r.append(body.as_str());
    r.append("$");
    assert(r@ =~= anchored(glob@, case_insensitive));
    r
}

/// The expressions that stand for a list of globs, empty globs left out.
pub fn convert_patterns(globs: &Vec<String>, case_insensitive: bool) -> (r: Vec<String>)
    ensures
        string_views(r@) == converted(string_views(globs@), case_insensitive),
{
    let mut r: Vec<String> = Vec::new();
    let mut i: usize = 0;
    assert(string_views(globs@).subrange(0, 0) =~= Seq::<Seq<char>>::empty());
    assert(string_views(r@) =~= Seq::<Seq<char>>::empty());
    while i < globs.len()
        invariant
            i <= globs.len(),
            string_views(r@) == converted(string_views(globs@).subrange(0, i as int), case_insensitive),
        decreases globs.len() - i,
    {
        let ghost before = string_views(globs@).subrange(0, i as int);
        let ghost after = string_views(globs@).subrange(0, i + 1);
        assert(after.drop_last() =~= before);
        assert(after.last() == globs@[i as int]@);
        if !globs[i].as_str().is_empty() {
            let next = convert_pattern(globs[i].as_str(), case_insensitive);
            let ghost old_r = r@;
            r.push(next);
            assert(string_views(r@) =~= string_views(old_r).push(next@));
        }
        i = i + 1;
    }
    assert(string_views(globs@).subrange(0, i as int) =~= string_views(globs@));
    r
}

/// Why a set of name patterns or a search expression was turned down.
#[derive(Debug)]
pub enum PatternError {
    /// The expressions do not compile; the cause is the compiler's own.
    Invalid(regex::Error),
}

/// Compiles a list of globs into a set that tells whether a whole name
/// matches one of them. Fails where the resulting expressions do not compile.
pub fn parse_and_convert_patterns(globs: &Vec<String>, case_insensitive: bool) -> (r: Result<
    RegexSet,
    PatternError,
>)
    ensures
        r is Ok <==> regex_set_compiles(converted(string_views(globs@), case_insensitive)),
        r matches Ok(set) ==> regex_set_sources(set) == converted(
            string_views(globs@),
            case_insensitive,
        ),
{
    let sources = convert_patterns(globs, case_insensitive);
    match regex_set_new(&sources) {
        Ok(set) => Ok(set),
        Err(cause) => Err(PatternError::Invalid(cause)),
    }
}

/// Whether a set of exclude patterns is configured and matches `name`.
pub open spec fn excluded_by(set: Option<RegexSet>, name: Seq<char>) -> bool {
    set matches Some(patterns) && any_matches(regex_set_sources(patterns), name)
}

/// Whether `name` gets past a set of include patterns: no set is configured,
/// or one of its patterns matches.
pub open spec fn included_by(set: Option<RegexSet>, name: Seq<char>) -> bool {
    set matches Some(patterns) ==> any_matches(regex_set_sources(patterns), name)
}

/// Asks a set of exclude patterns about `name`.
pub fn is_excluded(set: &Option<RegexSet>, name: &str) -> (r: bool)
    ensures
        r == excluded_by(*set, name@),
{
    match set {
        Some(patterns) => regex_set_is_match(patterns, name),
        None => false,
    }
}

/// Asks a set of include patterns about `name`.
pub fn is_included(set: &Option<RegexSet>, name: &str) -> (r: bool)
    ensures
        r == included_by(*set, name@),
{
    match set {
        Some(patterns) => regex_set_is_match(patterns, name),
        None => true,
    }
}

} // verus!
