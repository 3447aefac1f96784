//! Matching input text against the patterns of terminal symbols.

use regex::Regex;
use vstd::prelude::*;

verus! {

/// `regex::Regex`, a compiled regular expression. Nothing of what a value
/// of the type holds is known to the proofs.
#[verifier::external_type_specification]
#[verifier::external_body]
pub struct ExRegex(Regex);

/// Whether the regex crate accepts the text as a regular expression.
pub uninterp spec fn regex_valid(pattern: Seq<char>) -> bool;

/// What the regex crate finds when it searches `text` with the regular
/// expression `pattern`: `None` where nothing matches, else the text of
/// each capture group of the leftmost match, the whole match first; a group
/// that took no part in the match has `None`.
pub uninterp spec fn regex_groups(pattern: Seq<char>, text: Seq<char>) -> Option<
    Seq<Option<Seq<char>>>,
>;

/// The texts of capture groups, as mathematical values.
pub open spec fn groups_view(groups: Option<Vec<Option<String>>>) -> Option<Seq<Option<Seq<char>>>> {
    match groups {
        None => None,
        Some(list) => Some(
            Seq::new(
                list.len() as nat,
                |i: int|
                    match list[i] {
                        None => None,
                        Some(text) => Some(text@),
                    },
            ),
        ),
    }
}

/// A regular expression together with its compiled form. A value is only
/// ever made by `compile` and `duplicate`, so the compiled form is that of
/// the source text.
pub struct Pattern {
    source: String,
    compiled: Regex,
}

impl Pattern {
    /// The text of the regular expression.
    pub closed spec fn source(&self) -> Seq<char> {
        self.source@
    }

    /// Compiles a regular expression with `regex::Regex::new`. The result is
    /// `None` exactly where the regex crate rejects the text; otherwise the
    /// pattern keeps the text as its source.
    #[verifier::external_body]
    pub(crate) fn compile(source: &str) -> (pattern: Option<Pattern>)
        ensures
            pattern is Some <==> regex_valid(source@),
            pattern matches Some(p) ==> p.source() == source@,
    {
        Regex::new(source).ok().map(|compiled| Pattern { source: source.to_owned(), compiled })
    }

    /// Searches the text with `regex::Regex::captures` and hands out the text
    /// of every capture group, in the order of `regex::Captures::iter`. The
    /// regex crate documents that a match has at least one group, the whole
    /// match.
    #[verifier::external_body]
    pub(crate) fn groups(&self, text: &str) -> (groups: Option<Vec<Option<String>>>)
        ensures
            groups_view(groups) == regex_groups(self.source(), text@),
            groups matches Some(list) ==> list.len() > 0,
    {
        self.compiled.captures(text).map(
            |found| found.iter().map(|group| group.map(|m| m.as_str().to_owned())).collect(),
        )
    }

    /// Copies the pattern with the `Clone` impls of `String` and
    /// `regex::Regex`; the copy has the same source.
    #[verifier::external_body]
    pub(crate) fn duplicate(&self) -> (copy: Pattern)
        ensures
            copy.source() == self.source(),
    {
        Pattern { source: self.source.clone(), compiled: self.compiled.clone() }
    }
}

/// The `Match` enum describes a match type.
#[derive(Clone, Copy, Debug, PartialEq, Eq, Structural)]
pub enum Match {
    /// No match.
    Nothing,
    /// Partial match.
    Partial,
    /// Full match.
    Full,
}

/// The `Matcher` enum describes a method to match an input string.
pub enum Matcher {
    /// Match using a regular expression.
    Regex(Pattern),
    /// Compare to a string.
    Text(String),
    /// Compare to each string of a list.
    Group(Vec<String>),
}

/// How a search result counts: no match where the search found nothing, a
/// full match where the last capture group holds text, and a partial match
/// where it is empty or took no part.
pub open spec fn classify_groups(groups: Option<Seq<Option<Seq<char>>>>) -> Match {
    match groups {
        None => Match::Nothing,
        Some(list) => match list.last() {
            Some(text) => if text.len() > 0 {
                Match::Full
            } else {
                Match::Partial
            },
            None => Match::Partial,
        },
    }
}

/// How a literal counts: a full match where it is the text, a partial match
/// where it begins with the text.
pub open spec fn classify_literal(literal: Seq<char>, text: Seq<char>) -> Match {
    if literal == text {
        Match::Full
    } else if text.is_prefix_of(literal) {
        Match::Partial
    } else {
        Match::Nothing
    }
}

/// How a list of literals counts: a full match where one of them is the
/// text, else a partial match where one of them begins with the text.
pub open spec fn classify_list(list: Seq<String>, text: Seq<char>) -> Match {
    if exists|i: int| 0 <= i < list.len() && (#[trigger] list[i])@ == text {
        Match::Full
    } else if exists|i: int| 0 <= i < list.len() && text.is_prefix_of((#[trigger] list[i])@) {
        Match::Partial
    } else {
        Match::Nothing
    }
}

/// The kind of match between a matcher and a text.
pub open spec fn match_of(matcher: Matcher, text: Seq<char>) -> Match {
    match matcher {
        Matcher::Regex(pattern) => classify_groups(regex_groups(pattern.source(), text)),
        Matcher::Text(literal) => classify_literal(literal@, text),
        Matcher::Group(list) => classify_list(list@, text),
    }
}

/// Returns the characters of a text.
pub fn chars_of(text: &str) -> (chars: Vec<char>)
    ensures
        chars@ == text@,
{
    let len = text.unicode_len();
    let mut chars: Vec<char> = Vec::new();
    let mut idx: usize = 0;
    while idx < len
        invariant
            len == text@.len(),
            idx <= len,
            chars@ == text@.subrange(0, idx as int),
        decreases len - idx,
    {
        chars.push(text.get_char(idx));
        assert(text@.subrange(0, idx + 1) =~= text@.subrange(0, idx as int).push(
            text@[idx as int],
        ));
        idx += 1;
    }
    assert(text@.subrange(0, len as int) =~= text@);
    chars
}

/// Classifies the result of a search with a regular expression.
pub fn classify(groups: &Option<Vec<Option<String>>>) -> (kind: Match)
    requires
        groups matches Some(list) ==> list.len() > 0,
    ensures
        kind == classify_groups(groups_view(*groups)),
{
    match groups {
        None => Match::Nothing,
        Some(list) => {
            match &list[list.len() - 1] {
                Some(text) => {
                    if text.as_str().unicode_len() > 0 {
                        Match::Full
                    } else {
                        Match::Partial
                    }
                },
                None => Match::Partial,
            }
        },
    }
}

/// Compares a literal with a text.
pub fn match_literal(literal: &str, text: &str) -> (kind: Match)
    ensures
        kind == classify_literal(literal@, text@),
{
    let a = chars_of(literal);
    let b = chars_of(text);
    if b.len() > a.len() {
        return Match::Nothing;
    }
    let mut idx: usize = 0;
    while idx < b.len()
        invariant
            a@ == literal@,
            b@ == text@,
            b.len() <= a.len(),
            idx <= b.len(),
            forall|i: int| 0 <= i < idx ==> a[i] == b[i],
        decreases b.len() - idx,
    {
        if a[idx] != b[idx] {
            assert(!text@.is_prefix_of(literal@)) by {
                if text@.is_prefix_of(literal@) {
                    assert(literal@.subrange(0, text@.len() as int)[idx as int] == text@[idx as int]);
                }
            }
            return Match::Nothing;
        }
        idx += 1;
    }
    assert(text@ =~= literal@.subrange(0, text@.len() as int));
    if a.len() == b.len() {
        assert(literal@ =~= text@);
        Match::Full
    } else {
        Match::Partial
    }
}

impl Matcher {
    /// Matches an input string against the specified expression.
    pub fn match_str(&self, text: &str) -> (kind: Match)
        ensures
            kind == match_of(*self, text@),
    {
        match self {
            Matcher::Regex(pattern) => {
                let groups = pattern.groups(text);
                classify(&groups)
            },
            Matcher::Text(literal) => match_literal(literal.as_str(), text),
            Matcher::Group(list) => {
                let mut best = Match::Nothing;
                let mut idx: usize = 0;
                while idx < list.len()
                    invariant
                        *self == Matcher::Group(*list),
                        idx <= list.len(),
                        !(best is Full),
                        forall|i: int| 0 <= i < idx ==> (#[trigger] list[i])@ != text@,
                        best is Partial <==> exists|i: int|
                            0 <= i < idx && text@.is_prefix_of((#[trigger] list[i])@),
                    decreases list.len() - idx,
                {
                    match match_literal(list[idx].as_str(), text) {
                        Match::Full => {
                            assert(list@[idx as int]@ == text@);
                            return Match::Full;
                        },
                        Match::Partial => {
                            best = Match::Partial;
                        },
                        Match::Nothing => {},
                    }
                    idx += 1;
                }
                best
            },
        }
    }

    /// Returns a copy of the matcher.
    pub fn duplicate(&self) -> (copy: Matcher)
        ensures
            forall|text: Seq<char>| match_of(copy, text) == match_of(*self, text),
    {
        match self {
            Matcher::Regex(pattern) => Matcher::Regex(pattern.duplicate()),
            Matcher::Text(literal) => Matcher::Text(literal.clone()),
            Matcher::Group(list) => {
                let mut copy: Vec<String> = Vec::new();
                let mut idx: usize = 0;
                while idx < list.len()
                    invariant
                        idx <= list.len(),
                        copy.len() == idx,
                        forall|i: int| 0 <= i < idx ==> copy[i] == list[i],
                    decreases list.len() - idx,
                {
                    copy.push(list[idx].clone());
                    idx += 1;
                }
                assert(copy@ =~= list@);
                Matcher::Group(copy)
            },
        }
    }
}

} // verus!
