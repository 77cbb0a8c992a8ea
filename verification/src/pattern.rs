//! Compiled regular expressions, and what the verified code may assume of them.
//!
//! Matching is done by the `regex` crate. Its results are not modelled here:
//! each is given a name, a function of the pattern's source text and of the
//! input alone, and the contracts of this crate speak of those names.

use vstd::prelude::*;

verus! {

#[verifier::external_type_specification]
#[verifier::external_body]
pub struct ExRegex(regex::bytes::Regex);

/// Whether `regex::bytes::Regex::new` accepts `source`.
pub uninterp spec fn pattern_compiles(source: Seq<char>) -> bool;

/// Whether the expression compiled from `source` matches anywhere in `haystack`
/// (`Regex::is_match`).
pub uninterp spec fn pattern_matches(source: Seq<char>, haystack: Seq<u8>) -> bool;

/// The capture groups of the leftmost-first match of `source` in `haystack`
/// (`Regex::captures`): `None` without a match, else one entry per group in
/// the order of the opening parentheses, group 0 being the whole match, each
/// entry the bytes that the group matched or `None` where it took no part.
pub uninterp spec fn pattern_captures(source: Seq<char>, haystack: Seq<u8>) -> Option<
    Seq<Option<Seq<u8>>>,
>;

/// `haystack` with the leftmost-first match of `source` replaced by the
/// expansion of `replacement` (`Regex::replace`).
pub uninterp spec fn pattern_replace(
    source: Seq<char>,
    haystack: Seq<u8>,
    replacement: Seq<char>,
) -> Seq<u8>;

/// A regular expression together with the text it was compiled from.
///
/// The only way to make one is [`compile`], so `compiled` is always the
/// expression that `Regex::new` built from `source`.
#[derive(Debug)]
pub struct Pattern {
    source: String,
    compiled: regex::bytes::Regex,
}

impl View for Pattern {
    type V = Seq<char>;

    closed spec fn view(&self) -> Seq<char> {
        self.source@
    }
}

/// What a capture list holds, as plain sequences.
pub open spec fn groups_view(groups: Seq<Option<Vec<u8>>>) -> Seq<Option<Seq<u8>>> {
    Seq::new(
        groups.len(),
        |i: int|
            match groups[i] {
                Some(bytes) => Some(bytes@),
                None => None,
            },
    )
}

/// What an optional capture list holds, as plain sequences.
pub open spec fn captures_view(captures: Option<Vec<Option<Vec<u8>>>>) -> Option<
    Seq<Option<Seq<u8>>>,
> {
    match captures {
        Some(groups) => Some(groups_view(groups@)),
        None => None,
    }
}

/// Calls `regex::bytes::Regex::new`. Trusted: compilation succeeds exactly on
/// the sources that `pattern_compiles` names, and the pattern that comes back
/// carries the source it was given.
#[verifier::external_body]
pub(crate) fn compile(source: &str) -> (pattern: Option<Pattern>)
    ensures
        pattern.is_some() == pattern_compiles(source@),
        pattern matches Some(p) ==> p@ == source@,
{
    regex::bytes::Regex::new(source).ok().map(
        |compiled| Pattern { source: source.to_string(), compiled },
    )
}

/// Calls `regex::bytes::Regex::is_match`. Trusted: the answer is the one that
/// `pattern_matches` names for this source and input.
#[verifier::external_body]
pub(crate) fn is_match(pattern: &Pattern, haystack: &[u8]) -> (found: bool)
    ensures
        found == pattern_matches(pattern@, haystack@),
{
    pattern.compiled.is_match(haystack)
}

/// Calls `regex::bytes::Regex::captures` and copies each group out. Trusted:
/// the groups are those that `pattern_captures` names for this source and
/// input.
#[verifier::external_body]
pub(crate) fn captures(pattern: &Pattern, haystack: &[u8]) -> (found: Option<Vec<Option<Vec<u8>>>>)
    ensures
        captures_view(found) == pattern_captures(pattern@, haystack@),
{
    pattern.compiled.captures(haystack).map(
        |caps| caps.iter().map(|group| group.map(|m| m.as_bytes().to_vec())).collect(),
    )
}

/// Calls `regex::bytes::Regex::replace` with a replacement string. Trusted:
/// the bytes are those that `pattern_replace` names for this source, input
/// and replacement.
#[verifier::external_body]
pub(crate) fn replace(pattern: &Pattern, haystack: &[u8], replacement: &str) -> (replaced: Vec<u8>)
    ensures
        replaced@ == pattern_replace(pattern@, haystack@, replacement@),
{
    pattern.compiled.replace(haystack, replacement.as_bytes()).into_owned()
}

impl Pattern {
    /// The text this pattern was compiled from.
    pub fn source(&self) -> (source: &str)
        ensures
            source@ == self@,
    {
        self.source.as_str()
    }
}

} // verus!
