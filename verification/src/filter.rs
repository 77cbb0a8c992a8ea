//! The include, skip and path-map predicates.
//!
//! An entry is kept when it passes the include list and is not hit by the
//! skip list. An empty include list lets everything pass; an empty skip list
//! hits nothing. Of the path-map rules only the first whose pattern matches
//! is applied.

use crate::cli::{Filter, PathMapRule, ReplacementFilter};
use crate::pattern::{is_match, pattern_matches, pattern_replace, replace};
use vstd::prelude::*;
use vstd::slice::slice_to_vec;
use vstd::string::*;
use vstd::utf8::encode_utf8;

verus! {

/// The source texts of a list of filters.
pub open spec fn patterns_of(filters: Seq<Filter>) -> Seq<Seq<char>> {
    filters.map_values(|f: Filter| f@)
}

/// The rules of a list of path-map filters, as plain text.
pub open spec fn rules_of(filters: Seq<ReplacementFilter>) -> Seq<PathMapRule> {
    filters.map_values(|f: ReplacementFilter| f@)
}

/// Whether at least one of `patterns` matches `input`.
pub open spec fn any_pattern_matches(patterns: Seq<Seq<char>>, input: Seq<u8>) -> bool {
    exists|i: int| 0 <= i < patterns.len() && pattern_matches(#[trigger] patterns[i], input)
}

/// Whether `input` passes an include list: the list is empty or one of its
/// patterns matches.
pub open spec fn passes_include(includes: Seq<Seq<char>>, input: Seq<u8>) -> bool {
    includes.len() == 0 || any_pattern_matches(includes, input)
}

/// Whether `input` is hit by a skip list: the list is not empty and one of
/// its patterns matches.
pub open spec fn hit_by_skip(skips: Seq<Seq<char>>, input: Seq<u8>) -> bool {
    skips.len() > 0 && any_pattern_matches(skips, input)
}

/// Whether `input` is kept under an include and a skip list.
pub open spec fn retained(includes: Seq<Seq<char>>, skips: Seq<Seq<char>>, input: Seq<u8>) -> bool {
    passes_include(includes, input) && !hit_by_skip(skips, input)
}

/// What the rules from index `from` on make of `input`: the replacement by
/// the first of them whose pattern matches, or `input` itself.
pub open spec fn remapped_from(rules: Seq<PathMapRule>, input: Seq<u8>, from: int) -> Seq<u8>
    decreases rules.len() - from,
{
    if from < 0 || from >= rules.len() {
        input
    } else if pattern_matches(rules[from].pattern, input) {
        pattern_replace(rules[from].pattern, input, rules[from].replacement)
    } else {
        remapped_from(rules, input, from + 1)
    }
}

/// What a list of path-map rules makes of `input`.
pub open spec fn remapped(rules: Seq<PathMapRule>, input: Seq<u8>) -> Seq<u8> {
    remapped_from(rules, input, 0)
}

/// An empty include list lets every input pass.
pub proof fn lemma_empty_include_passes(input: Seq<u8>)
    ensures
        passes_include(Seq::<Seq<char>>::empty(), input),
{
}

/// A skip list none of whose patterns matches excludes nothing: the input is
/// kept exactly when it passes the include list.
pub proof fn lemma_unmatched_skip_excludes_nothing(
    includes: Seq<Seq<char>>,
    skips: Seq<Seq<char>>,
    input: Seq<u8>,
)
    requires
        !any_pattern_matches(skips, input),
    ensures
        !hit_by_skip(skips, input),
        retained(includes, skips, input) == passes_include(includes, input),
{
}

/// Skip takes precedence: an input that a skip pattern matches is not kept,
/// whatever the include list holds.
pub proof fn lemma_skip_takes_precedence(
    includes: Seq<Seq<char>>,
    skips: Seq<Seq<char>>,
    input: Seq<u8>,
    hit: int,
)
    requires
        0 <= hit < skips.len(),
        pattern_matches(skips[hit], input),
    ensures
        !retained(includes, skips, input),
{
}

/// Only the first matching rule applies: where rule `first` matches and no
/// rule before it does, the result is that rule's replacement.
pub proof fn lemma_first_matching_rule_applies(
    rules: Seq<PathMapRule>,
    input: Seq<u8>,
    first: int,
)
    requires
        0 <= first < rules.len(),
        pattern_matches(rules[first].pattern, input),
        forall|j: int| 0 <= j < first ==> !pattern_matches(#[trigger] rules[j].pattern, input),
    ensures
        remapped(rules, input) == pattern_replace(
            rules[first].pattern,
            input,
            rules[first].replacement,
        ),
{
    lemma_remapped_skips_unmatched(rules, input, 0, first);
}

/// Where no rule matches, the input comes back unchanged.
pub proof fn lemma_unmatched_input_is_unchanged(rules: Seq<PathMapRule>, input: Seq<u8>)
    requires
        forall|j: int| 0 <= j < rules.len() ==> !pattern_matches(#[trigger] rules[j].pattern, input),
    ensures
        remapped(rules, input) == input,
{
    lemma_remapped_skips_unmatched(rules, input, 0, rules.len() as int);
}

proof fn lemma_remapped_skips_unmatched(rules: Seq<PathMapRule>, input: Seq<u8>, from: int, to: int)
    requires
        0 <= from <= to <= rules.len(),
        forall|j: int| from <= j < to ==> !pattern_matches(#[trigger] rules[j].pattern, input),
    ensures
        remapped_from(rules, input, from) == remapped_from(rules, input, to),
    decreases to - from,
{
    if from < to {
        lemma_remapped_skips_unmatched(rules, input, from + 1, to);
    }
}

/// Whether one of `filters` matches `input`.
pub fn any_filter_matches(filters: &[Filter], input: &[u8]) -> (found: bool)
    ensures
        found == any_pattern_matches(patterns_of(filters@), input@),
{
    let mut i: usize = 0;
    while i < filters.len()
        invariant
            i <= filters@.len(),
            forall|j: int|
                0 <= j < i ==> !pattern_matches(#[trigger] patterns_of(filters@)[j], input@),
        decreases filters@.len() - i,
    {
        if is_match(&filters[i].matcher, input) {
            assert(pattern_matches(patterns_of(filters@)[i as int], input@));
            return true;
        }
        i = i + 1;
    }
    false
}

/// The filters that decide which modules of a trace are read, and how their
/// lines are rewritten first.
#[derive(Debug)]
pub struct DrcovFilters<'r> {
    pub module_filters: &'r [Filter],
    pub module_skip_filters: &'r [Filter],
    pub path_map_filters: &'r [ReplacementFilter],
}

/// The module filters as plain text.
pub struct DrcovFiltersView {
    pub includes: Seq<Seq<char>>,
    pub skips: Seq<Seq<char>>,
    pub path_map: Seq<PathMapRule>,
}

impl<'r> View for DrcovFilters<'r> {
    type V = DrcovFiltersView;

    open spec fn view(&self) -> DrcovFiltersView {
        DrcovFiltersView {
            includes: patterns_of(self.module_filters@),
            skips: patterns_of(self.module_skip_filters@),
            path_map: rules_of(self.path_map_filters@),
        }
    }
}

impl DrcovFiltersView {
    /// What the path-map rules make of a module line.
    pub open spec fn rewritten(self, line: Seq<u8>) -> Seq<u8> {
        remapped(self.path_map, line)
    }

    /// Whether a module line, already rewritten, is kept.
    pub open spec fn retains(self, line: Seq<u8>) -> bool {
        retained(self.includes, self.skips, line)
    }
}

impl<'r> DrcovFilters<'r> {
    /// Whether `input` passes the module include list.
    pub fn matches_any_module_filter(&self, input: &[u8]) -> (passes: bool)
        ensures
            passes == passes_include(self@.includes, input@),
    {
        self.module_filters.len() == 0 || any_filter_matches(self.module_filters, input)
    }

    /// Whether `input` is hit by the module skip list.
    pub fn matches_any_module_skip_filter(&self, input: &[u8]) -> (hit: bool)
        ensures
            hit == hit_by_skip(self@.skips, input@),
    {
        self.module_skip_filters.len() > 0 && any_filter_matches(self.module_skip_filters, input)
    }

    /// Whether a module line is kept: it passes the include list and the
    /// skip list does not hit it.
    pub fn retains_module(&self, input: &[u8]) -> (kept: bool)
        ensures
            kept == self@.retains(input@),
    {
        self.matches_any_module_filter(input) && !self.matches_any_module_skip_filter(input)
    }

    /// Rewrites `input` by the first path-map rule whose pattern matches it;
    /// without such a rule the result is `input`.
    pub fn maybe_replace_with_path_map_filter(&self, input: &[u8]) -> (output: Vec<u8>)
        ensures
            output@ == self@.rewritten(input@),
    {
        let ghost rules = rules_of(self.path_map_filters@);
        let mut i: usize = 0;
        while i < self.path_map_filters.len()
            invariant
                i <= self.path_map_filters@.len(),
                rules == rules_of(self.path_map_filters@),
                remapped(rules, input@) == remapped_from(rules, input@, i as int),
            decreases self.path_map_filters@.len() - i,
        {
            let filter = &self.path_map_filters[i];
            assert(rules[i as int] == filter@);
            if is_match(&filter.matcher, input) {
                return replace(&filter.matcher, input, filter.replacement.as_str());
            }
            i = i + 1;
        }
        slice_to_vec(input)
    }
}

/// The filters that decide which source files line records are kept for.
#[derive(Debug)]
pub struct LineInfoFilters<'r> {
    pub src_filters: &'r [Filter],
    pub src_skip_filters: &'r [Filter],
}

/// The source filters as plain text.
pub struct LineInfoFiltersView {
    pub includes: Seq<Seq<char>>,
    pub skips: Seq<Seq<char>>,
}

impl<'r> View for LineInfoFilters<'r> {
    type V = LineInfoFiltersView;

    open spec fn view(&self) -> LineInfoFiltersView {
        LineInfoFiltersView {
            includes: patterns_of(self.src_filters@),
            skips: patterns_of(self.src_skip_filters@),
        }
    }
}

impl LineInfoFiltersView {
    /// Whether a row with the given source file is kept. A row without a
    /// source file never is; the patterns see the path as UTF-8 bytes.
    pub open spec fn retains(self, source: Option<Seq<char>>) -> bool {
        match source {
            Some(path) => retained(self.includes, self.skips, encode_utf8(path)),
            None => false,
        }
    }
}

impl<'r> LineInfoFilters<'r> {
    /// Whether there is a source file and it passes the source include list.
    pub fn matches_any_source_filter(&self, source: Option<&String>) -> (passes: bool)
        ensures
            passes == match source {
                Some(path) => passes_include(self@.includes, encode_utf8(path@)),
                None => false,
            },
    {
        match source {
            Some(path) => self.src_filters.len() == 0 || any_filter_matches(
                self.src_filters,
                path.as_str().as_bytes(),
            ),
            None => false,
        }
    }

    /// Whether there is a source file and the source skip list hits it.
    pub fn matches_any_source_skip_filter(&self, source: Option<&String>) -> (hit: bool)
        ensures
            hit == match source {
                Some(path) => hit_by_skip(self@.skips, encode_utf8(path@)),
                None => false,
            },
    {
        match source {
            Some(path) => self.src_skip_filters.len() > 0 && any_filter_matches(
                self.src_skip_filters,
                path.as_str().as_bytes(),
            ),
            None => false,
        }
    }

    /// Whether a row with the given source file is kept.
    pub fn retains_source(&self, source: Option<&String>) -> (kept: bool)
        ensures
            kept == self@.retains(match source {
                Some(path) => Some(path@),
                None => None,
            }),
    {
        self.matches_any_source_filter(source) && !self.matches_any_source_skip_filter(source)
    }
}

} // verus!
