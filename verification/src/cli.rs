//! The patterns that a run is configured with.

use crate::pattern::{compile, pattern_compiles, Pattern};
use vstd::prelude::*;
use vstd::string::*;

verus! {

/// One pattern of an include or skip list.
#[derive(Debug)]
pub struct Filter {
    pub matcher: Pattern,
}

impl View for Filter {
    type V = Seq<char>;

    /// The source text of the filter's pattern.
    open spec fn view(&self) -> Seq<char> {
        self.matcher@
    }
}

/// A pattern and the text that its match is replaced with.
#[derive(Debug)]
pub struct ReplacementFilter {
    pub matcher: Pattern,
    pub replacement: String,
}

/// A path-map rule as plain text.
pub struct PathMapRule {
    pub pattern: Seq<char>,
    pub replacement: Seq<char>,
}

impl View for ReplacementFilter {
    type V = PathMapRule;

    open spec fn view(&self) -> PathMapRule {
        PathMapRule { pattern: self.matcher@, replacement: self.replacement@ }
    }
}

/// What is reported for a pattern that does not compile.
pub open spec fn invalid_pattern_message(source: Seq<char>) -> Seq<char> {
    "Could not create a regular expression from '"@ + source + "'"@
}

/// What is reported for a path-map argument without a colon.
pub open spec fn missing_separator_message(argument: Seq<char>) -> Seq<char> {
    "Invalid path_map argument: no '=' found in '"@ + argument + "'"@
}

/// The position of the first colon of `text`, or its length without one.
pub open spec fn first_colon(text: Seq<char>) -> int
    decreases text.len(),
{
    if text.len() == 0 || text[0] == ':' {
        0
    } else {
        1 + first_colon(text.skip(1))
    }
}

impl Filter {
    /// Compiles `s` into a filter, or reports that it is no regular expression.
    pub fn from_str(s: &str) -> (filter: Result<Filter, String>)
        ensures
            match filter {
                Ok(f) => pattern_compiles(s@) && f@ == s@,
                Err(message) => !pattern_compiles(s@) && message@ == invalid_pattern_message(s@),
            },
    {
        match compile(s) {
            Some(matcher) => Ok(Filter { matcher }),
            None => Err(invalid_pattern(s)),
        }
    }
}

fn invalid_pattern(source: &str) -> (message: String)
    ensures
        message@ == invalid_pattern_message(source@),
{
    String::from_str("Could not create a regular expression from '").concat(source).concat("'")
}

/// `first_colon` is the one position that holds a colon with none before it,
/// or the length where there is no colon at all.
pub proof fn lemma_first_colon(text: Seq<char>, pos: int)
    requires
        0 <= pos <= text.len(),
        forall|j: int| 0 <= j < pos ==> text[j] != ':',
        pos < text.len() ==> text[pos] == ':',
    ensures
        first_colon(text) == pos,
    decreases text.len(),
{
    if pos > 0 {
        let rest = text.skip(1);
        assert forall|j: int| 0 <= j < pos - 1 implies rest[j] != ':' by {
            assert(rest[j] == text[j + 1]);
        }
        lemma_first_colon(rest, pos - 1);
    }
}

impl ReplacementFilter {
    /// Reads a path-map argument: a pattern, the first colon, and the text
    /// that replaces what the pattern matches.
    pub fn from_str(s: &str) -> (filter: Result<ReplacementFilter, String>)
        ensures
            match filter {
                Ok(f) => {
                    let pos = first_colon(s@);
                    &&& pos < s@.len()
                    &&& pattern_compiles(s@.subrange(0, pos))
                    &&& f@.pattern == s@.subrange(0, pos)
                    &&& f@.replacement == s@.subrange(pos + 1, s@.len() as int)
                },
                Err(message) => {
                    let pos = first_colon(s@);
                    if pos == s@.len() {
                        message@ == missing_separator_message(s@)
                    } else {
                        &&& !pattern_compiles(s@.subrange(0, pos))
                        &&& message@ == invalid_pattern_message(s@.subrange(0, pos))
                    }
                },
            },
    {
        let len: usize = s.unicode_len();
        let mut pos: usize = 0;
        while pos < len && s.get_char(pos) != ':'
            invariant
                len == s@.len(),
                pos <= len,
                forall|j: int| 0 <= j < pos ==> s@[j] != ':',
            decreases len - pos,
        {
            pos = pos + 1;
        }
        proof {
            lemma_first_colon(s@, pos as int);
        }
        if pos == len {
            return Err(
                String::from_str("Invalid path_map argument: no '=' found in '").concat(s).concat(
                    "'",
                ),
            );
        }
        let source = s.substring_char(0, pos);
        match compile(source) {
            Some(matcher) => {
                let replacement = String::from_str(s.substring_char(pos + 1, len));
                Ok(ReplacementFilter { matcher, replacement })
            },
            None => Err(invalid_pattern(source)),
        }
    }
}

} // verus!
