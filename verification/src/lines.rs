//! The lines of a trace file's text part.
//!
//! A line is a maximal run of bytes other than the line feed; empty lines do
//! not count. A position in the file is a byte index.

use vstd::prelude::*;

verus! {

pub const LINE_FEED: u8 = 0x0a;

/// The index of the first line feed at or after `from`, or the length of
/// `bytes` where there is none.
pub open spec fn line_end(bytes: Seq<u8>, from: int) -> int
    decreases bytes.len() - from,
{
    if from < 0 || from >= bytes.len() {
        bytes.len() as int
    } else if bytes[from] == LINE_FEED {
        from
    } else {
        line_end(bytes, from + 1)
    }
}

/// The first line that starts at or after `from`, as the index of its first
/// byte and the index just behind its last; `None` where only line feeds
/// are left.
pub open spec fn next_line(bytes: Seq<u8>, from: int) -> Option<(int, int)>
    decreases bytes.len() - from,
{
    if from < 0 || from >= bytes.len() {
        None
    } else if bytes[from] == LINE_FEED {
        next_line(bytes, from + 1)
    } else {
        Some((from, line_end(bytes, from)))
    }
}

/// The position just behind the terminator of a line that ends at `end`: the
/// byte after its line feed, or the end of the file where the line has none.
pub open spec fn after_line(bytes: Seq<u8>, end: int) -> int {
    if end < bytes.len() {
        end + 1
    } else {
        bytes.len() as int
    }
}

/// A line lies within the file, is not empty, holds no line feed and ends at
/// a line feed or at the end of the file.
pub proof fn lemma_line_end(bytes: Seq<u8>, from: int)
    requires
        0 <= from <= bytes.len(),
    ensures
        from <= line_end(bytes, from) <= bytes.len(),
        line_end(bytes, from) < bytes.len() ==> bytes[line_end(bytes, from)] == LINE_FEED,
        forall|i: int| from <= i < line_end(bytes, from) ==> bytes[i] != LINE_FEED,
    decreases bytes.len() - from,
{
    if from < bytes.len() && bytes[from] != LINE_FEED {
        lemma_line_end(bytes, from + 1);
    }
}

/// Finds the first line that starts at or after `from`.
pub fn find_line(bytes: &[u8], from: usize) -> (line: Option<(usize, usize)>)
    ensures
        match line {
            Some((start, end)) => next_line(bytes@, from as int) == Some(
                (start as int, end as int),
            ) && from <= start < end <= bytes@.len(),
            None => next_line(bytes@, from as int).is_none(),
        },
{
    if from >= bytes.len() {
        return None;
    }
    let mut start: usize = from;
    while start < bytes.len() && bytes[start] == LINE_FEED
        invariant
            from <= start <= bytes@.len(),
            next_line(bytes@, from as int) == next_line(bytes@, start as int),
        decreases bytes@.len() - start,
    {
        start = start + 1;
    }
    if start == bytes.len() {
        return None;
    }
    let mut end: usize = start + 1;
    proof {
        lemma_line_end(bytes@, start as int);
    }
    while end < bytes.len() && bytes[end] != LINE_FEED
        invariant
            start < end <= bytes@.len(),
            line_end(bytes@, start as int) == line_end(bytes@, end as int),
        decreases bytes@.len() - end,
    {
        end = end + 1;
    }
    Some((start, end))
}

} // verus!
