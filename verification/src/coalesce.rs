//! Merging the line records of one source file.
//!
//! The records of a file come in any order and hold a line many times over.
//! Coalescing leaves one record per line, in ascending order of the lines,
//! whose flag says whether any record of that line was executed.
//!
//! The records are folded into a hash map from lines to flags; the entries
//! of the map are then sorted by their lines.

use crate::dwarf::LineInfo;
use itertools::Itertools;
use std::cmp::Ordering;
use std::collections::HashMap;
use vstd::prelude::*;
use vstd::std_specs::hash::{group_hash_axioms, spec_hash_map_iter};
use vstd::std_specs::iter::IteratorSpec;

verus! {

/// `lines` with one more record merged in from the end: the record goes
/// behind the last record with a smaller line, or into the record of its
/// own line, whose flag it is or-ed into.
pub open spec fn merged_line(lines: Seq<LineInfo>, info: LineInfo) -> Seq<LineInfo>
    decreases lines.len(),
{
    if lines.len() == 0 {
        seq![info]
    } else {
        let last = lines.last();
        if last.line < info.line {
            lines.push(info)
        } else if last.line == info.line {
            lines.drop_last().push(
                LineInfo { line: info.line, executed: last.executed || info.executed },
            )
        } else {
            merged_line(lines.drop_last(), info).push(last)
        }
    }
}

/// The records of a file, coalesced.
pub open spec fn coalesced(lines: Seq<LineInfo>) -> Seq<LineInfo>
    decreases lines.len(),
{
    if lines.len() == 0 {
        Seq::empty()
    } else {
        merged_line(coalesced(lines.drop_last()), lines.last())
    }
}

/// Whether the lines of `lines` strictly ascend.
pub open spec fn strictly_ascending(lines: Seq<LineInfo>) -> bool {
    forall|i: int, j: int| 0 <= i < j < lines.len() ==> lines[i].line < lines[j].line
}

/// Whether some record of `lines` is of line `line`.
pub open spec fn has_line(lines: Seq<LineInfo>, line: u64) -> bool {
    exists|i: int| 0 <= i < lines.len() && (#[trigger] lines[i]).line == line
}

/// Whether some record of `lines` is of line `line` and executed.
pub open spec fn line_executed(lines: Seq<LineInfo>, line: u64) -> bool {
    exists|i: int| 0 <= i < lines.len() && (#[trigger] lines[i]).line == line && lines[i].executed
}

/// A record at the end adds its line to the lines of the records.
pub proof fn lemma_has_line_push(lines: Seq<LineInfo>, info: LineInfo, line: u64)
    ensures
        has_line(lines.push(info), line) <==> (has_line(lines, line) || info.line == line),
{
    let longer = lines.push(info);
    if has_line(lines, line) {
        let i = choose|i: int| 0 <= i < lines.len() && (#[trigger] lines[i]).line == line;
        assert(longer[i].line == line);
    }
    if info.line == line {
        assert(longer[lines.len() as int].line == line);
    }
    if has_line(longer, line) {
        let i = choose|i: int| 0 <= i < longer.len() && (#[trigger] longer[i]).line == line;
        if i < lines.len() {
            assert(lines[i].line == line);
        }
    }
}

/// A record at the end makes its line executed if it is executed itself.
pub proof fn lemma_line_executed_push(lines: Seq<LineInfo>, info: LineInfo, line: u64)
    ensures
        line_executed(lines.push(info), line) <==> (line_executed(lines, line) || (info.line
            == line && info.executed)),
{
    let longer = lines.push(info);
    if line_executed(lines, line) {
        let i = choose|i: int|
            0 <= i < lines.len() && (#[trigger] lines[i]).line == line && lines[i].executed;
        assert(longer[i].line == line && longer[i].executed);
    }
    if info.line == line && info.executed {
        assert(longer[lines.len() as int].line == line && longer[lines.len() as int].executed);
    }
    if line_executed(longer, line) {
        let i = choose|i: int|
            0 <= i < longer.len() && (#[trigger] longer[i]).line == line && longer[i].executed;
        if i < lines.len() {
            assert(lines[i].line == line && lines[i].executed);
        }
    }
}

/// Merging a record adds its line to the lines of the records, and no other.
pub proof fn lemma_merged_has_line(lines: Seq<LineInfo>, info: LineInfo, line: u64)
    ensures
        has_line(merged_line(lines, info), line) <==> (has_line(lines, line) || line
            == info.line),
    decreases lines.len(),
{
    if lines.len() == 0 {
        assert(seq![info] =~= lines.push(info));
        lemma_has_line_push(lines, info, line);
    } else {
        let last = lines.last();
        let shorter = lines.drop_last();
        assert(lines =~= shorter.push(last));
        lemma_has_line_push(shorter, last, line);
        if last.line < info.line {
            lemma_has_line_push(lines, info, line);
        } else if last.line == info.line {
            let both = LineInfo { line: info.line, executed: last.executed || info.executed };
            lemma_has_line_push(shorter, both, line);
        } else {
            lemma_merged_has_line(shorter, info, line);
            lemma_has_line_push(merged_line(shorter, info), last, line);
        }
    }
}

/// After merging a record, a line is executed if it was before or if it is
/// the record's own and the record is executed.
pub proof fn lemma_merged_line_executed(lines: Seq<LineInfo>, info: LineInfo, line: u64)
    ensures
        line_executed(merged_line(lines, info), line) <==> (line_executed(lines, line) || (line
            == info.line && info.executed)),
    decreases lines.len(),
{
    if lines.len() == 0 {
        assert(seq![info] =~= lines.push(info));
        lemma_line_executed_push(lines, info, line);
    } else {
        let last = lines.last();
        let shorter = lines.drop_last();
        assert(lines =~= shorter.push(last));
        lemma_line_executed_push(shorter, last, line);
        if last.line < info.line {
            lemma_line_executed_push(lines, info, line);
        } else if last.line == info.line {
            let both = LineInfo { line: info.line, executed: last.executed || info.executed };
            lemma_line_executed_push(shorter, both, line);
        } else {
            lemma_merged_line_executed(shorter, info, line);
            lemma_line_executed_push(merged_line(shorter, info), last, line);
        }
    }
}

/// Merging a record into strictly ascending records leaves them strictly
/// ascending.
pub proof fn lemma_merged_ascending(lines: Seq<LineInfo>, info: LineInfo)
    requires
        strictly_ascending(lines),
    ensures
        strictly_ascending(merged_line(lines, info)),
    decreases lines.len(),
{
    let merged = merged_line(lines, info);
    if lines.len() > 0 {
        let last = lines.last();
        let shorter = lines.drop_last();
        if last.line < info.line {
            assert forall|i: int, j: int| 0 <= i < j < merged.len() implies merged[i].line
                < merged[j].line by {
                if j < lines.len() {
                    assert(lines[i].line < lines[j].line);
                } else if i < lines.len() - 1 {
                    assert(lines[i].line < lines[lines.len() - 1].line);
                }
            }
        } else if last.line == info.line {
            assert forall|i: int, j: int| 0 <= i < j < merged.len() implies merged[i].line
                < merged[j].line by {
                assert(lines[i].line < lines[j].line);
            }
        } else {
            assert forall|i: int, j: int| 0 <= i < j < shorter.len() implies shorter[i].line
                < shorter[j].line by {
                assert(lines[i].line < lines[j].line);
            }
            lemma_merged_ascending(shorter, info);
            let inner = merged_line(shorter, info);
            assert forall|i: int, j: int| 0 <= i < j < merged.len() implies merged[i].line
                < merged[j].line by {
                if j < inner.len() {
                    assert(inner[i].line < inner[j].line);
                } else {
                    lemma_merged_has_line(shorter, info, inner[i].line);
                    assert(has_line(inner, inner[i].line));
                    if inner[i].line != info.line {
                        let k = choose|k: int|
                            0 <= k < shorter.len() && (#[trigger] shorter[k]).line
                                == inner[i].line;
                        assert(lines[k].line < lines[lines.len() - 1].line);
                    }
                }
            }
        }
    }
}

/// Coalesced records strictly ascend: every line stands once.
pub proof fn lemma_coalesced_ascending(lines: Seq<LineInfo>)
    ensures
        strictly_ascending(coalesced(lines)),
    decreases lines.len(),
{
    if lines.len() > 0 {
        lemma_coalesced_ascending(lines.drop_last());
        lemma_merged_ascending(coalesced(lines.drop_last()), lines.last());
    }
}

/// Coalescing keeps the lines: a line has a record afterwards exactly when
/// it had one before.
pub proof fn lemma_coalesced_has_line(lines: Seq<LineInfo>, line: u64)
    ensures
        has_line(coalesced(lines), line) <==> has_line(lines, line),
    decreases lines.len(),
{
    if lines.len() > 0 {
        let shorter = lines.drop_last();
        assert(lines =~= shorter.push(lines.last()));
        lemma_coalesced_has_line(shorter, line);
        lemma_merged_has_line(coalesced(shorter), lines.last(), line);
        lemma_has_line_push(shorter, lines.last(), line);
    }
}

/// Coalescing ors the flags: a line is executed afterwards exactly when one
/// of its records was executed before.
pub proof fn lemma_coalesced_line_executed(lines: Seq<LineInfo>, line: u64)
    ensures
        line_executed(coalesced(lines), line) <==> line_executed(lines, line),
    decreases lines.len(),
{
    if lines.len() > 0 {
        let shorter = lines.drop_last();
        assert(lines =~= shorter.push(lines.last()));
        lemma_coalesced_line_executed(shorter, line);
        lemma_merged_line_executed(coalesced(shorter), lines.last(), line);
        lemma_line_executed_push(shorter, lines.last(), line);
    }
}

/// Records that strictly ascend are left as they are.
pub proof fn lemma_coalesced_of_ascending(lines: Seq<LineInfo>)
    requires
        strictly_ascending(lines),
    ensures
        coalesced(lines) == lines,
    decreases lines.len(),
{
    if lines.len() > 0 {
        let shorter = lines.drop_last();
        assert forall|i: int, j: int| 0 <= i < j < shorter.len() implies shorter[i].line
            < shorter[j].line by {
            assert(lines[i].line < lines[j].line);
        }
        lemma_coalesced_of_ascending(shorter);
        if shorter.len() > 0 {
            assert(lines[shorter.len() - 1].line < lines[lines.len() - 1].line);
        }
        assert(shorter.push(lines.last()) =~= lines);
    }
}

/// Coalescing is idempotent: coalescing twice gives what coalescing once
/// gives.
pub proof fn lemma_coalesce_idempotent(lines: Seq<LineInfo>)
    ensures
        coalesced(coalesced(lines)) == coalesced(lines),
{
    lemma_coalesced_ascending(lines);
    lemma_coalesced_of_ascending(coalesced(lines));
}

/// Records that strictly ascend are fixed by their lines and the flags of
/// their lines: two such lists with the same lines, and the same lines
/// executed, are the same list.
pub proof fn lemma_ascending_unique(first: Seq<LineInfo>, second: Seq<LineInfo>)
    requires
        strictly_ascending(first),
        strictly_ascending(second),
        forall|line: u64| has_line(first, line) <==> has_line(second, line),
        forall|line: u64| line_executed(first, line) <==> line_executed(second, line),
    ensures
        first == second,
    decreases first.len(),
{
    if first.len() == 0 {
        if second.len() > 0 {
            assert(second[0].line == second[0].line);
            assert(has_line(second, second[0].line));
            assert(has_line(first, second[0].line));
        }
        assert(first =~= second);
    } else {
        let last = first.last();
        let end = first.len() - 1;
        assert(first[end].line == last.line);
        assert(has_line(first, last.line));
        assert(has_line(second, last.line));
        let k = choose|k: int| 0 <= k < second.len() && (#[trigger] second[k]).line == last.line;
        let other = second.last();
        let other_end = second.len() - 1;
        assert(second[other_end].line == other.line);
        assert(has_line(second, other.line));
        assert(has_line(first, other.line));
        let m = choose|m: int| 0 <= m < first.len() && (#[trigger] first[m]).line == other.line;
        if k < other_end {
            assert(second[k].line < second[other_end].line);
            if m < end {
                assert(first[m].line < first[end].line);
            }
        }
        assert(other.line == last.line);
        // the flag of the last line
        if last.executed {
            assert(first[end].line == last.line && first[end].executed);
            assert(line_executed(first, last.line));
            assert(line_executed(second, last.line));
            let e = choose|e: int|
                0 <= e < second.len() && (#[trigger] second[e]).line == last.line
                    && second[e].executed;
            if e < other_end {
                assert(second[e].line < second[other_end].line);
            }
        }
        if other.executed {
            assert(second[other_end].line == last.line && second[other_end].executed);
            assert(line_executed(second, last.line));
            assert(line_executed(first, last.line));
            let e = choose|e: int|
                0 <= e < first.len() && (#[trigger] first[e]).line == last.line
                    && first[e].executed;
            if e < end {
                assert(first[e].line < first[end].line);
            }
        }
        assert(other == last);
        let first_rest = first.drop_last();
        let second_rest = second.drop_last();
        assert(first =~= first_rest.push(last));
        assert(second =~= second_rest.push(last));
        assert forall|i: int, j: int| 0 <= i < j < first_rest.len() implies first_rest[i].line
            < first_rest[j].line by {
            assert(first[i].line < first[j].line);
        }
        assert forall|i: int, j: int| 0 <= i < j < second_rest.len() implies second_rest[i].line
            < second_rest[j].line by {
            assert(second[i].line < second[j].line);
        }
        assert(!has_line(first_rest, last.line)) by {
            if has_line(first_rest, last.line) {
                let i = choose|i: int|
                    0 <= i < first_rest.len() && (#[trigger] first_rest[i]).line == last.line;
                assert(first[i].line < first[end].line);
            }
        }
        assert(!has_line(second_rest, last.line)) by {
            if has_line(second_rest, last.line) {
                let i = choose|i: int|
                    0 <= i < second_rest.len() && (#[trigger] second_rest[i]).line == last.line;
                assert(second[i].line < second[other_end].line);
            }
        }
        assert(!line_executed(first_rest, last.line)) by {
            if line_executed(first_rest, last.line) {
                let i = choose|i: int|
                    0 <= i < first_rest.len() && (#[trigger] first_rest[i]).line == last.line
                        && first_rest[i].executed;
                assert(first_rest[i].line == last.line);
            }
        }
        assert(!line_executed(second_rest, last.line)) by {
            if line_executed(second_rest, last.line) {
                let i = choose|i: int|
                    0 <= i < second_rest.len() && (#[trigger] second_rest[i]).line == last.line
                        && second_rest[i].executed;
                assert(second_rest[i].line == last.line);
            }
        }
        assert forall|line: u64| has_line(first_rest, line) <==> has_line(
            second_rest,
            line,
        ) by {
            lemma_has_line_push(first_rest, last, line);
            lemma_has_line_push(second_rest, last, line);
        }
        assert forall|line: u64| line_executed(first_rest, line) <==> line_executed(
            second_rest,
            line,
        ) by {
            lemma_line_executed_push(first_rest, last, line);
            lemma_line_executed_push(second_rest, last, line);
        }
        lemma_ascending_unique(first_rest, second_rest);
    }
}

/// Folds records into a map from their lines to the flags of the lines.
fn fold_lines(lines: &Vec<LineInfo>) -> (flags: HashMap<u64, bool>)
    ensures
        forall|line: u64| flags@.contains_key(line) <==> has_line(lines@, line),
        forall|line: u64|
            flags@.contains_key(line) ==> flags@[line] == line_executed(lines@, line),
{
    broadcast use group_hash_axioms;

    let mut flags: HashMap<u64, bool> = HashMap::new();
    let mut i: usize = 0;
    while i < lines.len()
        invariant
            i <= lines@.len(),
            forall|line: u64|
                flags@.contains_key(line) <==> has_line(lines@.take(i as int), line),
            forall|line: u64|
                flags@.contains_key(line) ==> flags@[line] == line_executed(
                    lines@.take(i as int),
                    line,
                ),
        decreases lines@.len() - i,
    {
        let info = lines[i];
        let seen: bool = match flags.get(&info.line) {
            Some(flag) => *flag,
            None => false,
        };
        flags.insert(info.line, seen || info.executed);
        proof {
            let shorter = lines@.take(i as int);
            let longer = lines@.take(i + 1);
            assert(longer =~= shorter.push(info));
            assert forall|line: u64| flags@.contains_key(line) <==> has_line(longer, line) by {
                lemma_has_line_push(shorter, info, line);
            }
            assert forall|line: u64| flags@.contains_key(line) implies flags@[line]
                == line_executed(longer, line) by {
                lemma_line_executed_push(shorter, info, line);
                lemma_has_line_push(shorter, info, line);
                if !has_line(shorter, line) && line_executed(shorter, line) {
                    let k = choose|k: int|
                        0 <= k < shorter.len() && (#[trigger] shorter[k]).line == line
                            && shorter[k].executed;
                    assert(shorter[k].line == line);
                }
            }
        }
        i = i + 1;
    }
    assert(lines@.take(i as int) =~= lines@);
    flags
}

/// Lists the entries of a map from lines to flags, in the order in which
/// the map hands them out.
fn entries_of(flags: &HashMap<u64, bool>) -> (pairs: Vec<(u64, bool)>)
    ensures
        forall|k: int|
            0 <= k < pairs@.len() ==> flags@.contains_key((#[trigger] pairs@[k]).0)
                && flags@[pairs@[k].0] == pairs@[k].1,
        forall|line: u64|
            flags@.contains_key(line) ==> exists|k: int|
                0 <= k < pairs@.len() && (#[trigger] pairs@[k]).0 == line,
        forall|a: int, b: int| 0 <= a < b < pairs@.len() ==> pairs@[a].0 != pairs@[b].0,
{
    broadcast use group_hash_axioms;

    let mut pairs: Vec<(u64, bool)> = Vec::new();
    for entry in it: flags.iter()
        invariant
            pairs@.len() == it.index(),
            forall|k: int|
                0 <= k < pairs@.len() ==> (#[trigger] pairs@[k]).0 == *it.seq()[k].0
                    && pairs@[k].1 == *it.seq()[k].1,
    {
        pairs.push((*entry.0, *entry.1));
    }
    proof {
        let handed = spec_hash_map_iter(flags).remaining();
        assert(pairs@.len() == handed.len());
        assert forall|k: int| 0 <= k < pairs@.len() implies (#[trigger] pairs@[k]).0
            == *handed[k].0 && pairs@[k].1 == *handed[k].1 by {}
        assert forall|line: u64| flags@.contains_key(line) implies exists|k: int|
            0 <= k < pairs@.len() && (#[trigger] pairs@[k]).0 == line by {
            assert(handed.contains((&line, &flags@[line])));
            let k = choose|k: int| 0 <= k < handed.len() && handed[k] == (&line, &flags@[line]);
            assert(pairs@[k].0 == line);
        }
        assert forall|a: int, b: int| 0 <= a < b < pairs@.len() implies pairs@[a].0
            != pairs@[b].0 by {
            if pairs@[a].0 == pairs@[b].0 {
                assert(flags@[*handed[a].0] == *handed[a].1);
                assert(flags@[*handed[b].0] == *handed[b].1);
                assert(handed[a] == handed[b]);
            }
        }
    }
    pairs
}

/// Orders two entries by their lines.
pub fn line_order(left: &(u64, bool), right: &(u64, bool)) -> (order: Ordering)
    ensures
        (order == Ordering::Less) == (left.0 < right.0),
        (order == Ordering::Equal) == (left.0 == right.0),
        (order == Ordering::Greater) == (left.0 > right.0),
{
    if left.0 < right.0 {
        Ordering::Less
    } else if left.0 == right.0 {
        Ordering::Equal
    } else {
        Ordering::Greater
    }
}

/// Calls `Itertools::sorted_by` with `line_order` as the comparison.
/// Trusted: the result holds the same pairs, each as often as before, in
/// ascending order of their lines.
#[verifier::external_body]
fn sorted_by_line(pairs: Vec<(u64, bool)>) -> (sorted: Vec<(u64, bool)>)
    ensures
        sorted@.to_multiset() == pairs@.to_multiset(),
        forall|i: int, j: int| 0 <= i < j < sorted@.len() ==> sorted@[i].0 <= sorted@[j].0,
{
    pairs.into_iter().sorted_by(|left, right| line_order(left, right)).collect()
}

/// Coalesces the records of one file in place: afterwards the lines
/// strictly ascend, a line has a record exactly if it had one before, and
/// its record is executed exactly if one of its records was.
pub fn coalesce_lines(lines: &mut Vec<LineInfo>)
    ensures
        final(lines)@ == coalesced(old(lines)@),
        strictly_ascending(final(lines)@),
        forall|line: u64| has_line(final(lines)@, line) <==> has_line(old(lines)@, line),
        forall|line: u64|
            line_executed(final(lines)@, line) <==> line_executed(old(lines)@, line),
{
    let flags = fold_lines(lines);
    let pairs = entries_of(&flags);
    let ghost listed = pairs@;
    let sorted = sorted_by_line(pairs);
    proof {
        broadcast use vstd::seq_lib::group_to_multiset_ensures;

        assert forall|a: int, b: int| 0 <= a < b < listed.len() implies listed[a]
            != listed[b] by {
            assert(listed[a].0 != listed[b].0);
        }
        assert(listed.no_duplicates());
        listed.lemma_multiset_has_no_duplicates();
        sorted@.lemma_multiset_has_no_duplicates_conv();
        assert forall|k: int| 0 <= k < sorted@.len() implies listed.contains(
            #[trigger] sorted@[k],
        ) by {
            assert(sorted@.contains(sorted@[k]));
            assert(sorted@.to_multiset().count(sorted@[k]) > 0);
        }
        assert forall|k: int| 0 <= k < listed.len() implies sorted@.contains(
            #[trigger] listed[k],
        ) by {
            assert(listed.contains(listed[k]));
            assert(listed.to_multiset().count(listed[k]) > 0);
        }
    }
    let mut merged: Vec<LineInfo> = Vec::new();
    let mut i: usize = 0;
    while i < sorted.len()
        invariant
            i <= sorted@.len(),
            merged@.len() == i,
            forall|k: int|
                0 <= k < i ==> (#[trigger] merged@[k]) == (LineInfo {
                    line: sorted@[k].0,
                    executed: sorted@[k].1,
                }),
        decreases sorted@.len() - i,
    {
        merged.push(LineInfo { line: sorted[i].0, executed: sorted[i].1 });
        i = i + 1;
    }
    proof {
        let before = lines@;
        let after = merged@;
        assert forall|a: int, b: int| 0 <= a < b < after.len() implies after[a].line
            < after[b].line by {
            assert(sorted@[a].0 <= sorted@[b].0);
            if sorted@[a].0 == sorted@[b].0 {
                let p = choose|p: int| 0 <= p < listed.len() && listed[p] == sorted@[a];
                let q = choose|q: int| 0 <= q < listed.len() && listed[q] == sorted@[b];
                if p < q {
                    assert(listed[p].0 != listed[q].0);
                } else if q < p {
                    assert(listed[q].0 != listed[p].0);
                }
                assert(sorted@[a] == sorted@[b]);
            }
        }
        assert forall|line: u64| has_line(after, line) <==> has_line(before, line) by {
            if has_line(after, line) {
                let k = choose|k: int| 0 <= k < after.len() && (#[trigger] after[k]).line == line;
                let p = choose|p: int| 0 <= p < listed.len() && listed[p] == sorted@[k];
                assert(flags@.contains_key(listed[p].0));
            }
            if has_line(before, line) {
                let p = choose|p: int| 0 <= p < listed.len() && (#[trigger] listed[p]).0 == line;
                assert(sorted@.contains(listed[p]));
                let k = choose|k: int| 0 <= k < sorted@.len() && sorted@[k] == listed[p];
                assert(after[k].line == line);
            }
        }
        assert forall|line: u64| line_executed(after, line) <==> line_executed(
            before,
            line,
        ) by {
            if line_executed(after, line) {
                let k = choose|k: int|
                    0 <= k < after.len() && (#[trigger] after[k]).line == line
                        && after[k].executed;
                let p = choose|p: int| 0 <= p < listed.len() && listed[p] == sorted@[k];
                assert(flags@.contains_key(listed[p].0));
            }
            if line_executed(before, line) {
                let w = choose|w: int|
                    0 <= w < before.len() && (#[trigger] before[w]).line == line
                        && before[w].executed;
                assert(before[w].line == line);
                assert(has_line(before, line));
                let p = choose|p: int| 0 <= p < listed.len() && (#[trigger] listed[p]).0 == line;
                assert(sorted@.contains(listed[p]));
                let k = choose|k: int| 0 <= k < sorted@.len() && sorted@[k] == listed[p];
                assert(after[k].line == line && after[k].executed);
            }
        }
        lemma_coalesced_ascending(before);
        assert forall|line: u64| has_line(after, line) <==> has_line(
            coalesced(before),
            line,
        ) by {
            lemma_coalesced_has_line(before, line);
        }
        assert forall|line: u64| line_executed(after, line) <==> line_executed(
            coalesced(before),
            line,
        ) by {
            lemma_coalesced_line_executed(before, line);
        }
        lemma_ascending_unique(after, coalesced(before));
    }
    *lines = merged;
}

} // verus!
