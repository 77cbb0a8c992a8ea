//! The line-coverage report.
//!
//! The report has one block per source file, the files in ascending order
//! of the bytes of their paths:
//!
//! ```text
//! SF:<path>
//! DA:<line>,<0 or 1>
//! end_of_record
//! ```
//!
//! with one `DA` line for every record of the file, in the order of the
//! records.

use crate::dwarf::LineInfo;
use crate::line_table::{entry_of, has_entry, LineTable};
use crate::resolver::{hex_digit, hex_digit_text};
use itertools::Itertools;
use vstd::prelude::*;
use vstd::string::*;
use vstd::utf8::{encode_utf8, encode_utf8_decode_utf8};

verus! {

/// Whether `left` comes before `right` in the order of byte strings: at the
/// first place where they differ `left` has the smaller byte, or `left`
/// ends there and `right` goes on.
pub open spec fn bytes_less(left: Seq<u8>, right: Seq<u8>) -> bool
    decreases left.len(),
{
    if right.len() == 0 {
        false
    } else if left.len() == 0 {
        true
    } else if left[0] != right[0] {
        left[0] < right[0]
    } else {
        bytes_less(left.skip(1), right.skip(1))
    }
}

/// Whether the path `left` comes before the path `right`: the order of
/// their UTF-8 bytes.
pub open spec fn path_less(left: Seq<char>, right: Seq<char>) -> bool {
    bytes_less(encode_utf8(left), encode_utf8(right))
}

/// Of two different byte strings one comes before the other.
pub proof fn lemma_bytes_less_total(left: Seq<u8>, right: Seq<u8>)
    requires
        left != right,
    ensures
        bytes_less(left, right) || bytes_less(right, left),
    decreases left.len(),
{
    if left.len() > 0 && right.len() > 0 && left[0] == right[0] {
        if left.skip(1) == right.skip(1) {
            assert(left.skip(1).len() == right.skip(1).len());
            assert forall|i: int| 0 <= i < left.len() implies left[i] == right[i] by {
                if i > 0 {
                    assert(left[i] == left.skip(1)[i - 1]);
                    assert(right[i] == right.skip(1)[i - 1]);
                }
            }
            assert(left =~= right);
        }
        lemma_bytes_less_total(left.skip(1), right.skip(1));
    } else if left.len() == 0 && right.len() == 0 {
        assert(left =~= right);
    }
}

/// Of two different paths one comes before the other.
pub proof fn lemma_path_less_total(left: Seq<char>, right: Seq<char>)
    requires
        left != right,
    ensures
        path_less(left, right) || path_less(right, left),
{
    encode_utf8_decode_utf8(left);
    encode_utf8_decode_utf8(right);
    lemma_bytes_less_total(encode_utf8(left), encode_utf8(right));
}

/// No byte string comes before itself.
pub proof fn lemma_bytes_less_irreflexive(bytes: Seq<u8>)
    ensures
        !bytes_less(bytes, bytes),
    decreases bytes.len(),
{
    if bytes.len() > 0 {
        lemma_bytes_less_irreflexive(bytes.skip(1));
    }
}

/// The order of byte strings is transitive.
pub proof fn lemma_bytes_less_transitive(first: Seq<u8>, second: Seq<u8>, third: Seq<u8>)
    requires
        bytes_less(first, second),
        bytes_less(second, third),
    ensures
        bytes_less(first, third),
    decreases first.len(),
{
    if first.len() > 0 && first[0] == second[0] && second[0] == third[0] {
        lemma_bytes_less_transitive(first.skip(1), second.skip(1), third.skip(1));
    }
}

/// Texts as plain values.
pub open spec fn text_views(texts: Seq<String>) -> Seq<Seq<char>> {
    texts.map_values(|text: String| text@)
}

/// Calls `Itertools::sorted` on the texts. Trusted: the result holds the
/// same texts, each as often as before, in ascending order of their bytes,
/// which is the order of `String`.
#[verifier::external_body]
pub(crate) fn sorted_texts(texts: Vec<String>) -> (sorted: Vec<String>)
    ensures
        text_views(sorted@).to_multiset() == text_views(texts@).to_multiset(),
        forall|i: int, j: int|
            0 <= i < j < sorted@.len() ==> !path_less(
                #[trigger] sorted@[j]@,
                #[trigger] sorted@[i]@,
            ),
{
    texts.into_iter().sorted().collect()
}

/// Whether `order` lists the files of `files`, each once, in ascending
/// order.
pub open spec fn is_sorted_listing(order: Seq<Seq<char>>, files: Set<Seq<char>>) -> bool {
    &&& forall|i: int, j: int|
        0 <= i < j < order.len() ==> path_less(#[trigger] order[i], #[trigger] order[j])
    &&& forall|path: Seq<char>| files.contains(path) <==> order.contains(path)
}

/// A sorted listing holds no file twice.
pub proof fn lemma_sorted_listing_distinct(order: Seq<Seq<char>>, i: int, j: int)
    requires
        forall|i: int, j: int|
            0 <= i < j < order.len() ==> path_less(#[trigger] order[i], #[trigger] order[j]),
        0 <= i < order.len(),
        0 <= j < order.len(),
        order[i] == order[j],
    ensures
        i == j,
{
    lemma_bytes_less_irreflexive(encode_utf8(order[i]));
    if i < j {
        assert(path_less(order[i], order[j]));
    } else if j < i {
        assert(path_less(order[j], order[i]));
    }
}

/// There is but one sorted listing of a set of files.
pub proof fn lemma_sorted_listing_unique(
    first: Seq<Seq<char>>,
    second: Seq<Seq<char>>,
    files: Set<Seq<char>>,
)
    requires
        is_sorted_listing(first, files),
        is_sorted_listing(second, files),
    ensures
        first == second,
    decreases first.len(),
{
    if first.len() == 0 {
        if second.len() > 0 {
            assert(second.contains(second[0]));
            assert(first.contains(second[0]));
        }
        assert(first =~= second);
    } else {
        assert(first.contains(first[0]));
        assert(second.contains(first[0]));
        let k = choose|k: int| 0 <= k < second.len() && second[k] == first[0];
        assert(second.contains(second[0]));
        assert(first.contains(second[0]));
        let m = choose|m: int| 0 <= m < first.len() && first[m] == second[0];
        if k > 0 {
            assert(path_less(second[0], second[k]));
            if m > 0 {
                assert(path_less(first[0], first[m]));
                lemma_bytes_less_transitive(
                    encode_utf8(second[0]),
                    encode_utf8(first[0]),
                    encode_utf8(second[0]),
                );
            }
            lemma_bytes_less_irreflexive(encode_utf8(second[0]));
        }
        let head = first[0];
        let rest = files.remove(head);
        let first_tail = first.skip(1);
        let second_tail = second.skip(1);
        assert forall|path: Seq<char>| rest.contains(path) <==> first_tail.contains(path) by {
            if first_tail.contains(path) {
                let i = choose|i: int| 0 <= i < first_tail.len() && first_tail[i] == path;
                assert(first[i + 1] == path);
                assert(first.contains(path));
                if path == head {
                    lemma_sorted_listing_distinct(first, 0, i + 1);
                }
            }
            if rest.contains(path) {
                assert(first.contains(path));
                let i = choose|i: int| 0 <= i < first.len() && first[i] == path;
                assert(first_tail[i - 1] == path);
            }
        }
        assert forall|path: Seq<char>| rest.contains(path) <==> second_tail.contains(path) by {
            if second_tail.contains(path) {
                let i = choose|i: int| 0 <= i < second_tail.len() && second_tail[i] == path;
                assert(second[i + 1] == path);
                assert(second.contains(path));
                if path == head {
                    lemma_sorted_listing_distinct(second, 0, i + 1);
                }
            }
            if rest.contains(path) {
                assert(second.contains(path));
                let i = choose|i: int| 0 <= i < second.len() && second[i] == path;
                assert(second_tail[i - 1] == path);
            }
        }
        assert forall|i: int, j: int| 0 <= i < j < first_tail.len() implies path_less(
            #[trigger] first_tail[i],
            #[trigger] first_tail[j],
        ) by {
            assert(path_less(first[i + 1], first[j + 1]));
        }
        assert forall|i: int, j: int| 0 <= i < j < second_tail.len() implies path_less(
            #[trigger] second_tail[i],
            #[trigger] second_tail[j],
        ) by {
            assert(path_less(second[i + 1], second[j + 1]));
        }
        lemma_sorted_listing_unique(first_tail, second_tail, rest);
        assert(first =~= seq![head] + first_tail);
        assert(second =~= seq![head] + second_tail);
    }
}

/// The files of a set in ascending order.
pub open spec fn sorted_listing(files: Set<Seq<char>>) -> Seq<Seq<char>> {
    choose|order: Seq<Seq<char>>| is_sorted_listing(order, files)
}

/// A number in decimal.
pub open spec fn decimal_text(number: nat) -> Seq<char>
    decreases number,
{
    if number < 10 {
        seq![hex_digit(number as int)]
    } else {
        decimal_text(number / 10).push(hex_digit((number % 10) as int))
    }
}

/// The line of the report for one record.
pub open spec fn record_line(info: LineInfo) -> Seq<char> {
    "DA:"@ + decimal_text(info.line as nat) + seq![
        ',',
        if info.executed {
            '1'
        } else {
            '0'
        },
        '\n',
    ]
}

/// The lines of the report for some records.
pub open spec fn record_lines(lines: Seq<LineInfo>) -> Seq<char>
    decreases lines.len(),
{
    if lines.len() == 0 {
        Seq::empty()
    } else {
        record_lines(lines.drop_last()) + record_line(lines.last())
    }
}

/// The block of the report for one file.
pub open spec fn file_block(path: Seq<char>, lines: Seq<LineInfo>) -> Seq<char> {
    "SF:"@ + path + seq!['\n'] + record_lines(lines) + "end_of_record\n"@
}

/// The report of a table with its files in the given order.
pub open spec fn report_text(table: Map<Seq<char>, Seq<LineInfo>>, order: Seq<Seq<char>>) -> Seq<
    char,
>
    decreases order.len(),
{
    if order.len() == 0 {
        Seq::empty()
    } else {
        report_text(table, order.drop_last()) + file_block(order.last(), table[order.last()])
    }
}

fn append_decimal(text: &mut String, number: u64)
    ensures
        final(text)@ == old(text)@ + decimal_text(number as nat),
    decreases number,
{
    if number < 10 {
        text.append(hex_digit_text(number as u8));
    } else {
        append_decimal(text, number / 10);
        text.append(hex_digit_text((number % 10) as u8));
        assert(text@ =~= old(text)@ + decimal_text(number as nat));
    }
}

fn append_record_lines(text: &mut String, lines: &Vec<LineInfo>)
    ensures
        final(text)@ == old(text)@ + record_lines(lines@),
{
    let mut i: usize = 0;
    assert(lines@.take(0) =~= Seq::<LineInfo>::empty());
    assert(text@ =~= old(text)@ + record_lines(lines@.take(0)));
    while i < lines.len()
        invariant
            i <= lines@.len(),
            text@ == old(text)@ + record_lines(lines@.take(i as int)),
        decreases lines@.len() - i,
    {
        let ghost before = text@;
        let info = lines[i];
        text.append("DA:");
        append_decimal(text, info.line);
        text.append(",");
        text.append(if info.executed {
            "1"
        } else {
            "0"
        });
        text.append("\n");
        proof {
            reveal_strlit(",");
            reveal_strlit("1");
            reveal_strlit("0");
            reveal_strlit("\n");
            assert(lines@.take(i + 1).drop_last() =~= lines@.take(i as int));
            assert(lines@.take(i + 1).last() == info);
            assert(text@ =~= before + record_line(info));
            assert(text@ =~= old(text)@ + record_lines(lines@.take(i + 1)));
        }
        i = i + 1;
    }
    assert(lines@.take(i as int) =~= lines@);
}

/// The report of a table: one block per file, the files in ascending order
/// of their paths.
pub open spec fn report_of(table: Map<Seq<char>, Seq<LineInfo>>) -> Seq<char> {
    report_text(table, sorted_listing(table.dom()))
}

/// Renders the report of a table.
pub fn lcov_report(table: &LineTable) -> (text: String)
    ensures
        text@ == report_of(table@),
{
    let entries = table.entries();
    let mut paths: Vec<String> = Vec::new();
    let mut k: usize = 0;
    while k < entries.len()
        invariant
            k <= entries@.len(),
            paths@.len() == k,
            forall|i: int| 0 <= i < k ==> (#[trigger] paths@[i])@ == entries@[i].path@,
        decreases entries@.len() - k,
    {
        paths.push(entries[k].path.clone());
        k = k + 1;
    }
    let ghost listed = text_views(paths@);
    let sorted = sorted_texts(paths);
    let ghost order = text_views(sorted@);
    proof {
        broadcast use vstd::seq_lib::group_to_multiset_ensures;

        assert forall|i: int, j: int| 0 <= i < j < listed.len() implies listed[i]
            != listed[j] by {
            assert(entries@[i].path@ != entries@[j].path@);
        }
        assert(listed.no_duplicates());
        listed.lemma_multiset_has_no_duplicates();
        order.lemma_multiset_has_no_duplicates_conv();
        assert forall|i: int, j: int| 0 <= i < j < order.len() implies path_less(
            #[trigger] order[i],
            #[trigger] order[j],
        ) by {
            assert(order[i] == sorted@[i]@);
            assert(order[j] == sorted@[j]@);
            assert(!path_less(sorted@[j]@, sorted@[i]@));
            lemma_path_less_total(order[i], order[j]);
        }
        assert forall|path: Seq<char>| table@.dom().contains(path) <==> order.contains(path) by {
            if has_entry(entries@, path) {
                let e = entry_of(entries@, path);
                assert(listed[e] == path);
                assert(listed.contains(path));
            }
            if listed.contains(path) {
                let e = choose|e: int| 0 <= e < listed.len() && listed[e] == path;
                assert(entries@[e].path@ == path);
            }
            assert(order.contains(path) <==> order.to_multiset().count(path) > 0);
            assert(listed.contains(path) <==> listed.to_multiset().count(path) > 0);
        }
        assert(is_sorted_listing(order, table@.dom()));
        lemma_sorted_listing_unique(order, sorted_listing(table@.dom()), table@.dom());
    }
    let mut text = String::new();
    let mut i: usize = 0;
    assert(order.take(0) =~= Seq::<Seq<char>>::empty());
    while i < sorted.len()
        invariant
            i <= sorted@.len(),
            order == text_views(sorted@),
            forall|path: Seq<char>| table@.dom().contains(path) <==> order.contains(path),
            text@ == report_text(table@, order.take(i as int)),
        decreases sorted@.len() - i,
    {
        let ghost before = text@;
        let ghost path = sorted@[i as int]@;
        proof {
            assert(order[i as int] == path);
            assert(order.contains(path));
        }
        match table.get(sorted[i].as_str()) {
            Some(lines) => {
                text.append("SF:");
                text.append(sorted[i].as_str());
                text.append("\n");
                append_record_lines(&mut text, lines);
                text.append("end_of_record\n");
                proof {
                    reveal_strlit("\n");
                    assert(text@ =~= before + file_block(path, table@[path]));
                }
            },
            None => {},
        }
        proof {
            assert(order.take(i + 1).drop_last() =~= order.take(i as int));
            assert(order.take(i + 1).last() == path);
        }
        i = i + 1;
    }
    assert(order.take(i as int) =~= order);
    text
}

} // verus!
