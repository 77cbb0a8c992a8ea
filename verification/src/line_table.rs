//! The line records of a run, by source file.
//!
//! The table holds its files in the order in which they were first seen and
//! finds a file by its path through a hash map from paths to places. The
//! records themselves stand in a vector: of a `HashMap` keyed by `String`
//! Verus knows nothing, and the string map of vstd hands out no mutable
//! reference to what it holds.

use crate::coalesce::{coalesce_lines, coalesced, lemma_coalesce_idempotent};
use crate::dwarf::LineInfo;
use vstd::hash_map::StringHashMap;
use vstd::prelude::*;
use vstd::string::*;

verus! {

/// The records of one source file.
#[derive(Debug)]
pub struct SourceLines {
    pub path: String,
    pub lines: Vec<LineInfo>,
}

/// The line records of a run, by source file. No file stands twice.
pub struct LineTable {
    entries: Vec<SourceLines>,
    places: StringHashMap<usize>,
}

/// Whether no two entries are of the same file.
pub open spec fn paths_distinct(entries: Seq<SourceLines>) -> bool {
    forall|i: int, j: int|
        0 <= i < j < entries.len() ==> (#[trigger] entries[i]).path@ != (#[trigger] entries[j]).path@
}

/// Whether some entry is of the file `path`.
pub open spec fn has_entry(entries: Seq<SourceLines>, path: Seq<char>) -> bool {
    exists|i: int| 0 <= i < entries.len() && (#[trigger] entries[i]).path@ == path
}

/// The place of the entry of the file `path`.
pub open spec fn entry_of(entries: Seq<SourceLines>, path: Seq<char>) -> int {
    choose|i: int| 0 <= i < entries.len() && (#[trigger] entries[i]).path@ == path
}

/// The records of each file that has an entry.
pub open spec fn table_of(entries: Seq<SourceLines>) -> Map<Seq<char>, Seq<LineInfo>> {
    Map::new(
        |path: Seq<char>| has_entry(entries, path),
        |path: Seq<char>| entries[entry_of(entries, path)].lines@,
    )
}

/// The records that a table holds for a file: none for a file it does not
/// know.
pub open spec fn lines_of(table: Map<Seq<char>, Seq<LineInfo>>, path: Seq<char>) -> Seq<LineInfo> {
    if table.dom().contains(path) {
        table[path]
    } else {
        Seq::empty()
    }
}

/// A table with one more record for a file.
pub open spec fn with_record(
    table: Map<Seq<char>, Seq<LineInfo>>,
    path: Seq<char>,
    info: LineInfo,
) -> Map<Seq<char>, Seq<LineInfo>> {
    table.insert(path, lines_of(table, path).push(info))
}

/// A table with the records of every file coalesced.
pub open spec fn coalesced_table(table: Map<Seq<char>, Seq<LineInfo>>) -> Map<
    Seq<char>,
    Seq<LineInfo>,
> {
    Map::new(|path: Seq<char>| table.dom().contains(path), |path: Seq<char>| coalesced(table[path]))
}

/// Two tables as one: every file has the records of the first table and
/// then those of the second.
pub open spec fn merged_tables(
    first: Map<Seq<char>, Seq<LineInfo>>,
    second: Map<Seq<char>, Seq<LineInfo>>,
) -> Map<Seq<char>, Seq<LineInfo>> {
    Map::new(
        |path: Seq<char>| first.dom().contains(path) || second.dom().contains(path),
        |path: Seq<char>| lines_of(first, path) + lines_of(second, path),
    )
}

/// Whether `places` gives the place of every entry by its path, and of
/// nothing else.
pub open spec fn indexed(entries: Seq<SourceLines>, places: Map<Seq<char>, usize>) -> bool {
    &&& forall|i: int|
        0 <= i < entries.len() ==> places.contains_key((#[trigger] entries[i]).path@)
            && places[entries[i].path@] == i
    &&& forall|path: Seq<char>| #[trigger]
        places.contains_key(path) ==> places[path] < entries.len()
            && entries[places[path] as int].path@ == path
}

/// Coalescing a table is idempotent.
pub proof fn lemma_coalesced_table_idempotent(table: Map<Seq<char>, Seq<LineInfo>>)
    ensures
        coalesced_table(coalesced_table(table)) == coalesced_table(table),
{
    let once = coalesced_table(table);
    assert forall|path: Seq<char>| once.dom().contains(path) implies coalesced_table(once)[path]
        == once[path] by {
        lemma_coalesce_idempotent(table[path]);
    }
    assert(coalesced_table(once) =~= once);
}

/// Among distinct entries, each is the entry of its own file.
pub proof fn lemma_entry_of(entries: Seq<SourceLines>, index: int)
    requires
        paths_distinct(entries),
        0 <= index < entries.len(),
    ensures
        has_entry(entries, entries[index].path@),
        entry_of(entries, entries[index].path@) == index,
        table_of(entries).dom().contains(entries[index].path@),
        table_of(entries)[entries[index].path@] == entries[index].lines@,
{
    let path = entries[index].path@;
    assert(entries[index].path@ == path);
    let found = entry_of(entries, path);
    if found < index {
        assert(entries[found].path@ != entries[index].path@);
    } else if index < found {
        assert(entries[index].path@ != entries[found].path@);
    }
}

/// Entries that are indexed are distinct, and the index knows exactly the
/// files that have an entry.
pub proof fn lemma_indexed(entries: Seq<SourceLines>, places: Map<Seq<char>, usize>)
    requires
        indexed(entries, places),
    ensures
        paths_distinct(entries),
        forall|path: Seq<char>| has_entry(entries, path) == places.contains_key(path),
{
    assert forall|i: int, j: int| 0 <= i < j < entries.len() implies (#[trigger] entries[i]).path@
        != (#[trigger] entries[j]).path@ by {
        assert(places[entries[i].path@] == i);
        assert(places[entries[j].path@] == j);
    }
    assert forall|path: Seq<char>| has_entry(entries, path) == places.contains_key(path) by {
        if has_entry(entries, path) {
            let i = entry_of(entries, path);
            assert(places.contains_key(entries[i].path@));
        }
        if places.contains_key(path) {
            assert(entries[places[path] as int].path@ == path);
        }
    }
}

/// Entries whose paths did not change are indexed as before.
proof fn lemma_indexed_same_paths(
    before: Seq<SourceLines>,
    after: Seq<SourceLines>,
    places: Map<Seq<char>, usize>,
)
    requires
        indexed(before, places),
        after.len() == before.len(),
        forall|i: int| 0 <= i < before.len() ==> (#[trigger] after[i]).path@ == before[i].path@,
    ensures
        indexed(after, places),
        forall|path: Seq<char>| has_entry(after, path) == has_entry(before, path),
        forall|path: Seq<char>| has_entry(after, path) ==> entry_of(after, path) == entry_of(before, path),
{
    assert forall|i: int| 0 <= i < after.len() implies places.contains_key(
        (#[trigger] after[i]).path@,
    ) && places[after[i].path@] == i by {
        assert(places.contains_key(before[i].path@));
    }
    assert forall|path: Seq<char>| #[trigger] places.contains_key(path) implies places[path]
        < after.len() && after[places[path] as int].path@ == path by {
        assert(before[places[path] as int].path@ == path);
    }
    lemma_indexed(before, places);
    lemma_indexed(after, places);
    assert forall|path: Seq<char>| has_entry(after, path) implies entry_of(after, path)
        == entry_of(before, path) by {
        let k = entry_of(after, path);
        lemma_entry_of(after, k);
        assert(before[k].path@ == path);
        lemma_entry_of(before, k);
    }
}

/// Distinct entries with one more, of a new file, hold what they held and
/// the records of the new entry under its file.
proof fn lemma_table_of_push(entries: Seq<SourceLines>, entry: SourceLines)
    requires
        paths_distinct(entries.push(entry)),
    ensures
        !table_of(entries).dom().contains(entry.path@),
        table_of(entries.push(entry)) == table_of(entries).insert(entry.path@, entry.lines@),
{
    let longer = entries.push(entry);
    assert(longer[entries.len() as int] == entry);
    if has_entry(entries, entry.path@) {
        let k = entry_of(entries, entry.path@);
        assert(longer[k].path@ != longer[entries.len() as int].path@);
    }
    assert forall|a: int, b: int| 0 <= a < b < entries.len() implies (#[trigger] entries[a]).path@
        != (#[trigger] entries[b]).path@ by {
        assert(longer[a].path@ != longer[b].path@);
    }
    assert forall|p: Seq<char>| has_entry(longer, p) == (has_entry(entries, p) || p
        == entry.path@) by {
        if has_entry(entries, p) {
            let k = entry_of(entries, p);
            assert(longer[k].path@ == p);
        }
        if p == entry.path@ {
            assert(longer[entries.len() as int].path@ == p);
        }
        if has_entry(longer, p) {
            let k = entry_of(longer, p);
            if k < entries.len() {
                assert(entries[k].path@ == p);
            }
        }
    }
    assert forall|p: Seq<char>| has_entry(longer, p) implies table_of(longer)[p] == table_of(
        entries,
    ).insert(entry.path@, entry.lines@)[p] by {
        let k = entry_of(longer, p);
        lemma_entry_of(longer, k);
        if k < entries.len() {
            assert(entries[k].path@ == p);
            lemma_entry_of(entries, k);
        }
    }
    assert(table_of(longer) =~= table_of(entries).insert(entry.path@, entry.lines@));
}

/// Adds the entry of a file that has none yet.
fn push_entry(
    entries: &mut Vec<SourceLines>,
    places: &mut StringHashMap<usize>,
    path: &str,
    lines: Vec<LineInfo>,
)
    requires
        indexed(old(entries)@, old(places)@),
        !old(places)@.contains_key(path@),
    ensures
        indexed(final(entries)@, final(places)@),
        table_of(final(entries)@) == table_of(old(entries)@).insert(path@, lines@),
{
    let ghost before = entries@;
    let ghost known = places@;
    let place: usize = entries.len();
    places.insert(String::from_str(path), place);
    entries.push(SourceLines { path: String::from_str(path), lines });
    proof {
        let after = entries@;
        assert(after[place as int].path@ == path@);
        assert forall|i: int| 0 <= i < after.len() implies places@.contains_key(
            (#[trigger] after[i]).path@,
        ) && places@[after[i].path@] == i by {
            if i < before.len() {
                assert(after[i] == before[i]);
                assert(known.contains_key(before[i].path@));
            }
        }
        assert forall|p: Seq<char>| #[trigger] places@.contains_key(p) implies places@[p]
            < after.len() && after[places@[p] as int].path@ == p by {
            if p != path@ {
                assert(known.contains_key(p));
                assert(after[known[p] as int] == before[known[p] as int]);
            }
        }
        lemma_indexed(after, places@);
        assert(after =~= before.push(after[place as int]));
        lemma_table_of_push(before, after[place as int]);
    }
}

/// Adds one record to the records of a file.
fn append_record(
    entries: &mut Vec<SourceLines>,
    places: &mut StringHashMap<usize>,
    path: &str,
    info: LineInfo,
)
    requires
        indexed(old(entries)@, old(places)@),
    ensures
        indexed(final(entries)@, final(places)@),
        table_of(final(entries)@) == with_record(table_of(old(entries)@), path@, info),
{
    let ghost before = entries@;
    proof {
        lemma_indexed(before, places@);
    }
    let found = match places.get(path) {
        Some(place) => Some(*place),
        None => None,
    };
    match found {
        Some(place) => {
            entries[place].lines.push(info);
            proof {
                let after = entries@;
                lemma_indexed_same_paths(before, after, places@);
                lemma_indexed(after, places@);
                lemma_entry_of(before, place as int);
                lemma_entry_of(after, place as int);
                assert forall|p: Seq<char>| has_entry(after, p) implies table_of(after)[p]
                    == with_record(table_of(before), path@, info)[p] by {
                    let k = entry_of(after, p);
                    lemma_entry_of(after, k);
                    lemma_entry_of(before, k);
                    assert(before[k].path@ == p);
                }
                assert(table_of(after) =~= with_record(table_of(before), path@, info));
            }
        },
        None => {
            let mut lines: Vec<LineInfo> = Vec::new();
            lines.push(info);
            assert(lines@ =~= Seq::<LineInfo>::empty().push(info));
            push_entry(entries, places, path, lines);
        },
    }
}

/// Adds records to the records of a file, which has an entry afterwards
/// even if there are no records to add.
fn append_lines(
    entries: &mut Vec<SourceLines>,
    places: &mut StringHashMap<usize>,
    path: &str,
    lines: &Vec<LineInfo>,
)
    requires
        indexed(old(entries)@, old(places)@),
    ensures
        indexed(final(entries)@, final(places)@),
        table_of(final(entries)@) == table_of(old(entries)@).insert(
            path@,
            lines_of(table_of(old(entries)@), path@) + lines@,
        ),
{
    let ghost start = table_of(entries@);
    proof {
        lemma_indexed(entries@, places@);
    }
    if !places.contains_key(path) {
        push_entry(entries, places, path, Vec::new());
    }
    let ghost opened = table_of(entries@);
    proof {
        assert(opened =~= start.insert(path@, lines_of(start, path@)));
    }
    let mut j: usize = 0;
    assert(lines@.take(0) =~= Seq::<LineInfo>::empty());
    assert(lines_of(start, path@) + lines@.take(0) =~= lines_of(start, path@));
    while j < lines.len()
        invariant
            j <= lines@.len(),
            indexed(entries@, places@),
            table_of(entries@) == start.insert(
                path@,
                lines_of(start, path@) + lines@.take(j as int),
            ),
        decreases lines@.len() - j,
    {
        append_record(entries, places, path, lines[j]);
        proof {
            assert(lines@.take(j + 1) =~= lines@.take(j as int).push(lines@[j as int]));
            assert((lines_of(start, path@) + lines@.take(j as int)).push(lines@[j as int])
                =~= lines_of(start, path@) + lines@.take(j + 1));
            assert(table_of(entries@) =~= start.insert(
                path@,
                lines_of(start, path@) + lines@.take(j + 1),
            ));
        }
        j = j + 1;
    }
    assert(lines@.take(j as int) =~= lines@);
}

impl View for LineTable {
    type V = Map<Seq<char>, Seq<LineInfo>>;

    closed spec fn view(&self) -> Map<Seq<char>, Seq<LineInfo>> {
        table_of(self.entries@)
    }
}

impl LineTable {
    #[verifier::type_invariant]
    spec fn well_formed(self) -> bool {
        indexed(self.entries@, self.places@)
    }

    /// A table without records.
    pub fn new() -> (table: LineTable)
        ensures
            table@ == Map::<Seq<char>, Seq<LineInfo>>::empty(),
    {
        let table = LineTable { entries: Vec::new(), places: StringHashMap::new() };
        assert(table@ =~= Map::<Seq<char>, Seq<LineInfo>>::empty());
        table
    }

    /// The entries of the table: one per file, no file twice, in the order
    /// in which the files were first seen.
    pub fn entries(&self) -> (entries: &Vec<SourceLines>)
        ensures
            paths_distinct(entries@),
            table_of(entries@) == self@,
    {
        proof {
            use_type_invariant(self);
            lemma_indexed(self.entries@, self.places@);
        }
        &self.entries
    }

    /// The records of a file, if the table knows the file.
    pub fn get(&self, path: &str) -> (lines: Option<&Vec<LineInfo>>)
        ensures
            match lines {
                Some(lines) => self@.dom().contains(path@) && lines@ == self@[path@],
                None => !self@.dom().contains(path@),
            },
    {
        proof {
            use_type_invariant(self);
            lemma_indexed(self.entries@, self.places@);
        }
        match self.places.get(path) {
            Some(place) => {
                proof {
                    lemma_entry_of(self.entries@, *place as int);
                }
                Some(&self.entries[*place].lines)
            },
            None => None,
        }
    }

    /// Adds one record to the records of the file `path`.
    pub fn append(&mut self, path: &str, info: LineInfo)
        ensures
            final(self)@ == with_record(old(self)@, path@, info),
    {
        proof {
            use_type_invariant(&*self);
        }
        let mut taken = LineTable::new();
        core::mem::swap(self, &mut taken);
        let LineTable { mut entries, mut places } = taken;
        append_record(&mut entries, &mut places, path, info);
        *self = LineTable { entries, places };
    }

    /// Coalesces the records of every file.
    pub fn coalesce(&mut self)
        ensures
            final(self)@ == coalesced_table(old(self)@),
    {
        proof {
            use_type_invariant(&*self);
        }
        let mut taken = LineTable::new();
        core::mem::swap(self, &mut taken);
        let LineTable { mut entries, places } = taken;
        let ghost before = entries@;
        let mut i: usize = 0;
        while i < entries.len()
            invariant
                i <= entries@.len(),
                entries@.len() == before.len(),
                forall|k: int| 0 <= k < before.len() ==> (#[trigger] entries@[k]).path@ == before[k].path@,
                forall|k: int| 0 <= k < i ==> (#[trigger] entries@[k]).lines@ == coalesced(before[k].lines@),
                forall|k: int| i <= k < before.len() ==> (#[trigger] entries@[k]).lines@ == before[k].lines@,
            decreases entries@.len() - i,
        {
            coalesce_lines(&mut entries[i].lines);
            i = i + 1;
        }
        proof {
            let after = entries@;
            lemma_indexed(before, places@);
            lemma_indexed_same_paths(before, after, places@);
            lemma_indexed(after, places@);
            assert forall|p: Seq<char>| has_entry(after, p) implies table_of(after)[p]
                == coalesced_table(table_of(before))[p] by {
                let k = entry_of(after, p);
                lemma_entry_of(after, k);
                assert(before[k].path@ == p);
                lemma_entry_of(before, k);
            }
            assert(table_of(after) =~= coalesced_table(table_of(before)));
        }
        *self = LineTable { entries, places };
    }

    /// Takes over the records of another table, behind its own.
    pub fn absorb(&mut self, other: &LineTable)
        ensures
            final(self)@ == merged_tables(old(self)@, other@),
    {
        proof {
            use_type_invariant(&*self);
            use_type_invariant(other);
            lemma_indexed(other.entries@, other.places@);
        }
        let mut taken = LineTable::new();
        core::mem::swap(self, &mut taken);
        let LineTable { mut entries, mut places } = taken;
        let ghost start = table_of(entries@);
        let ghost theirs = other.entries@;
        let mut i: usize = 0;
        assert(table_of(theirs.take(0)) =~= Map::<Seq<char>, Seq<LineInfo>>::empty());
        assert(table_of(entries@) =~= merged_tables(start, table_of(theirs.take(0))));
        while i < other.entries.len()
            invariant
                i <= theirs.len(),
                theirs == other.entries@,
                paths_distinct(theirs),
                indexed(entries@, places@),
                table_of(entries@) == merged_tables(start, table_of(theirs.take(i as int))),
            decreases theirs.len() - i,
        {
            let ghost before = table_of(entries@);
            let entry = &other.entries[i];
            append_lines(&mut entries, &mut places, entry.path.as_str(), &entry.lines);
            proof {
                let shorter = theirs.take(i as int);
                let longer = theirs.take(i + 1);
                let path = theirs[i as int].path@;
                assert(longer =~= shorter.push(theirs[i as int]));
                assert forall|a: int, b: int| 0 <= a < b < longer.len() implies (
                #[trigger] longer[a]).path@ != (#[trigger] longer[b]).path@ by {
                    assert(theirs[a].path@ != theirs[b].path@);
                }
                lemma_table_of_push(shorter, theirs[i as int]);
                assert(table_of(entries@) =~= merged_tables(start, table_of(longer))) by {
                    let target = merged_tables(start, table_of(longer));
                    let got = table_of(entries@);
                    assert(!table_of(shorter).dom().contains(path));
                    assert(lines_of(before, path) =~= lines_of(start, path));
                    assert forall|p: Seq<char>| got.dom().contains(p) == target.dom().contains(
                        p,
                    ) by {}
                    assert forall|p: Seq<char>| got.dom().contains(p) implies got[p]
                        == target[p] by {}
                }
            }
            i = i + 1;
        }
        assert(theirs.take(i as int) =~= theirs);
        *self = LineTable { entries, places };
    }
}

} // verus!
