//! The decoder of trace files.
//!
//! A trace file is a text preamble followed by binary records:
//!
//! ```text
//! DRCOV VERSION: <n>
//! DRCOV FLAVOR: <tag>
//! Module Table: version <n>, count <n>      (or: Module Table: <n>)
//! Columns: ...                              (with the first form only)
//! <count> module lines
//! BB Table: <n> bbs
//! <n> records of 8 bytes: u32 start, u16 size, u16 module id
//! ```

use crate::bitmap::{bitmap_contents, bitmap_extend, empty_bitmap};
use crate::blocks::{blocks_applied, read_blocks};
use crate::error::DecodeError;
pub use crate::filter::{DrcovFilters, DrcovFiltersView};
use crate::grammar::{Grammar, FLAVOR_LINE, VERSION_LINE};
use crate::lines::{find_line, next_line};
use crate::module::capture_text;
pub use crate::module::{Module, ModuleView};
use crate::pattern::{captures, captures_view, pattern_captures};
use crate::table::{capture_u32, compact, module_table, read_module_table};
use crate::util::{le_u16, le_u32, parse_capture_group, read_u16_le, read_u32_le};
use vstd::prelude::*;
use vstd::slice::slice_subrange;

verus! {

/// The module table of a trace: the modules that the filters kept, in the
/// order of the file, and the version of the table's grammar.
#[derive(Debug)]
pub struct Modules {
    pub version: u32,
    pub table: Vec<Module>,
}

/// A module table as plain values.
#[verifier::ext_equal]
pub struct ModulesView {
    pub version: u32,
    pub table: Seq<ModuleView>,
}

/// The modules of a table as plain values.
pub open spec fn module_views(table: Seq<Module>) -> Seq<ModuleView> {
    table.map_values(|m: Module| m@)
}

impl View for Modules {
    type V = ModulesView;

    open spec fn view(&self) -> ModulesView {
        ModulesView { version: self.version, table: module_views(self.table@) }
    }
}

impl ModulesView {
    /// The offsets that executed in at least one module of the table.
    pub open spec fn coverage(self) -> Set<u32> {
        Set::new(
            |offset: u32|
                exists|i: int|
                    0 <= i < self.table.len() && (#[trigger] self.table[i]).executed.contains(
                        offset,
                    ),
        )
    }
}

impl Modules {
    /// The union of the executed offsets of all modules of the table.
    pub fn get_coverage_all(&self) -> (coverage: roaring::RoaringBitmap)
        ensures
            bitmap_contents(&coverage) == self@.coverage(),
    {
        let mut res = empty_bitmap();
        let ghost table = self@.table;
        let mut i: usize = 0;
        while i < self.table.len()
            invariant
                i <= self.table@.len(),
                table == self@.table,
                table.len() == self.table@.len(),
                bitmap_contents(&res) == (ModulesView {
                    version: self.version,
                    table: table.take(i as int),
                }).coverage(),
            decreases self.table@.len() - i,
        {
            let ghost before = bitmap_contents(&res);
            bitmap_extend(&mut res, &self.table[i].bb_bitmap);
            proof {
                let shorter = ModulesView { version: self.version, table: table.take(i as int) };
                let longer = ModulesView {
                    version: self.version,
                    table: table.take(i as int + 1),
                };
                assert(table[i as int] == self.table@[i as int]@);
                assert forall|offset: u32|
                    longer.coverage().contains(offset) == (shorter.coverage().contains(offset)
                        || table[i as int].executed.contains(offset)) by {
                    if shorter.coverage().contains(offset) {
                        let k = choose|k: int|
                            0 <= k < shorter.table.len() && (#[trigger] shorter.table[k]).executed.contains(
                                offset,
                            );
                        assert(longer.table[k].executed.contains(offset));
                    }
                    if table[i as int].executed.contains(offset) {
                        assert(longer.table[i as int].executed.contains(offset));
                    }
                    if longer.coverage().contains(offset) {
                        let k = choose|k: int|
                            0 <= k < longer.table.len() && (#[trigger] longer.table[k]).executed.contains(
                                offset,
                            );
                        if k < i {
                            assert(shorter.table[k].executed.contains(offset));
                        }
                    }
                }
                assert(bitmap_contents(&res) =~= longer.coverage());
            }
            i = i + 1;
        }
        assert(table.take(i as int) =~= table);
        res
    }
}

/// One record of the basic-block table: a block of `size` bytes at the
/// module-relative offset `start` of module number `module_id`.
#[derive(Debug, Clone, Copy, PartialEq, Eq, Structural)]
pub struct BBEntry {
    pub start: u32,
    pub size: u16,
    pub module_id: u16,
}

/// The number of bytes of a basic-block record.
pub const RECORD_SIZE: usize = 8;

/// The record that the eight bytes at `at` hold: start, size and module id,
/// each least significant byte first.
pub open spec fn record_at(bytes: Seq<u8>, at: int) -> BBEntry {
    BBEntry {
        start: le_u32(bytes.subrange(at, at + 4)) as u32,
        size: le_u16(bytes.subrange(at + 4, at + 6)) as u16,
        module_id: le_u16(bytes.subrange(at + 6, at + 8)) as u16,
    }
}

impl BBEntry {
    /// Reads the record at position `at` of `data`, if eight bytes are left
    /// there.
    pub fn from_reader(data: &[u8], at: usize) -> (entry: Result<BBEntry, DecodeError>)
        ensures
            match entry {
                Ok(e) => at + RECORD_SIZE <= data@.len() && e == record_at(data@, at as int),
                Err(error) => at + RECORD_SIZE > data@.len() && error
                    == DecodeError::BasicBlockDataTruncated,
            },
    {
        if at > data.len() || data.len() - at < RECORD_SIZE {
            return Err(DecodeError::BasicBlockDataTruncated);
        }
        let start = read_u32_le(slice_subrange(data, at, at + 4));
        let size = read_u16_le(slice_subrange(data, at + 4, at + 6));
        let module_id = read_u16_le(slice_subrange(data, at + 6, at + 8));
        Ok(BBEntry::new(start, size, module_id))
    }

    pub fn new(start: u32, size: u16, module_id: u16) -> (entry: Self)
        ensures
            entry == (BBEntry { start, size, module_id }),
    {
        Self { start, size, module_id }
    }
}

/// A decoded trace file.
#[derive(Debug)]
pub struct Drcov {
    /// The version of the file format.
    pub version: u32,
    /// The flavor tag of the tracer.
    pub flavor: String,
    /// The modules of the trace, with what executed in each.
    pub modules: Modules,
}

/// A decoded trace file as plain values.
#[verifier::ext_equal]
pub struct DrcovView {
    pub version: u32,
    pub flavor: Seq<char>,
    pub modules: ModulesView,
}

impl View for Drcov {
    type V = DrcovView;

    open spec fn view(&self) -> DrcovView {
        DrcovView { version: self.version, flavor: self.flavor@, modules: self.modules@ }
    }
}

/// The version that the outcome of matching the version line gives.
pub open spec fn version_of_captures(captures: Option<Seq<Option<Seq<u8>>>>) -> Result<
    u32,
    DecodeError,
> {
    match captures {
        Some(groups) => match capture_u32(groups, 1) {
            Some(version) => Ok(version),
            None => Err(DecodeError::VersionLineInvalid),
        },
        None => Err(DecodeError::VersionLineInvalid),
    }
}

/// The flavor that the outcome of matching the flavor line gives.
pub open spec fn flavor_of_captures(captures: Option<Seq<Option<Seq<u8>>>>) -> Result<
    Seq<char>,
    DecodeError,
> {
    match captures {
        Some(groups) => match capture_text(groups, 1) {
            Some(flavor) => Ok(flavor),
            None => Err(DecodeError::FlavorLineInvalid),
        },
        None => Err(DecodeError::FlavorLineInvalid),
    }
}

/// The version that the first line at or after `from` gives, and the
/// position where that line ends.
pub open spec fn version_at(bytes: Seq<u8>, from: int) -> Result<(u32, int), DecodeError> {
    match next_line(bytes, from) {
        None => Err(DecodeError::VersionLineMissing),
        Some((start, end)) => match version_of_captures(
            pattern_captures(VERSION_LINE@, bytes.subrange(start, end)),
        ) {
            Ok(version) => Ok((version, end)),
            Err(error) => Err(error),
        },
    }
}

/// The flavor that the first line at or after `from` gives, and the position
/// where that line ends.
pub open spec fn flavor_at(bytes: Seq<u8>, from: int) -> Result<(Seq<char>, int), DecodeError> {
    match next_line(bytes, from) {
        None => Err(DecodeError::FlavorLineMissing),
        Some((start, end)) => match flavor_of_captures(
            pattern_captures(FLAVOR_LINE@, bytes.subrange(start, end)),
        ) {
            Ok(flavor) => Ok((flavor, end)),
            Err(error) => Err(error),
        },
    }
}

/// What the bytes of a trace file denote under the given filters: the
/// version line, the flavor line, the module table and the basic-block
/// table, read in this order, each from where the one before it ended. The
/// first part that fails gives the error.
pub open spec fn decoded(bytes: Seq<u8>, filters: DrcovFiltersView) -> Result<
    DrcovView,
    DecodeError,
> {
    match version_at(bytes, 0) {
        Err(error) => Err(error),
        Ok((version, after_version)) => match flavor_at(bytes, after_version) {
            Err(error) => Err(error),
            Ok((flavor, after_flavor)) => match module_table(bytes, after_flavor, filters) {
                Err(error) => Err(error),
                Ok((table_version, slots, after_table)) => match blocks_applied(
                    bytes,
                    after_table,
                    slots,
                ) {
                    Err(error) => Err(error),
                    Ok(slots) => Ok(
                        DrcovView {
                            version,
                            flavor,
                            modules: ModulesView { version: table_version, table: compact(slots) },
                        },
                    ),
                },
            },
        },
    }
}

/// Reads the version from the outcome of matching the version line.
pub fn version_from_captures(captures: Option<Vec<Option<Vec<u8>>>>) -> (version: Result<
    u32,
    DecodeError,
>)
    ensures
        version == version_of_captures(captures_view(captures)),
{
    match captures {
        Some(groups) => match parse_capture_group::<u32>(&groups, 1) {
            Some(version) => Ok(version),
            None => Err(DecodeError::VersionLineInvalid),
        },
        None => Err(DecodeError::VersionLineInvalid),
    }
}

/// Reads the flavor from the outcome of matching the flavor line.
pub fn flavor_from_captures(captures: Option<Vec<Option<Vec<u8>>>>) -> (flavor: Result<
    String,
    DecodeError,
>)
    ensures
        match flavor_of_captures(captures_view(captures)) {
            Ok(text) => flavor matches Ok(f) && f@ == text,
            Err(error) => flavor matches Err(e) && e == error,
        },
{
    match captures {
        Some(groups) => match parse_capture_group::<String>(&groups, 1) {
            Some(flavor) => Ok(flavor),
            None => Err(DecodeError::FlavorLineInvalid),
        },
        None => Err(DecodeError::FlavorLineInvalid),
    }
}

fn parse_version(grammar: &Grammar, bytes: &[u8], from: usize) -> (outcome: Result<
    (u32, usize),
    DecodeError,
>)
    requires
        from <= bytes@.len(),
    ensures
        match version_at(bytes@, from as int) {
            Ok((version, pos)) => outcome matches Ok((v, end)) && v == version && end == pos
                && end <= bytes@.len(),
            Err(error) => outcome matches Err(e) && e == error,
        },
{
    let line = match find_line(bytes, from) {
        Some(line) => line,
        None => {
            return Err(DecodeError::VersionLineMissing);
        },
    };
    let version = version_from_captures(
        captures(grammar.version_line(), slice_subrange(bytes, line.0, line.1)),
    )?;
    Ok((version, line.1))
}

fn parse_flavor(grammar: &Grammar, bytes: &[u8], from: usize) -> (outcome: Result<
    (String, usize),
    DecodeError,
>)
    requires
        from <= bytes@.len(),
    ensures
        match flavor_at(bytes@, from as int) {
            Ok((flavor, pos)) => outcome matches Ok((f, end)) && f@ == flavor && end == pos
                && end <= bytes@.len(),
            Err(error) => outcome matches Err(e) && e == error,
        },
{
    let line = match find_line(bytes, from) {
        Some(line) => line,
        None => {
            return Err(DecodeError::FlavorLineMissing);
        },
    };
    let flavor = flavor_from_captures(
        captures(grammar.flavor_line(), slice_subrange(bytes, line.0, line.1)),
    )?;
    Ok((flavor, line.1))
}

impl Drcov {
    /// Decodes the contents of a trace file. Module lines are rewritten by
    /// the path map and dropped by the module filters before they are read.
    pub fn from_file(grammar: &Grammar, contents: &[u8], filters: &DrcovFilters) -> (drcov: Result<
        Drcov,
        DecodeError,
    >)
        ensures
            match decoded(contents@, filters@) {
                Ok(view) => drcov matches Ok(d) && d@ == view,
                Err(error) => drcov matches Err(e) && e == error,
            },
    {
        let (version, after_version) = parse_version(grammar, contents, 0)?;
        let (flavor, after_flavor) = parse_flavor(grammar, contents, after_version)?;
        let (read, after_table) = read_module_table(grammar, contents, after_flavor, filters)?;
        let ghost slots = module_table(contents@, after_flavor as int, filters@).unwrap().1;
        let mut table = read.table;
        read_blocks(grammar, contents, after_table, &mut table, &read.index, Ghost(slots))?;
        let drcov = Drcov { version, flavor, modules: Modules { version: read.version, table } };
        assert(drcov@ =~~= decoded(contents@, filters@).unwrap());
        Ok(drcov)
    }
}

} // verus!
