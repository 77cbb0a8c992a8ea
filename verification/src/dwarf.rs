//! Line records: which source lines the executed offsets of a module belong
//! to.
//!
//! The rows of a module's line-number program come from outside, as plain
//! values. A row that the source filters keep and that has a line is mapped
//! to a module-relative offset; a row whose offset lies within the module
//! gives a record for its source file, flagged with whether that offset
//! executed.

use crate::bitmap::bitmap_contains;
use crate::drcov::Modules;
pub use crate::filter::{LineInfoFilters, LineInfoFiltersView};
pub use crate::line_table::{LineTable, SourceLines};
use crate::line_table::{coalesced_table, with_record};
use crate::module::{Module, ModuleView};
use crate::resolver::{append_joined, joined};
use crate::util::{same_text, wrapped_difference, wrapping_difference};
use vstd::prelude::*;
use vstd::string::*;

verus! {

/// One observation of a source line: its number, and whether the
/// instruction it was seen at executed.
#[derive(Debug, Clone, Copy, PartialEq, Eq, Structural)]
pub struct LineInfo {
    pub line: u64,
    pub executed: bool,
}

/// The path that a trace gives to a module it could not name.
pub const UNKNOWN_MODULE: &'static str = "<unknown>";

/// The path of a source file from the directory and the name that a
/// line-number program gives for it: the name where it is absolute or there
/// is no directory, else the name within the directory.
pub open spec fn program_path(directory: Option<Seq<char>>, name: Seq<char>) -> Seq<char> {
    match directory {
        Some(dir) => if name.len() > 0 && name[0] == '/' {
            name
        } else {
            joined(dir, name)
        },
        None => name,
    }
}

/// Puts the path of a source file together from its directory and name.
pub fn program_file(directory: Option<&str>, name: &str) -> (path: String)
    ensures
        path@ == program_path(
            match directory {
                Some(dir) => Some(dir@),
                None => None,
            },
            name@,
        ),
{
    match directory {
        Some(dir) => if name.unicode_len() > 0 && name.get_char(0) == '/' {
            String::from_str(name)
        } else {
            append_joined(String::from_str(dir), name)
        },
        None => String::from_str(name),
    }
}

/// One row of a module's line-number program.
#[derive(Debug)]
pub struct LineRow {
    /// The source file of the row, where it could be resolved.
    pub file: Option<String>,
    /// The line number of the row; zero for a row without one.
    pub line: u64,
    /// The address of the row in the module's image.
    pub address: u64,
}

/// A row as plain values.
pub struct LineRowView {
    pub file: Option<Seq<char>>,
    pub line: u64,
    pub address: u64,
}

impl View for LineRow {
    type V = LineRowView;

    open spec fn view(&self) -> LineRowView {
        LineRowView {
            file: match self.file {
                Some(path) => Some(path@),
                None => None,
            },
            line: self.line,
            address: self.address,
        }
    }
}

/// What was read from the image of one module: its load bias and the rows
/// of its line-number programs.
#[derive(Debug)]
pub struct ModuleDebugInfo {
    pub load_base: u64,
    pub rows: Vec<LineRow>,
}

/// The debug information of a module as plain values.
pub struct ModuleDebugInfoView {
    pub load_base: u64,
    pub rows: Seq<LineRowView>,
}

/// Rows as plain values.
pub open spec fn row_views(rows: Seq<LineRow>) -> Seq<LineRowView> {
    rows.map_values(|row: LineRow| row@)
}

impl View for ModuleDebugInfo {
    type V = ModuleDebugInfoView;

    open spec fn view(&self) -> ModuleDebugInfoView {
        ModuleDebugInfoView { load_base: self.load_base, rows: row_views(self.rows@) }
    }
}

/// The module-relative offset of an address: the address less the load bias
/// of the image and the segment offset of the module, in 64-bit arithmetic
/// that wraps around. An address below the two so comes out far beyond any
/// module.
pub open spec fn row_offset(module: ModuleView, load_base: u64, address: u64) -> u64 {
    wrapped_difference(wrapped_difference(address, load_base), module.segment_offset as u64)
}

/// Whether an address lies within the module: its offset fits 32 bits and is
/// less than the module's size.
pub open spec fn row_in_range(module: ModuleView, load_base: u64, address: u64) -> bool {
    let offset = row_offset(module, load_base, address);
    offset <= u32::MAX && offset < module.size
}

/// The record that a row gives for its source file: none for a row that the
/// filters drop, that has no line, or whose address lies outside the
/// module; else its line, flagged with whether its offset executed.
pub open spec fn record_of_row(
    module: ModuleView,
    load_base: u64,
    filters: LineInfoFiltersView,
    row: LineRowView,
) -> Option<LineInfo> {
    if filters.retains(row.file) && row.line != 0 && row_in_range(module, load_base, row.address) {
        Some(
            LineInfo {
                line: row.line,
                executed: module.executed.contains(
                    row_offset(module, load_base, row.address) as u32,
                ),
            },
        )
    } else {
        None
    }
}

/// A table with the record of one row added, if the row gives one.
pub open spec fn with_row(
    table: Map<Seq<char>, Seq<LineInfo>>,
    module: ModuleView,
    load_base: u64,
    filters: LineInfoFiltersView,
    row: LineRowView,
) -> Map<Seq<char>, Seq<LineInfo>> {
    match record_of_row(module, load_base, filters, row) {
        Some(info) => with_record(table, row.file.unwrap(), info),
        None => table,
    }
}

/// A table with the records of some rows added, in the order of the rows.
pub open spec fn with_rows(
    table: Map<Seq<char>, Seq<LineInfo>>,
    module: ModuleView,
    load_base: u64,
    filters: LineInfoFiltersView,
    rows: Seq<LineRowView>,
) -> Map<Seq<char>, Seq<LineInfo>>
    decreases rows.len(),
{
    if rows.len() == 0 {
        table
    } else {
        with_row(
            with_rows(table, module, load_base, filters, rows.drop_last()),
            module,
            load_base,
            filters,
            rows.last(),
        )
    }
}

/// The record that a row gives for its source file.
pub fn line_record(module: &Module, load_base: u64, filters: &LineInfoFilters, row: &LineRow) -> (record:
    Option<LineInfo>)
    ensures
        record == record_of_row(module@, load_base, filters@, row@),
{
    if !filters.retains_source(row.file.as_ref()) {
        return None;
    }
    if row.line == 0 {
        return None;
    }
    let offset: u64 = wrapping_difference(
        wrapping_difference(row.address, load_base),
        module.segment_offset as u64,
    );
    if offset > u32::MAX as u64 || offset >= module.size as u64 {
        return None;
    }
    let executed = bitmap_contains(&module.bb_bitmap, offset as u32);
    Some(LineInfo { line: row.line, executed })
}

/// Adds the records that the rows of one module give to a table.
pub fn gather_object_file_debug_info(
    module: &Module,
    load_base: u64,
    rows: &[LineRow],
    line_table: &mut LineTable,
    filters: &LineInfoFilters,
)
    ensures
        final(line_table)@ == with_rows(
            old(line_table)@,
            module@,
            load_base,
            filters@,
            row_views(rows@),
        ),
{
    let ghost views = row_views(rows@);
    let mut i: usize = 0;
    assert(views.take(0) =~= Seq::<LineRowView>::empty());
    while i < rows.len()
        invariant
            i <= rows@.len(),
            views == row_views(rows@),
            line_table@ == with_rows(
                old(line_table)@,
                module@,
                load_base,
                filters@,
                views.take(i as int),
            ),
        decreases rows@.len() - i,
    {
        proof {
            assert(views.take(i + 1).drop_last() =~= views.take(i as int));
            assert(views.take(i + 1).last() == rows@[i as int]@);
        }
        match line_record(module, load_base, filters, &rows[i]) {
            Some(info) => {
                match &rows[i].file {
                    Some(path) => {
                        line_table.append(path.as_str(), info);
                    },
                    None => {},
                }
            },
            None => {},
        }
        i = i + 1;
    }
    assert(views.take(i as int) =~= views);
}

/// Coalesces the records of every file of a table: one record per line, in
/// ascending order of the lines, executed if any record of the line was.
pub fn coalesce_line_info(line_table: &mut LineTable)
    ensures
        final(line_table)@ == coalesced_table(old(line_table)@),
{
    line_table.coalesce();
}

/// What the modules of a table are given to read.
pub open spec fn debug_views(debug: Seq<Option<ModuleDebugInfo>>) -> Seq<
    Option<ModuleDebugInfoView>,
> {
    debug.map_values(
        |info: Option<ModuleDebugInfo>|
            match info {
                Some(info) => Some(info@),
                None => None,
            },
    )
}

/// The records that the first `count` modules give. Module number `i` gives
/// those of the rows of `debug[i]`; a module whose path is `<unknown>`, or
/// for which there is no debug information, gives none.
pub open spec fn gathered(
    modules: Seq<ModuleView>,
    debug: Seq<Option<ModuleDebugInfoView>>,
    filters: LineInfoFiltersView,
    count: int,
) -> Map<Seq<char>, Seq<LineInfo>>
    decreases count,
{
    if count <= 0 {
        Map::empty()
    } else {
        let before = gathered(modules, debug, filters, count - 1);
        let i = count - 1;
        if i < modules.len() && i < debug.len() && modules[i].path != UNKNOWN_MODULE@ {
            match debug[i] {
                Some(info) => with_rows(before, modules[i], info.load_base, filters, info.rows),
                None => before,
            }
        } else {
            before
        }
    }
}

/// Gathers the line records of a trace: for every module the records that
/// the rows of its debug information give, coalesced by source file.
pub fn gather_line_info(
    modules: &Modules,
    debug: &[Option<ModuleDebugInfo>],
    filters: &LineInfoFilters,
) -> (line_table: LineTable)
    ensures
        line_table@ == coalesced_table(
            gathered(modules@.table, debug_views(debug@), filters@, modules@.table.len() as int),
        ),
{
    let mut line_table = LineTable::new();
    let ghost views = modules@.table;
    let ghost given = debug_views(debug@);
    let mut i: usize = 0;
    while i < modules.table.len()
        invariant
            i <= modules.table@.len(),
            views == modules@.table,
            views.len() == modules.table@.len(),
            given == debug_views(debug@),
            line_table@ == gathered(views, given, filters@, i as int),
        decreases modules.table@.len() - i,
    {
        let module = &modules.table[i];
        assert(views[i as int] == module@);
        if i < debug.len() && !same_text(module.path.as_str(), UNKNOWN_MODULE) {
            assert(given[i as int] == match debug@[i as int] {
                Some(info) => Some(info@),
                None => None,
            });
            match &debug[i] {
                Some(info) => {
                    gather_object_file_debug_info(
                        module,
                        info.load_base,
                        info.rows.as_slice(),
                        &mut line_table,
                        filters,
                    );
                },
                None => {},
            }
        }
        i = i + 1;
    }
    coalesce_line_info(&mut line_table);
    line_table
}

} // verus!
