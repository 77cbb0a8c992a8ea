use drcov2lcov::coalesce::{coalesce_lines, line_order};
use drcov2lcov::drcov::{Drcov, DrcovFilters, Modules};
use drcov2lcov::dwarf::{
    coalesce_line_info, gather_line_info, gather_object_file_debug_info, line_record,
    program_file, LineInfo, LineInfoFilters, LineRow, LineTable, ModuleDebugInfo,
};
use drcov2lcov::cli::Filter;
use drcov2lcov::grammar::Grammar;
use drcov2lcov::lcov::lcov_report;
use std::cmp::Ordering;

fn info(line: u64, executed: bool) -> LineInfo {
    LineInfo { line, executed }
}

fn row(file: &str, line: u64, address: u64) -> LineRow {
    LineRow { file: Some(file.to_string()), line, address }
}

fn lines_of(table: &LineTable, path: &str) -> Vec<LineInfo> {
    table
        .entries()
        .iter()
        .find(|entry| entry.path == path)
        .map(|entry| entry.lines.clone())
        .unwrap_or_default()
}

fn no_source_filters() -> LineInfoFilters<'static> {
    LineInfoFilters { src_filters: &[], src_skip_filters: &[] }
}

fn one_module_trace(line: &str, records: &[(u32, u16)]) -> Modules {
    let mut bytes = Vec::new();
    bytes.extend_from_slice(b"DRCOV VERSION: 2\nDRCOV FLAVOR: drcov\n");
    bytes.extend_from_slice(b"Module Table: version 4, count 1\nColumns: ...\n");
    bytes.extend_from_slice(line.as_bytes());
    bytes.extend_from_slice(format!("\nBB Table: {} bbs\n", records.len()).as_bytes());
    for (start, size) in records {
        bytes.extend_from_slice(&start.to_le_bytes());
        bytes.extend_from_slice(&size.to_le_bytes());
        bytes.extend_from_slice(&0u16.to_le_bytes());
    }
    let grammar = Grammar::new().unwrap();
    let filters =
        DrcovFilters { module_filters: &[], module_skip_filters: &[], path_map_filters: &[] };
    Drcov::from_file(&grammar, &bytes, &filters).unwrap().modules
}

#[test]
fn coalesces_the_example() {
    let mut lines = vec![info(3, false), info(3, true), info(5, false)];
    coalesce_lines(&mut lines);
    assert_eq!(lines, vec![info(3, true), info(5, false)]);
}

#[test]
fn coalescing_twice_is_coalescing_once() {
    let mut lines = vec![
        info(9, false),
        info(2, true),
        info(9, true),
        info(4, false),
        info(2, false),
        info(7, false),
        info(4, false),
    ];
    coalesce_lines(&mut lines);
    let once = lines.clone();
    assert_eq!(once, vec![info(2, true), info(4, false), info(7, false), info(9, true)]);
    coalesce_lines(&mut lines);
    assert_eq!(lines, once);
}

#[test]
fn coalescing_nothing_gives_nothing() {
    let mut lines: Vec<LineInfo> = Vec::new();
    coalesce_lines(&mut lines);
    assert!(lines.is_empty());
}

#[test]
fn merges_a_record_into_its_place() {
    let sorted = vec![info(2, false), info(4, false), info(8, true)];
    let merged = |extra: LineInfo| {
        let mut lines = sorted.clone();
        lines.push(extra);
        coalesce_lines(&mut lines);
        lines
    };
    assert_eq!(
        merged(info(6, true)),
        vec![info(2, false), info(4, false), info(6, true), info(8, true)]
    );
    assert_eq!(
        merged(info(1, false)),
        vec![info(1, false), info(2, false), info(4, false), info(8, true)]
    );
    assert_eq!(merged(info(4, true)), vec![info(2, false), info(4, true), info(8, true)]);
    assert_eq!(merged(info(8, false)), sorted);
    assert_eq!(
        merged(info(10, false)),
        vec![info(2, false), info(4, false), info(8, true), info(10, false)]
    );
}

#[test]
fn coalesces_many_records() {
    let mut lines = Vec::new();
    for round in 0..3u64 {
        for line in (1..=200u64).rev() {
            lines.push(info(line * 7 % 101, line % 3 == round));
        }
    }
    coalesce_lines(&mut lines);
    assert_eq!(lines.len(), 101);
    for (at, record) in lines.iter().enumerate() {
        assert_eq!(record.line, at as u64);
        assert!(record.executed);
    }
}

#[test]
fn a_table_keeps_the_records_by_file() {
    let mut table = LineTable::new();
    table.append("/src/a.c", info(3, false));
    table.append("/src/b.c", info(1, true));
    table.append("/src/a.c", info(3, true));
    assert_eq!(table.entries().len(), 2);
    assert_eq!(lines_of(&table, "/src/a.c"), vec![info(3, false), info(3, true)]);
    assert_eq!(lines_of(&table, "/src/b.c"), vec![info(1, true)]);
    coalesce_line_info(&mut table);
    assert_eq!(lines_of(&table, "/src/a.c"), vec![info(3, true)]);
    assert_eq!(lines_of(&table, "/src/b.c"), vec![info(1, true)]);
}

#[test]
fn a_table_absorbs_another() {
    let mut first = LineTable::new();
    first.append("/src/a.c", info(3, false));
    first.append("/src/b.c", info(1, false));
    let mut second = LineTable::new();
    second.append("/src/c.c", info(7, true));
    second.append("/src/a.c", info(3, true));
    second.append("/src/a.c", info(2, false));
    first.absorb(&second);
    assert_eq!(first.entries().len(), 3);
    assert_eq!(
        lines_of(&first, "/src/a.c"),
        vec![info(3, false), info(3, true), info(2, false)]
    );
    assert_eq!(lines_of(&first, "/src/b.c"), vec![info(1, false)]);
    assert_eq!(lines_of(&first, "/src/c.c"), vec![info(7, true)]);
    first.coalesce();
    assert_eq!(lines_of(&first, "/src/a.c"), vec![info(2, false), info(3, true)]);
}

#[test]
fn a_row_gives_a_record_with_the_flag_of_its_offset() {
    let modules = one_module_trace("0, 0, 0x1000, 0x2000, 0x1100, 100, /bin/app", &[(0x10, 5)]);
    let module = &modules.table[0];
    assert_eq!(module.segment_offset, 0x100);
    let filters = no_source_filters();
    // offset = address - load base - segment offset
    assert_eq!(
        line_record(module, 0x400000, &filters, &row("/src/a.c", 12, 0x400110)),
        Some(info(12, true))
    );
    assert_eq!(
        line_record(module, 0x400000, &filters, &row("/src/a.c", 13, 0x400113)),
        Some(info(13, true))
    );
    assert_eq!(
        line_record(module, 0x400000, &filters, &row("/src/a.c", 14, 0x400114)),
        Some(info(14, false))
    );
    assert_eq!(
        line_record(module, 0x400000, &filters, &row("/src/a.c", 15, 0x400100)),
        Some(info(15, false))
    );
}

#[test]
fn a_row_outside_the_module_gives_no_record() {
    let modules = one_module_trace("0, 0, 0x1000, 0x2000, 0x1100, 100, /bin/app", &[(0x10, 5)]);
    let module = &modules.table[0];
    let filters = no_source_filters();
    // the last offset of the module
    assert_eq!(
        line_record(module, 0x400000, &filters, &row("/src/a.c", 1, 0x4010ff)),
        Some(info(1, false))
    );
    // the first offset behind the module
    assert_eq!(line_record(module, 0x400000, &filters, &row("/src/a.c", 1, 0x401100)), None);
    // an address below the load base and the segment offset
    assert_eq!(line_record(module, 0x400000, &filters, &row("/src/a.c", 1, 0x4000ff)), None);
    assert_eq!(line_record(module, 0x400000, &filters, &row("/src/a.c", 1, 0x10)), None);
    // an offset beyond 32 bits
    assert_eq!(line_record(module, 0, &filters, &row("/src/a.c", 1, 0x1_0000_0110)), None);
}

#[test]
fn a_row_without_line_or_file_gives_no_record() {
    let modules = one_module_trace("0, 0, 0x1000, 0x2000, 0x1100, 0, /bin/app", &[(0x10, 5)]);
    let module = &modules.table[0];
    let filters = no_source_filters();
    assert_eq!(line_record(module, 0, &filters, &row("/src/a.c", 0, 0x10)), None);
    let nameless = LineRow { file: None, line: 4, address: 0x10 };
    assert_eq!(line_record(module, 0, &filters, &nameless), None);
}

#[test]
fn the_source_filters_drop_rows() {
    let modules = one_module_trace("0, 0, 0x1000, 0x2000, 0x1100, 0, /bin/app", &[(0x10, 5)]);
    let module = &modules.table[0];
    let wanted = [Filter::from_str("^/src/").unwrap()];
    let skip = [Filter::from_str("vendor").unwrap()];
    let filters = LineInfoFilters { src_filters: &wanted, src_skip_filters: &skip };
    assert_eq!(line_record(module, 0, &filters, &row("/src/a.c", 1, 0x10)), Some(info(1, true)));
    assert_eq!(line_record(module, 0, &filters, &row("/usr/a.c", 1, 0x10)), None);
    assert_eq!(line_record(module, 0, &filters, &row("/src/vendor.c", 1, 0x10)), None);
}

#[test]
fn a_load_base_above_the_addresses_wraps_around() {
    let modules = one_module_trace("0, 0, 0x1000, 0x2000, 0x1100, 0, /bin/app", &[(0x10, 5)]);
    let module = &modules.table[0];
    let filters = no_source_filters();
    // a bias of minus 0x10: the address 0 has the offset 0x10
    let bias = 0u64.wrapping_sub(0x10);
    assert_eq!(line_record(module, bias, &filters, &row("/src/a.c", 1, 0)), Some(info(1, true)));
    assert_eq!(line_record(module, bias, &filters, &row("/src/a.c", 2, 4)), Some(info(2, false)));
}

#[test]
fn gathers_the_rows_of_a_module() {
    let modules = one_module_trace("0, 0, 0x1000, 0x2000, 0x1100, 0, /bin/app", &[(0x10, 5)]);
    let rows = vec![
        row("/src/a.c", 5, 0x12),
        row("/src/b.c", 1, 0x40),
        row("/src/a.c", 5, 0x20),
        row("/src/a.c", 0, 0x10),
        row("/src/a.c", 3, 0x5000),
    ];
    let mut table = LineTable::new();
    gather_object_file_debug_info(&modules.table[0], 0, &rows, &mut table, &no_source_filters());
    assert_eq!(lines_of(&table, "/src/a.c"), vec![info(5, true), info(5, false)]);
    assert_eq!(lines_of(&table, "/src/b.c"), vec![info(1, false)]);
}

#[test]
fn gathers_and_coalesces_the_lines_of_a_trace() {
    let modules = one_module_trace("0, 0, 0x1000, 0x2000, 0x1100, 0, /bin/app", &[(0x10, 5)]);
    let debug = vec![Some(ModuleDebugInfo {
        load_base: 0,
        rows: vec![
            row("/src/a.c", 9, 0x40),
            row("/src/a.c", 5, 0x20),
            row("/src/a.c", 5, 0x12),
            row("/src/b.c", 1, 0x40),
        ],
    })];
    let table = gather_line_info(&modules, &debug, &no_source_filters());
    assert_eq!(lines_of(&table, "/src/a.c"), vec![info(5, true), info(9, false)]);
    assert_eq!(lines_of(&table, "/src/b.c"), vec![info(1, false)]);
}

#[test]
fn an_unknown_module_gives_no_lines() {
    let modules = one_module_trace("0, 0, 0x1000, 0x2000, 0x1100, 0, <unknown>", &[(0x10, 5)]);
    assert_eq!(modules.table[0].path, "<unknown>");
    let debug =
        vec![Some(ModuleDebugInfo { load_base: 0, rows: vec![row("/src/a.c", 9, 0x40)] })];
    let table = gather_line_info(&modules, &debug, &no_source_filters());
    assert!(table.entries().is_empty());
}

#[test]
fn a_module_without_debug_information_gives_no_lines() {
    let modules = one_module_trace("0, 0, 0x1000, 0x2000, 0x1100, 0, /bin/app", &[(0x10, 5)]);
    let table = gather_line_info(&modules, &[None], &no_source_filters());
    assert!(table.entries().is_empty());
    let table = gather_line_info(&modules, &[], &no_source_filters());
    assert!(table.entries().is_empty());
}

#[test]
fn reports_the_files_in_ascending_order() {
    let mut table = LineTable::new();
    table.append("/src/b.c", info(1, true));
    table.append("/src/a.c", info(12, false));
    table.append("/src/a.c", info(3, true));
    table.append("/src/B.c", info(18446744073709551615, false));
    table.append("/src/a", info(10, false));
    assert_eq!(
        lcov_report(&table),
        "SF:/src/B.c\nDA:18446744073709551615,0\nend_of_record\n\
         SF:/src/a\nDA:10,0\nend_of_record\n\
         SF:/src/a.c\nDA:12,0\nDA:3,1\nend_of_record\n\
         SF:/src/b.c\nDA:1,1\nend_of_record\n"
    );
}

#[test]
fn reports_nothing_for_an_empty_table() {
    assert_eq!(lcov_report(&LineTable::new()), "");
}

#[test]
fn orders_paths_by_their_bytes() {
    let mut table = LineTable::new();
    table.append("/src/\u{e9}.c", info(1, false));
    table.append("/src/z.c", info(1, false));
    table.append("/src/\u{1f600}.c", info(1, false));
    table.append("/src/\u{ffff}.c", info(1, false));
    assert_eq!(
        lcov_report(&table),
        "SF:/src/z.c\nDA:1,0\nend_of_record\n\
         SF:/src/\u{e9}.c\nDA:1,0\nend_of_record\n\
         SF:/src/\u{ffff}.c\nDA:1,0\nend_of_record\n\
         SF:/src/\u{1f600}.c\nDA:1,0\nend_of_record\n"
    );
}

#[test]
fn a_trace_with_two_blocks_and_two_rows_gives_one_record_with_two_lines() {
    let modules =
        one_module_trace("0, 0, 0x1000, 0x2000, 0x1100, 0, /bin/app", &[(0x10, 5), (0x40, 9)]);
    let debug = vec![Some(ModuleDebugInfo {
        load_base: 0x400000,
        rows: vec![row("/src/main.c", 7, 0x400042), row("/src/main.c", 9, 0x400080)],
    })];
    let table = gather_line_info(&modules, &debug, &no_source_filters());
    assert_eq!(lcov_report(&table), "SF:/src/main.c\nDA:7,1\nDA:9,0\nend_of_record\n");
}

#[test]
fn joins_the_directory_and_the_name_of_a_source_file() {
    assert_eq!(program_file(Some("/src/lib"), "a.c"), "/src/lib/a.c");
    assert_eq!(program_file(Some("/src/lib/"), "a.c"), "/src/lib/a.c");
    assert_eq!(program_file(Some("/src/lib"), "sub/a.c"), "/src/lib/sub/a.c");
    assert_eq!(program_file(Some("/src/lib"), "/usr/inc/a.h"), "/usr/inc/a.h");
    assert_eq!(program_file(Some(""), "a.c"), "a.c");
    assert_eq!(program_file(Some("lib"), "a.c"), "lib/a.c");
    assert_eq!(program_file(Some("/"), "a.c"), "/a.c");
    assert_eq!(program_file(None, "a.c"), "a.c");
    assert_eq!(program_file(None, "/src/a.c"), "/src/a.c");
    assert_eq!(program_file(Some("/src"), ""), "/src/");
    assert_eq!(program_file(Some("/b\u{fc}ro"), "gr\u{fc}n.c"), "/b\u{fc}ro/gr\u{fc}n.c");
}

#[test]
fn orders_entries_by_their_lines() {
    assert_eq!(line_order(&(3, true), &(5, false)), Ordering::Less);
    assert_eq!(line_order(&(5, false), &(5, true)), Ordering::Equal);
    assert_eq!(line_order(&(9, false), &(5, true)), Ordering::Greater);
}

#[test]
fn coalesces_records_that_descend() {
    let mut lines: Vec<LineInfo> = (0..1000u64).rev().map(|line| info(line, line % 2 == 0)).collect();
    lines.extend((0..1000u64).map(|line| info(line, line % 3 == 0)));
    coalesce_lines(&mut lines);
    assert_eq!(lines.len(), 1000);
    for (at, record) in lines.iter().enumerate() {
        assert_eq!(record.line, at as u64);
        assert_eq!(record.executed, at % 2 == 0 || at % 3 == 0);
    }
}
