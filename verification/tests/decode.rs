use drcov2lcov::cli::{Filter, ReplacementFilter};
use drcov2lcov::drcov::{BBEntry, Drcov, DrcovFilters};
use drcov2lcov::error::{DecodeError, ErrorKind};
use drcov2lcov::grammar::Grammar;

fn no_filters() -> DrcovFilters<'static> {
    DrcovFilters { module_filters: &[], module_skip_filters: &[], path_map_filters: &[] }
}

fn record(start: u32, size: u16, module_id: u16) -> Vec<u8> {
    let mut bytes = Vec::new();
    bytes.extend_from_slice(&start.to_le_bytes());
    bytes.extend_from_slice(&size.to_le_bytes());
    bytes.extend_from_slice(&module_id.to_le_bytes());
    bytes
}

fn trace(table: &str, records: &[Vec<u8>]) -> Vec<u8> {
    let mut bytes = Vec::new();
    bytes.extend_from_slice(b"DRCOV VERSION: 2\nDRCOV FLAVOR: drcov\n");
    bytes.extend_from_slice(table.as_bytes());
    bytes.extend_from_slice(format!("BB Table: {} bbs\n", records.len()).as_bytes());
    for r in records {
        bytes.extend_from_slice(r);
    }
    bytes
}

fn decode(bytes: &[u8]) -> Result<Drcov, DecodeError> {
    let grammar = Grammar::new().unwrap();
    Drcov::from_file(&grammar, bytes, &no_filters())
}

#[test]
fn grammar_compiles() {
    assert!(Grammar::new().is_some());
}

#[test]
fn decodes_version_and_flavor() {
    let bytes = trace("Module Table: 0\n", &[]);
    let drcov = decode(&bytes).unwrap();
    assert_eq!(drcov.version, 2);
    assert_eq!(drcov.flavor, "drcov");
    assert_eq!(drcov.modules.version, 1);
    assert!(drcov.modules.table.is_empty());
}

#[test]
fn decodes_a_version_1_line() {
    let bytes = trace("Module Table: 1\n 0, 4096, /usr/lib/libfoo.so\n", &[]);
    let drcov = decode(&bytes).unwrap();
    assert_eq!(drcov.modules.version, 1);
    assert_eq!(drcov.modules.table.len(), 1);
    let module = &drcov.modules.table[0];
    assert_eq!(module.size, 4096);
    assert_eq!(module.segment_start, 0);
    assert_eq!(module.segment_offset, 0);
    assert_eq!(module.containing_index, None);
    assert_eq!(module.path, "/usr/lib/libfoo.so");
    assert!(module.bb_bitmap.is_empty());
}

#[test]
fn decodes_a_version_2_line() {
    let bytes = trace(
        "Module Table: version 2, count 1\nColumns: id, base, end, entry, path\n  0, 0x1000, 0x2000, 0x1100, /usr/lib/libfoo.so\n",
        &[],
    );
    let drcov = decode(&bytes).unwrap();
    assert_eq!(drcov.modules.version, 2);
    let module = &drcov.modules.table[0];
    assert_eq!(module.size, 0x1000);
    assert_eq!(module.segment_start, 0x1000);
    assert_eq!(module.segment_offset, 0);
    assert_eq!(module.containing_index, None);
    assert_eq!(module.path, "/usr/lib/libfoo.so");
}

#[test]
fn decodes_a_version_3_line() {
    let bytes = trace(
        "Module Table: version 3, count 1\nColumns: id, containing_id, base, end, entry, path\n  0, 0, 0x00007f0000001000, 0x00007f0000003000, 0x00007f0000001100, /bin/app\n",
        &[],
    );
    let drcov = decode(&bytes).unwrap();
    assert_eq!(drcov.modules.version, 3);
    let module = &drcov.modules.table[0];
    assert_eq!(module.size, 0x2000);
    assert_eq!(module.segment_start, 0x7f0000001000);
    assert_eq!(module.segment_offset, 0);
    assert_eq!(module.containing_index, Some(0));
    assert_eq!(module.path, "/bin/app");
}

#[test]
fn decodes_a_version_4_line() {
    let bytes = trace(
        "Module Table: version 4, count 1\nColumns: id, containing_id, start, end, entry, offset, path\n  0, 0, 0x1000, 0x5000, 0x1100, 1a0, /bin/app\n",
        &[],
    );
    let drcov = decode(&bytes).unwrap();
    assert_eq!(drcov.modules.version, 4);
    let module = &drcov.modules.table[0];
    assert_eq!(module.size, 0x4000);
    assert_eq!(module.segment_start, 0x1000);
    assert_eq!(module.segment_offset, 0x1a0);
    assert_eq!(module.containing_index, Some(0));
    assert_eq!(module.path, "/bin/app");
}

#[test]
fn decodes_a_version_5_line() {
    let bytes = trace(
        "Module Table: version 5, count 1\nColumns: id, containing_id, start, end, entry, offset, preferred_base, path\n  0, 0, 0x1000, 0x5000, 0x1100, 2000, 0x400000, /bin/app\n",
        &[],
    );
    let drcov = decode(&bytes).unwrap();
    assert_eq!(drcov.modules.version, 5);
    let module = &drcov.modules.table[0];
    assert_eq!(module.size, 0x4000);
    assert_eq!(module.segment_start, 0x1000);
    assert_eq!(module.segment_offset, 0x2000);
    assert_eq!(module.containing_index, Some(0));
    assert_eq!(module.path, "/bin/app");
}

#[test]
fn a_later_version_uses_the_fifth_grammar() {
    let bytes = trace(
        "Module Table: version 7, count 1\nColumns: ...\n  0, 0, 0x1000, 0x5000, 0x1100, 10, 0x400000, /bin/app\n",
        &[],
    );
    let drcov = decode(&bytes).unwrap();
    assert_eq!(drcov.modules.version, 7);
    assert_eq!(drcov.modules.table[0].segment_offset, 0x10);
}

#[test]
fn backfills_the_offset_from_the_containing_module() {
    let bytes = trace(
        "Module Table: version 3, count 2\nColumns: id, containing_id, base, end, entry, path\n  0, 0, 0x1000, 0x1800, 0x1100, /bin/app\n  1, 0, 0x1800, 0x2000, 0x1100, /bin/app\n",
        &[],
    );
    let drcov = decode(&bytes).unwrap();
    let table = &drcov.modules.table;
    assert_eq!(table.len(), 2);
    assert_eq!(table[0].segment_offset, 0);
    assert_eq!(table[1].containing_index, Some(0));
    assert_eq!(table[1].segment_offset, 0x800);
}

#[test]
fn version_4_keeps_the_offset_of_the_line() {
    let bytes = trace(
        "Module Table: version 4, count 2\nColumns: ...\n  0, 0, 0x1000, 0x1800, 0x1100, 0, /bin/app\n  1, 0, 0x1800, 0x2000, 0x1100, 40, /bin/app\n",
        &[],
    );
    let drcov = decode(&bytes).unwrap();
    assert_eq!(drcov.modules.table[1].segment_offset, 0x40);
}

#[test]
fn a_container_that_comes_later_is_invalid() {
    let bytes = trace(
        "Module Table: version 3, count 2\nColumns: ...\n  0, 1, 0x1800, 0x2000, 0x1100, /bin/app\n  1, 1, 0x1000, 0x1800, 0x1100, /bin/app\n",
        &[],
    );
    assert_eq!(decode(&bytes).unwrap_err(), DecodeError::ContainerInvalid);
}

#[test]
fn a_container_that_starts_higher_is_invalid() {
    let bytes = trace(
        "Module Table: version 3, count 2\nColumns: ...\n  0, 0, 0x1800, 0x2000, 0x1100, /bin/app\n  1, 0, 0x1000, 0x1800, 0x1100, /bin/app\n",
        &[],
    );
    assert_eq!(decode(&bytes).unwrap_err(), DecodeError::ContainerInvalid);
}

#[test]
fn a_container_that_the_filters_dropped_is_invalid() {
    let skip = [Filter::from_str("0x1000").unwrap()];
    let filters =
        DrcovFilters { module_filters: &[], module_skip_filters: &skip, path_map_filters: &[] };
    let table = "Module Table: version 3, count 2\nColumns: ...\n  0, 0, 0x1000, 0x1800, 0x1100, /bin/app\n  1, 0, 0x1800, 0x2000, 0x1900, /bin/app\n";
    let grammar = Grammar::new().unwrap();
    assert_eq!(
        Drcov::from_file(&grammar, &trace(table, &[]), &filters).unwrap_err(),
        DecodeError::ContainerInvalid
    );
    // a later version gives the offset itself and needs no container
    let table = "Module Table: version 4, count 2\nColumns: ...\n  0, 0, 0x1000, 0x1800, 0x1100, 0, /bin/app\n  1, 0, 0x1800, 0x2000, 0x1900, 800, /bin/app\n";
    let drcov = Drcov::from_file(&grammar, &trace(table, &[]), &filters).unwrap();
    assert_eq!(drcov.modules.table.len(), 1);
    assert_eq!(drcov.modules.table[0].segment_offset, 0x800);
    assert_eq!(drcov.modules.table[0].containing_index, Some(0));
}

#[test]
fn marks_the_offsets_of_a_block() {
    let bytes = trace(
        "Module Table: version 2, count 1\nColumns: ...\n  0, 0x1000, 0x2000, 0x1100, /bin/app\n",
        &[record(0x10, 4, 0), record(0x100, 2, 0)],
    );
    let drcov = decode(&bytes).unwrap();
    let bitmap = &drcov.modules.table[0].bb_bitmap;
    let offsets: Vec<u32> = bitmap.iter().collect();
    assert_eq!(offsets, vec![0x10, 0x11, 0x12, 0x100]);
}

#[test]
fn a_block_that_touches_the_end_is_rejected() {
    let bytes = trace(
        "Module Table: version 2, count 1\nColumns: ...\n  0, 0x1000, 0x2000, 0x1100, /bin/app\n",
        &[record(0xfff, 2, 0), record(0xffe, 2, 0), record(0xffc, 3, 0)],
    );
    let drcov = decode(&bytes).unwrap();
    let offsets: Vec<u32> = drcov.modules.table[0].bb_bitmap.iter().collect();
    assert_eq!(offsets, vec![0xffc, 0xffd]);
}

#[test]
fn a_block_of_an_unknown_module_is_skipped() {
    let bytes = trace(
        "Module Table: version 2, count 1\nColumns: ...\n  0, 0x1000, 0x2000, 0x1100, /bin/app\n",
        &[record(0x10, 4, 5)],
    );
    let drcov = decode(&bytes).unwrap();
    assert!(drcov.modules.table[0].bb_bitmap.is_empty());
}

#[test]
fn an_empty_block_marks_nothing() {
    let bytes = trace(
        "Module Table: version 2, count 1\nColumns: ...\n  0, 0x1000, 0x2000, 0x1100, /bin/app\n",
        &[record(0, 0, 0), record(7, 1, 0)],
    );
    let drcov = decode(&bytes).unwrap();
    assert!(drcov.modules.table[0].bb_bitmap.is_empty());
}

#[test]
fn blocks_keep_to_the_module_that_the_file_numbers() {
    let skip = [Filter::from_str("libskip").unwrap()];
    let filters =
        DrcovFilters { module_filters: &[], module_skip_filters: &skip, path_map_filters: &[] };
    let bytes = trace(
        "Module Table: version 2, count 3\nColumns: ...\n  0, 0x1000, 0x2000, 0x1100, /lib/libskip.so\n  1, 0x3000, 0x4000, 0x3100, /bin/app\n  2, 0x5000, 0x6000, 0x5100, /lib/libkeep.so\n",
        &[record(0x10, 3, 0), record(0x20, 3, 1), record(0x30, 3, 2)],
    );
    let grammar = Grammar::new().unwrap();
    let drcov = Drcov::from_file(&grammar, &bytes, &filters).unwrap();
    let table = &drcov.modules.table;
    assert_eq!(table.len(), 2);
    assert_eq!(table[0].path, "/bin/app");
    assert_eq!(table[0].bb_bitmap.iter().collect::<Vec<u32>>(), vec![0x20, 0x21]);
    assert_eq!(table[1].path, "/lib/libkeep.so");
    assert_eq!(table[1].bb_bitmap.iter().collect::<Vec<u32>>(), vec![0x30, 0x31]);
}

#[test]
fn a_dropped_line_is_not_read() {
    let only = [Filter::from_str("/bin/app").unwrap()];
    let filters =
        DrcovFilters { module_filters: &only, module_skip_filters: &[], path_map_filters: &[] };
    let bytes = trace(
        "Module Table: version 2, count 2\nColumns: ...\nthis is no module line\n  1, 0x3000, 0x4000, 0x3100, /bin/app\n",
        &[],
    );
    let grammar = Grammar::new().unwrap();
    let drcov = Drcov::from_file(&grammar, &bytes, &filters).unwrap();
    assert_eq!(drcov.modules.table.len(), 1);
    assert_eq!(drcov.modules.table[0].path, "/bin/app");
}

#[test]
fn the_path_map_rewrites_a_line_before_it_is_read() {
    let map = [ReplacementFilter::from_str("/build/root:/opt").unwrap()];
    let filters =
        DrcovFilters { module_filters: &[], module_skip_filters: &[], path_map_filters: &map };
    let bytes = trace(
        "Module Table: version 2, count 1\nColumns: ...\n  0, 0x1000, 0x2000, 0x1100, /build/root/bin/app\n",
        &[],
    );
    let grammar = Grammar::new().unwrap();
    let drcov = Drcov::from_file(&grammar, &bytes, &filters).unwrap();
    assert_eq!(drcov.modules.table[0].path, "/opt/bin/app");
}

#[test]
fn empty_lines_are_passed_over() {
    let mut bytes = Vec::new();
    bytes.extend_from_slice(
        b"\nDRCOV VERSION: 3\n\nDRCOV FLAVOR: drcov-64\nModule Table: 1\n\n 0, 64, /bin/app\nBB Table: 1 bbs\n",
    );
    bytes.extend_from_slice(&record(1, 3, 0));
    let drcov = decode(&bytes).unwrap();
    assert_eq!(drcov.version, 3);
    assert_eq!(drcov.flavor, "drcov-64");
    assert_eq!(drcov.modules.table[0].bb_bitmap.iter().collect::<Vec<u32>>(), vec![1, 2]);
}

#[test]
fn records_may_hold_line_feeds() {
    let bytes = trace(
        "Module Table: version 2, count 1\nColumns: ...\n  0, 0x0, 0x1000, 0x100, /bin/app\n",
        &[record(0x0a, 0x0a, 0), record(0x0a0a, 3, 0)],
    );
    let drcov = decode(&bytes).unwrap();
    let offsets: Vec<u32> = drcov.modules.table[0].bb_bitmap.iter().collect();
    assert_eq!(offsets, vec![10, 11, 12, 13, 14, 15, 16, 17, 18, 0x0a0a, 0x0a0b]);
}

#[test]
fn a_header_without_terminator_has_no_records() {
    let bytes = b"DRCOV VERSION: 2\nDRCOV FLAVOR: drcov\nModule Table: 0\nBB Table: 0 bbs".to_vec();
    assert!(decode(&bytes).is_ok());
    let bytes = b"DRCOV VERSION: 2\nDRCOV FLAVOR: drcov\nModule Table: 0\nBB Table: 1 bbs".to_vec();
    assert_eq!(decode(&bytes).unwrap_err(), DecodeError::BasicBlockDataTruncated);
}

#[test]
fn reports_a_missing_version_line() {
    assert_eq!(decode(b"").unwrap_err(), DecodeError::VersionLineMissing);
    assert_eq!(decode(b"\n\n").unwrap_err(), DecodeError::VersionLineMissing);
}

#[test]
fn reports_an_invalid_version_line() {
    assert_eq!(decode(b"DRCOV VERSION: x\n").unwrap_err(), DecodeError::VersionLineInvalid);
    assert_eq!(
        decode(b"DRCOV VERSION: 99999999999\n").unwrap_err(),
        DecodeError::VersionLineInvalid
    );
}

#[test]
fn reports_a_missing_flavor_line() {
    assert_eq!(decode(b"DRCOV VERSION: 2\n").unwrap_err(), DecodeError::FlavorLineMissing);
}

#[test]
fn reports_an_invalid_flavor_line() {
    assert_eq!(
        decode(b"DRCOV VERSION: 2\nDRCOV FLAVOUR: x\n").unwrap_err(),
        DecodeError::FlavorLineInvalid
    );
}

#[test]
fn reports_a_missing_module_header() {
    assert_eq!(
        decode(b"DRCOV VERSION: 2\nDRCOV FLAVOR: drcov\n").unwrap_err(),
        DecodeError::ModuleHeaderMissing
    );
}

#[test]
fn reports_an_invalid_module_header() {
    assert_eq!(
        decode(b"DRCOV VERSION: 2\nDRCOV FLAVOR: drcov\nModules: 3\n").unwrap_err(),
        DecodeError::ModuleHeaderInvalid
    );
}

#[test]
fn reports_a_missing_module_line() {
    assert_eq!(
        decode(b"DRCOV VERSION: 2\nDRCOV FLAVOR: drcov\nModule Table: 2\n 0, 64, /bin/app\n")
            .unwrap_err(),
        DecodeError::ModuleLineMissing
    );
}

#[test]
fn reports_an_invalid_module_line() {
    let bytes = trace("Module Table: version 2, count 1\nColumns: ...\n 0, 64, /bin/app\n", &[]);
    assert_eq!(decode(&bytes).unwrap_err(), DecodeError::ModuleLineInvalid);
}

#[test]
fn reports_a_field_that_does_not_fit() {
    let bytes = trace("Module Table: 1\n 0, 99999999999999999999999999, /bin/app\n", &[]);
    assert_eq!(decode(&bytes).unwrap_err(), DecodeError::ModuleFieldInvalid);
}

#[test]
fn reports_an_end_below_the_base() {
    let bytes = trace(
        "Module Table: version 2, count 1\nColumns: ...\n  0, 0x2000, 0x1000, 0x1100, /bin/app\n",
        &[],
    );
    assert_eq!(decode(&bytes).unwrap_err(), DecodeError::ModuleEndBelowBase);
}

#[test]
fn reports_a_missing_block_header() {
    assert_eq!(
        decode(b"DRCOV VERSION: 2\nDRCOV FLAVOR: drcov\nModule Table: 0\n").unwrap_err(),
        DecodeError::BasicBlockHeaderMissing
    );
}

#[test]
fn reports_an_invalid_block_header() {
    assert_eq!(
        decode(b"DRCOV VERSION: 2\nDRCOV FLAVOR: drcov\nModule Table: 0\nBB Table: some bbs\n")
            .unwrap_err(),
        DecodeError::BasicBlockHeaderInvalid
    );
}

#[test]
fn reports_truncated_records() {
    let mut bytes = trace("Module Table: 0\n", &[record(1, 2, 0), record(3, 4, 0)]);
    bytes.pop();
    assert_eq!(decode(&bytes).unwrap_err(), DecodeError::BasicBlockDataTruncated);
}

#[test]
fn errors_have_their_kind() {
    assert_eq!(DecodeError::VersionLineMissing.kind(), ErrorKind::MalformedHeader);
    assert_eq!(DecodeError::BasicBlockHeaderInvalid.kind(), ErrorKind::MalformedHeader);
    assert_eq!(DecodeError::ModuleLineInvalid.kind(), ErrorKind::MalformedModuleLine);
    assert_eq!(DecodeError::ContainerInvalid.kind(), ErrorKind::MalformedModuleLine);
    assert_eq!(DecodeError::BasicBlockDataTruncated.kind(), ErrorKind::TruncatedBasicBlockData);
}

#[test]
fn reads_a_record_least_significant_byte_first() {
    let data = [0xff, 0x78, 0x56, 0x34, 0x12, 0xcd, 0xab, 0x02, 0x01, 0xee];
    let entry = BBEntry::from_reader(&data, 1).unwrap();
    assert_eq!(entry, BBEntry::new(0x12345678, 0xabcd, 0x0102));
    assert_eq!(entry.start, 0x12345678);
    assert_eq!(entry.size, 0xabcd);
    assert_eq!(entry.module_id, 0x0102);
    assert_eq!(BBEntry::from_reader(&data, 3).unwrap_err(), DecodeError::BasicBlockDataTruncated);
    assert_eq!(BBEntry::from_reader(&data, 11).unwrap_err(), DecodeError::BasicBlockDataTruncated);
}

#[test]
fn unites_the_coverage_of_all_modules() {
    let bytes = trace(
        "Module Table: version 2, count 2\nColumns: ...\n  0, 0x1000, 0x2000, 0x1100, /bin/app\n  1, 0x3000, 0x4000, 0x3100, /lib/libc.so\n",
        &[record(0x10, 3, 0), record(0x11, 3, 1)],
    );
    let drcov = decode(&bytes).unwrap();
    let all: Vec<u32> = drcov.modules.get_coverage_all().iter().collect();
    assert_eq!(all, vec![0x10, 0x11, 0x12]);
}
