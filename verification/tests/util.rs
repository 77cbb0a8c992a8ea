use drcov2lcov::drcov::{flavor_from_captures, version_from_captures};
use drcov2lcov::blocks::block_count_from_captures;
use drcov2lcov::error::DecodeError;
use drcov2lcov::grammar::{Grammar, ModuleLineFormat};
use drcov2lcov::drcov::Module;
use drcov2lcov::table::{table_shape_from_captures, TableShape};
use drcov2lcov::util::{parse_capture_group, CaptureValue, Hex};

fn groups(texts: &[Option<&[u8]>]) -> Vec<Option<Vec<u8>>> {
    texts.iter().map(|t| t.map(|t| t.to_vec())).collect()
}

#[test]
fn reads_decimal_numbers() {
    assert_eq!(usize::from_capture(b"0"), Some(0));
    assert_eq!(usize::from_capture(b"4096"), Some(4096));
    assert_eq!(usize::from_capture(b"+17"), Some(17));
    assert_eq!(usize::from_capture(b"007"), Some(7));
    assert_eq!(usize::from_capture(b""), None);
    assert_eq!(usize::from_capture(b"+"), None);
    assert_eq!(usize::from_capture(b"-1"), None);
    assert_eq!(usize::from_capture(b"1f"), None);
    assert_eq!(usize::from_capture(b" 1"), None);
    assert_eq!(usize::from_capture(b"1_000"), None);
    assert_eq!(usize::from_capture("\u{664}".as_bytes()), None);
    assert_eq!(usize::from_capture(b"18446744073709551615"), "18446744073709551615".parse().ok());
    assert_eq!(usize::from_capture(b"18446744073709551616"), None);
    assert_eq!(u32::from_capture(b"4294967295"), Some(4294967295));
    assert_eq!(u32::from_capture(b"4294967296"), None);
    assert_eq!(u32::from_capture(b"5"), Some(5));
}

#[test]
fn reads_hexadecimal_numbers() {
    assert_eq!(Hex::<usize>::from_str("1000").map(|h| h.value), Some(0x1000));
    assert_eq!(Hex::<usize>::from_str("dEaDbEeF").map(|h| h.value), Some(0xdeadbeef));
    assert_eq!(Hex::<usize>::from_str("+ff").map(|h| h.value), Some(0xff));
    assert_eq!(Hex::<usize>::from_str("0x10").map(|h| h.value), None);
    assert_eq!(Hex::<usize>::from_str("g").map(|h| h.value), None);
    assert_eq!(Hex::<usize>::from_str("").map(|h| h.value), None);
    assert_eq!(
        Hex::<usize>::from_str("ffffffffffffffff").map(|h| h.value),
        usize::from_str_radix("ffffffffffffffff", 16).ok()
    );
    assert_eq!(Hex::<usize>::from_str("10000000000000000").map(|h| h.value), None);
    assert_eq!(Hex::<usize>::from_capture(b"7f00").map(|h| h.value), Some(0x7f00));
}

#[test]
fn reads_text_with_replacement_characters() {
    assert_eq!(String::from_capture(b"/bin/app"), Some("/bin/app".to_string()));
    assert_eq!(String::from_capture("gr\u{fc}n".as_bytes()), Some("gr\u{fc}n".to_string()));
    assert_eq!(String::from_capture(b"a\xffb"), Some("a\u{fffd}b".to_string()));
    assert_eq!(String::from_capture(b""), Some(String::new()));
}

#[test]
fn reads_a_group_by_its_number() {
    let caps = groups(&[Some(b"12, ab"), Some(b"12"), None, Some(b"ab")]);
    assert_eq!(parse_capture_group::<usize>(&caps, 1), Some(12));
    assert_eq!(parse_capture_group::<u32>(&caps, 1), Some(12));
    assert_eq!(parse_capture_group::<Hex<usize>>(&caps, 3).map(|h| h.value), Some(0xab));
    assert_eq!(parse_capture_group::<String>(&caps, 3), Some("ab".to_string()));
    assert_eq!(parse_capture_group::<usize>(&caps, 3), None);
    assert_eq!(parse_capture_group::<usize>(&caps, 2), None);
    assert_eq!(parse_capture_group::<String>(&caps, 2), None);
    assert_eq!(parse_capture_group::<usize>(&caps, 4), None);
}

#[test]
fn reads_the_header_fields_from_captures() {
    assert_eq!(version_from_captures(Some(groups(&[Some(b"x"), Some(b"2")]))), Ok(2));
    assert_eq!(version_from_captures(None), Err(DecodeError::VersionLineInvalid));
    assert_eq!(
        version_from_captures(Some(groups(&[Some(b"x"), None]))),
        Err(DecodeError::VersionLineInvalid)
    );
    assert_eq!(
        flavor_from_captures(Some(groups(&[Some(b"x"), Some(b"drcov")]))),
        Ok("drcov".to_string())
    );
    assert_eq!(flavor_from_captures(None), Err(DecodeError::FlavorLineInvalid));
    assert_eq!(flavor_from_captures(Some(groups(&[]))), Err(DecodeError::FlavorLineInvalid));
    assert_eq!(block_count_from_captures(Some(groups(&[Some(b"x"), Some(b"31")]))), Ok(31));
    assert_eq!(block_count_from_captures(None), Err(DecodeError::BasicBlockHeaderInvalid));
    assert_eq!(
        block_count_from_captures(Some(groups(&[Some(b"x"), Some(b"99999999999999999999")]))),
        Err(DecodeError::BasicBlockHeaderInvalid)
    );
}

#[test]
fn reads_the_table_shape_from_captures() {
    let legacy = Some(groups(&[Some(b"x"), Some(b"3")]));
    let versioned = Some(groups(&[Some(b"x"), Some(b"4"), Some(b"12")]));
    assert_eq!(
        table_shape_from_captures(legacy.clone(), None),
        Ok(TableShape { version: 1, count: 3, has_column_line: false })
    );
    assert_eq!(
        table_shape_from_captures(None, versioned.clone()),
        Ok(TableShape { version: 4, count: 12, has_column_line: true })
    );
    // the legacy grammar is tried first
    assert_eq!(
        table_shape_from_captures(legacy, versioned),
        Ok(TableShape { version: 1, count: 3, has_column_line: false })
    );
    assert_eq!(table_shape_from_captures(None, None), Err(DecodeError::ModuleHeaderInvalid));
    assert_eq!(
        table_shape_from_captures(None, Some(groups(&[Some(b"x"), Some(b"4")]))),
        Err(DecodeError::ModuleHeaderInvalid)
    );
}

#[test]
fn builds_a_module_from_captures() {
    let caps = groups(&[
        Some(b"whole"),
        Some(b"3"),
        Some(b"1"),
        Some(b"7f0000"),
        Some(b"7f1000"),
        Some(b"7f0100"),
        Some(b"20"),
        Some(b"/bin/app"),
    ]);
    let module = Module::from_captures(ModuleLineFormat::V4, Some(caps.clone())).unwrap();
    assert_eq!(module.size, 0x1000);
    assert_eq!(module.segment_start, 0x7f0000);
    assert_eq!(module.segment_offset, 0x20);
    assert_eq!(module.containing_index, Some(1));
    assert_eq!(module.path, "/bin/app");
    assert!(module.bb_bitmap.is_empty());
    // the same groups do not make a line of version 5: the path has no group
    assert_eq!(
        Module::from_captures(ModuleLineFormat::V5, Some(caps)).unwrap_err(),
        DecodeError::ModuleFieldInvalid
    );
    assert_eq!(
        Module::from_captures(ModuleLineFormat::V1, None).unwrap_err(),
        DecodeError::ModuleLineInvalid
    );
}

#[test]
fn reads_module_lines_of_every_version() {
    let grammar = Grammar::new().unwrap();
    let v1 = Module::from_line_v1(&grammar, b" 3, 512, /bin/app").unwrap();
    assert_eq!((v1.size, v1.segment_start, v1.containing_index), (512, 0, None));
    let v2 = Module::from_line_v2(&grammar, b" 3, 0x400000, 0x400200, 0x400010, /bin/app").unwrap();
    assert_eq!((v2.size, v2.segment_start, v2.containing_index), (0x200, 0x400000, None));
    let v3 =
        Module::from_line_v3(&grammar, b" 3, 2, 0X400000, 0X400200, 0x400010, /bin/app").unwrap();
    assert_eq!((v3.size, v3.segment_start, v3.containing_index), (0x200, 0x400000, Some(2)));
    assert_eq!(v3.segment_offset, 0);
    let v4 = Module::from_line_v4(&grammar, b" 3, 2, 0x400000, 0x400200, 0x400010, 1c0, /bin/app")
        .unwrap();
    assert_eq!((v4.size, v4.segment_offset, v4.containing_index), (0x200, 0x1c0, Some(2)));
    let v5 = Module::from_line_v5(
        &grammar,
        b" 3, 2, 0x400000, 0x400200, 0x400010, 1c0, 0x10000, /bin/app with spaces",
    )
    .unwrap();
    assert_eq!((v5.size, v5.segment_offset, v5.containing_index), (0x200, 0x1c0, Some(2)));
    assert_eq!(v5.path, "/bin/app");
    assert_eq!(
        Module::from_line_v5(&grammar, b" 3, 2, 0x400000, 0x400200, 0x400010, 1c0, /bin/app")
            .unwrap_err(),
        DecodeError::ModuleLineInvalid
    );
    assert_eq!(
        Module::from_line_v2(&grammar, b" 3, 512, /bin/app").unwrap_err(),
        DecodeError::ModuleLineInvalid
    );
    assert_eq!(Module::from_line_v1(&grammar, b"").unwrap_err(), DecodeError::ModuleLineInvalid);
}

#[test]
fn knows_the_names_of_trace_logs() {
    let grammar = Grammar::new().unwrap();
    assert!(grammar.is_trace_log_name(b"drcov.app.12345.0000.proc.log"));
    assert!(grammar.is_trace_log_name(b"bbcov.app.log"));
    assert!(grammar.is_trace_log_name(b"drcov.log"));
    assert!(!grammar.is_trace_log_name(b"drcov-app.log"));
    assert!(!grammar.is_trace_log_name(b"coverage.info"));
    assert!(!grammar.is_trace_log_name(b"drcov.app.txt"));
}

#[test]
fn picks_the_grammar_of_a_version() {
    assert_eq!(ModuleLineFormat::of_version(1), ModuleLineFormat::V1);
    assert_eq!(ModuleLineFormat::of_version(2), ModuleLineFormat::V2);
    assert_eq!(ModuleLineFormat::of_version(3), ModuleLineFormat::V3);
    assert_eq!(ModuleLineFormat::of_version(4), ModuleLineFormat::V4);
    assert_eq!(ModuleLineFormat::of_version(5), ModuleLineFormat::V5);
    assert_eq!(ModuleLineFormat::of_version(6), ModuleLineFormat::V5);
    assert_eq!(ModuleLineFormat::of_version(0), ModuleLineFormat::V5);
}
