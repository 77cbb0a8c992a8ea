use drcov2lcov::cli::{Filter, ReplacementFilter};
use drcov2lcov::dwarf::LineInfoFilters;
use drcov2lcov::filter::DrcovFilters;

#[test]
fn filter_from_str_accepts_a_pattern() {
    let filter = Filter::from_str("lib.*\\.so").unwrap();
    assert_eq!(filter.matcher.source(), "lib.*\\.so");
}

#[test]
fn filter_from_str_reports_a_bad_pattern() {
    let err = Filter::from_str("foo(bar").unwrap_err();
    assert_eq!(err, "Could not create a regular expression from 'foo(bar'");
}

#[test]
fn replacement_filter_splits_at_the_first_colon() {
    let filter = ReplacementFilter::from_str("/a/b:/c:d").unwrap();
    assert_eq!(filter.matcher.source(), "/a/b");
    assert_eq!(filter.replacement, "/c:d");
    let filter = ReplacementFilter::from_str("x:").unwrap();
    assert_eq!(filter.matcher.source(), "x");
    assert_eq!(filter.replacement, "");
    let filter = ReplacementFilter::from_str("gr\u{fc}n:gr\u{fc}n/\u{e9}t\u{e9}").unwrap();
    assert_eq!(filter.matcher.source(), "gr\u{fc}n");
    assert_eq!(filter.replacement, "gr\u{fc}n/\u{e9}t\u{e9}");
}

#[test]
fn replacement_filter_needs_a_colon() {
    let err = ReplacementFilter::from_str("/a/b=/c").unwrap_err();
    assert_eq!(err, "Invalid path_map argument: no '=' found in '/a/b=/c'");
}

#[test]
fn replacement_filter_reports_a_bad_pattern() {
    let err = ReplacementFilter::from_str("a(b:c").unwrap_err();
    assert_eq!(err, "Could not create a regular expression from 'a(b'");
}

#[test]
fn an_empty_include_list_matches_everything() {
    let filters =
        DrcovFilters { module_filters: &[], module_skip_filters: &[], path_map_filters: &[] };
    assert!(filters.matches_any_module_filter(b"/usr/lib/libfoo.so"));
    assert!(filters.matches_any_module_filter(b""));
    assert!(filters.retains_module(b"/usr/lib/libfoo.so"));
}

#[test]
fn an_include_list_matches_if_one_pattern_does() {
    let wanted = [Filter::from_str("libfoo").unwrap(), Filter::from_str("libbar").unwrap()];
    let filters =
        DrcovFilters { module_filters: &wanted, module_skip_filters: &[], path_map_filters: &[] };
    assert!(filters.matches_any_module_filter(b"/usr/lib/libfoo.so"));
    assert!(filters.matches_any_module_filter(b"/usr/lib/libbar.so"));
    assert!(!filters.matches_any_module_filter(b"/usr/lib/libbaz.so"));
    assert!(!filters.retains_module(b"/usr/lib/libbaz.so"));
}

#[test]
fn an_empty_skip_list_hits_nothing() {
    let filters =
        DrcovFilters { module_filters: &[], module_skip_filters: &[], path_map_filters: &[] };
    assert!(!filters.matches_any_module_skip_filter(b"/usr/lib/libfoo.so"));
}

#[test]
fn a_skip_list_that_does_not_match_excludes_nothing() {
    let skip = [Filter::from_str("libc").unwrap()];
    let filters =
        DrcovFilters { module_filters: &[], module_skip_filters: &skip, path_map_filters: &[] };
    assert!(!filters.matches_any_module_skip_filter(b"/usr/lib/libfoo.so"));
    assert!(filters.retains_module(b"/usr/lib/libfoo.so"));
}

#[test]
fn skip_wins_over_include() {
    let wanted = [Filter::from_str("/usr/lib").unwrap()];
    let skip = [Filter::from_str("libfoo").unwrap()];
    let filters = DrcovFilters {
        module_filters: &wanted,
        module_skip_filters: &skip,
        path_map_filters: &[],
    };
    assert!(filters.matches_any_module_filter(b"/usr/lib/libfoo.so"));
    assert!(filters.matches_any_module_skip_filter(b"/usr/lib/libfoo.so"));
    assert!(!filters.retains_module(b"/usr/lib/libfoo.so"));
    assert!(filters.retains_module(b"/usr/lib/libbar.so"));
}

#[test]
fn only_the_first_matching_rule_is_applied() {
    let map = [
        ReplacementFilter::from_str("/build:/first").unwrap(),
        ReplacementFilter::from_str("/build/out:/second").unwrap(),
        ReplacementFilter::from_str("/first:/third").unwrap(),
    ];
    let filters =
        DrcovFilters { module_filters: &[], module_skip_filters: &[], path_map_filters: &map };
    assert_eq!(
        filters.maybe_replace_with_path_map_filter(b"/build/out/lib.so"),
        b"/first/out/lib.so".to_vec()
    );
}

#[test]
fn a_rule_replaces_only_the_first_match() {
    let map = [ReplacementFilter::from_str("a+:b").unwrap()];
    let filters =
        DrcovFilters { module_filters: &[], module_skip_filters: &[], path_map_filters: &map };
    assert_eq!(filters.maybe_replace_with_path_map_filter(b"xaaxaax"), b"xbxaax".to_vec());
}

#[test]
fn a_rule_may_refer_to_its_groups() {
    let map = [ReplacementFilter::from_str("/home/(\\w+)/:/srv/$1/").unwrap()];
    let filters =
        DrcovFilters { module_filters: &[], module_skip_filters: &[], path_map_filters: &map };
    assert_eq!(
        filters.maybe_replace_with_path_map_filter(b"/home/ann/lib.so"),
        b"/srv/ann/lib.so".to_vec()
    );
}

#[test]
fn an_input_that_no_rule_matches_is_unchanged() {
    let map = [ReplacementFilter::from_str("/build:/first").unwrap()];
    let filters =
        DrcovFilters { module_filters: &[], module_skip_filters: &[], path_map_filters: &map };
    assert_eq!(filters.maybe_replace_with_path_map_filter(b"/usr/lib.so"), b"/usr/lib.so".to_vec());
    let none =
        DrcovFilters { module_filters: &[], module_skip_filters: &[], path_map_filters: &[] };
    assert_eq!(none.maybe_replace_with_path_map_filter(b"/usr/lib.so"), b"/usr/lib.so".to_vec());
}

#[test]
fn a_row_without_source_file_fails_the_source_filters() {
    let filters = LineInfoFilters { src_filters: &[], src_skip_filters: &[] };
    assert!(!filters.matches_any_source_filter(None));
    assert!(!filters.matches_any_source_skip_filter(None));
    assert!(!filters.retains_source(None));
}

#[test]
fn source_filters_follow_the_same_laws() {
    let main = String::from("/src/main.c");
    let test = String::from("/src/test/main.c");
    let none = LineInfoFilters { src_filters: &[], src_skip_filters: &[] };
    assert!(none.matches_any_source_filter(Some(&main)));
    assert!(!none.matches_any_source_skip_filter(Some(&main)));
    assert!(none.retains_source(Some(&main)));
    let wanted = [Filter::from_str("^/src/").unwrap()];
    let skip = [Filter::from_str("/test/").unwrap()];
    let both = LineInfoFilters { src_filters: &wanted, src_skip_filters: &skip };
    assert!(both.retains_source(Some(&main)));
    assert!(both.matches_any_source_filter(Some(&test)));
    assert!(both.matches_any_source_skip_filter(Some(&test)));
    assert!(!both.retains_source(Some(&test)));
    assert!(!both.retains_source(Some(&String::from("/usr/lib/gcc/stdio.h"))));
}
