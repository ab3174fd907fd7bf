//! Latest-index selection and the version order on index filenames.
use mcsound::indexes::{find_latest_index, index_ranks_above, is_index_file, parse_index_version};

fn names(xs: &[&str]) -> Vec<String> {
    xs.iter().map(|s| s.to_string()).collect()
}

#[test]
fn numeric_versions_compare_by_value() {
    let r = find_latest_index(&names(&["8.json", "26.json", "bad.json"]));
    assert_eq!(r, Some("26.json".to_string()));
}

#[test]
fn non_numeric_ranks_below_every_numeric() {
    assert!(index_ranks_above("8.json", "bad.json"));
    assert!(index_ranks_above("26.json", "bad.json"));
    assert!(!index_ranks_above("bad.json", "8.json"));
    assert!(!index_ranks_above("bad.json", "26.json"));
    assert!(index_ranks_above("26.json", "8.json"));
    assert!(!index_ranks_above("8.json", "26.json"));
}

#[test]
fn non_numeric_rank_is_reverse_lexicographic() {
    assert!(index_ranks_above("zz.json", "bad.json"));
    assert!(!index_ranks_above("bad.json", "zz.json"));
    let r = find_latest_index(&names(&["bad.json", "zz.json", "aa.json"]));
    assert_eq!(r, Some("zz.json".to_string()));
}

#[test]
fn only_json_extensions_are_considered() {
    let r = find_latest_index(&names(&["9.txt", "notes.md", "7.json"]));
    assert_eq!(r, Some("7.json".to_string()));
    assert_eq!(find_latest_index(&names(&["9.txt", "notes.md"])), None);
    assert_eq!(find_latest_index(&Vec::new()), None);
}

#[test]
fn bare_dot_json_has_no_extension() {
    assert!(!is_index_file(".json"));
    assert!(is_index_file("5.json"));
    assert!(is_index_file("a.b.json"));
    assert_eq!(find_latest_index(&names(&[".json"])), None);
}

#[test]
fn version_parse_matches_integer_rules() {
    assert_eq!(parse_index_version("26.json"), Some(26));
    assert_eq!(parse_index_version("+8.json"), Some(8));
    assert_eq!(parse_index_version("bad.json"), None);
    assert_eq!(parse_index_version("26"), None);
    assert_eq!(parse_index_version(".json"), None);
    assert_eq!(parse_index_version("4294967295.json"), Some(u32::MAX));
    assert_eq!(parse_index_version("4294967296.json"), None);
    assert_eq!(parse_index_version("-3.json"), None);
    assert_eq!(parse_index_version("1 2.json"), None);
}

#[test]
fn overflowing_numerals_rank_as_non_numeric() {
    // too large for the numeric order, so it falls below every numeric name
    assert!(index_ranks_above("1.json", "4294967296.json"));
    assert!(index_ranks_above("4294967296.json", "4294967295.json") == false);
}
