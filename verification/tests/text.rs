//! String utilities: comparison, affix tests, substring search, parsing.
use mcsound::text::{parse_u32, str_contains, str_ends_with, str_eq, str_lt, str_starts_with};

#[test]
fn lexicographic_comparison() {
    assert!(str_lt("a", "b"));
    assert!(str_lt("a", "ab"));
    assert!(!str_lt("ab", "a"));
    assert!(!str_lt("same", "same"));
    assert!(str_lt("", "x"));
    assert!(!str_lt("", ""));
    assert!(str_lt("Z", "a"));
}

#[test]
fn equality_is_by_characters() {
    assert!(str_eq("abc", "abc"));
    assert!(!str_eq("abc", "abd"));
    assert!(!str_eq("abc", "ab"));
    assert!(str_eq("", ""));
}

#[test]
fn affix_tests() {
    assert!(str_starts_with("minecraft/sounds/x.ogg", "minecraft/sounds/"));
    assert!(!str_starts_with("minecraft/sound/x.ogg", "minecraft/sounds/"));
    assert!(str_ends_with("x.ogg", ".ogg"));
    assert!(!str_ends_with("x.mp3", ".ogg"));
    assert!(!str_ends_with("gg", ".ogg"));
    assert!(str_starts_with("abc", ""));
    assert!(str_ends_with("abc", ""));
}

#[test]
fn substring_search() {
    assert!(str_contains("mob/zombie/death1", "zombie"));
    assert!(str_contains("mob/zombie/death1", ""));
    assert!(!str_contains("mob/zombie/death1", "cow"));
    assert!(str_contains("aaa", "aa"));
    assert!(!str_contains("a", "aa"));
}

#[test]
fn decimal_parsing() {
    assert_eq!(parse_u32("0"), Some(0));
    assert_eq!(parse_u32("26"), Some(26));
    assert_eq!(parse_u32("+26"), Some(26));
    assert_eq!(parse_u32(""), None);
    assert_eq!(parse_u32("+"), None);
    assert_eq!(parse_u32("++1"), None);
    assert_eq!(parse_u32("1a"), None);
    assert_eq!(parse_u32("-1"), None);
    assert_eq!(parse_u32("007"), Some(7));
    assert_eq!(parse_u32("4294967295"), Some(u32::MAX));
    assert_eq!(parse_u32("4294967296"), None);
    assert_eq!(parse_u32("99999999999999999999"), None);
}
