//! Catalog construction, filtering, listing and resolution.
use mcsound::catalog::{
    confirm_object, is_sound_key_str, IndexEntry, MinecraftAssets, ResolveError,
};

fn entry(key: &str, hash: &str, size: u64) -> IndexEntry {
    IndexEntry { key: key.to_string(), hash: hash.to_string(), size }
}

fn sample_catalog() -> MinecraftAssets {
    let index = vec![
        entry("minecraft/sounds/mob/zombie/death1.ogg", "aa11cc22", 100),
        entry("minecraft/textures/foo.png", "bb22", 5),
        entry("minecraft/sounds/mob/cow/moo.ogg", "cc33dd44", 7),
        entry("minecraft/sounds/ambient/cave.ogg", "dd44ee55", 9),
        entry("minecraft/sounds/readme.txt", "ee55", 1),
        entry("sounds/mob/pig/oink.ogg", "ff66", 2),
    ];
    MinecraftAssets::from_index("/mc".to_string(), index)
}

#[test]
fn filter_keeps_exactly_sound_keys() {
    let mc = sample_catalog();
    let names = mc.list_sounds(None);
    assert_eq!(
        names,
        vec![
            "ambient/cave".to_string(),
            "mob/cow/moo".to_string(),
            "mob/zombie/death1".to_string(),
        ]
    );
}

#[test]
fn sound_key_recognition() {
    assert!(is_sound_key_str("minecraft/sounds/mob/cow/moo.ogg"));
    assert!(is_sound_key_str("minecraft/sounds/.ogg"));
    assert!(!is_sound_key_str("minecraft/sounds/readme.txt"));
    assert!(!is_sound_key_str("minecraft/textures/foo.png"));
    assert!(!is_sound_key_str("sounds/mob/pig/oink.ogg"));
    assert!(!is_sound_key_str("minecraft/sounds.ogg"));
}

#[test]
fn listing_is_sorted_without_duplicates() {
    let mc = sample_catalog();
    let names = mc.list_sounds(None);
    for w in names.windows(2) {
        assert!(w[0] < w[1]);
    }
}

#[test]
fn listing_pattern_filters_by_substring() {
    let mc = sample_catalog();
    assert_eq!(
        mc.list_sounds(Some("mob/")),
        vec!["mob/cow/moo".to_string(), "mob/zombie/death1".to_string()]
    );
    assert_eq!(mc.list_sounds(Some("cave")), vec!["ambient/cave".to_string()]);
    assert_eq!(mc.list_sounds(Some("zzz")), Vec::<String>::new());
    // unanchored and case-sensitive
    assert_eq!(mc.list_sounds(Some("oo")), vec!["mob/cow/moo".to_string()]);
    assert_eq!(mc.list_sounds(Some("MOB")), Vec::<String>::new());
}

#[test]
fn resolve_derives_hash_fanout_path() {
    let mc = sample_catalog();
    let path = mc.resolve_sound("mob/zombie/death1").unwrap();
    assert_eq!(path, "/mc/assets/objects/aa/aa11cc22");
}

#[test]
fn resolve_parent_directory_is_two_char_prefix() {
    let index = vec![entry("minecraft/sounds/ping.ogg", "abcd1234", 1)];
    let mc = MinecraftAssets::from_index("/root/anywhere".to_string(), index);
    let path = mc.resolve_sound("ping").unwrap();
    assert_eq!(path, "/root/anywhere/assets/objects/ab/abcd1234");
    let file = path.rsplit('/').next().unwrap();
    let parent = path.rsplit('/').nth(1).unwrap();
    assert_eq!(file, "abcd1234");
    assert_eq!(parent, "ab");
}

#[test]
fn resolve_unknown_name_reports_it() {
    let mc = sample_catalog();
    match mc.resolve_sound("mob/zombie/death2") {
        Err(ResolveError::SoundNotFound { name }) => assert_eq!(name, "mob/zombie/death2"),
        other => panic!("expected SoundNotFound, got {:?}", other),
    }
}

#[test]
fn round_trip_every_catalog_name_resolves() {
    let mc = sample_catalog();
    for name in mc.list_sounds(None) {
        assert!(mc.resolve_sound(&name).is_ok());
    }
}

#[test]
fn confirm_object_present_passes_path_through() {
    let p = "/mc/assets/objects/aa/aa11cc22".to_string();
    assert_eq!(confirm_object(p.clone(), true).unwrap(), p);
}

#[test]
fn confirm_object_absent_is_object_missing() {
    let p = "/mc/assets/objects/aa/aa11cc22".to_string();
    match confirm_object(p.clone(), false) {
        Err(ResolveError::ObjectMissing { path }) => assert_eq!(path, p),
        other => panic!("expected ObjectMissing, got {:?}", other),
    }
}

#[test]
fn empty_index_yields_empty_catalog() {
    let mc = MinecraftAssets::from_index("/mc".to_string(), Vec::new());
    assert_eq!(mc.list_sounds(None), Vec::<String>::new());
    assert!(matches!(
        mc.resolve_sound("anything"),
        Err(ResolveError::SoundNotFound { .. })
    ));
}

#[test]
fn empty_sound_name_is_allowed() {
    let index = vec![entry("minecraft/sounds/.ogg", "ab12", 1)];
    let mc = MinecraftAssets::from_index("/mc".to_string(), index);
    assert_eq!(mc.list_sounds(None), vec![String::new()]);
    assert_eq!(mc.resolve_sound("").unwrap(), "/mc/assets/objects/ab/ab12");
}
