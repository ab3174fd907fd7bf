//! End-to-end resolution scenario over an in-memory picture of the store.
use mcsound::catalog::{confirm_object, IndexEntry, MinecraftAssets, ResolveError};
use mcsound::indexes::find_latest_index;
use mcsound::locate::{confirm_installation, installation_candidate, Platform};

#[test]
fn full_resolution_flow() {
    // the installation root, located without an override
    let root = installation_candidate(None, Platform::Other, Some("/home/u".to_string()))
        .and_then(|c| confirm_installation(c, true))
        .unwrap();
    assert_eq!(root, "/home/u/.minecraft");

    // the indexes directory holds one index, 5.json
    let latest = find_latest_index(&vec!["5.json".to_string()]).unwrap();
    assert_eq!(latest, "5.json");

    // its parsed objects
    let index = vec![
        IndexEntry {
            key: "minecraft/sounds/mob/zombie/death1.ogg".to_string(),
            hash: "aa11".to_string(),
            size: 100,
        },
        IndexEntry {
            key: "minecraft/textures/foo.png".to_string(),
            hash: "bb22".to_string(),
            size: 3,
        },
    ];
    let mc = MinecraftAssets::from_index(root.clone(), index);

    assert_eq!(mc.list_sounds(None), vec!["mob/zombie/death1".to_string()]);

    let path = mc.resolve_sound("mob/zombie/death1").unwrap();
    assert_eq!(path, "/home/u/.minecraft/assets/objects/aa/aa11");

    // the object file is present: the path comes back unchanged
    assert_eq!(confirm_object(path.clone(), true).unwrap(), path);

    // the object file is absent: store corruption, not an unknown name
    match confirm_object(path.clone(), false) {
        Err(ResolveError::ObjectMissing { path: p }) => assert_eq!(p, path),
        other => panic!("expected ObjectMissing, got {:?}", other),
    }

    match mc.resolve_sound("mob/zombie/death2") {
        Err(ResolveError::SoundNotFound { name }) => assert_eq!(name, "mob/zombie/death2"),
        other => panic!("expected SoundNotFound, got {:?}", other),
    }
}
