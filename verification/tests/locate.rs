//! Locator decisions: override precedence, platform defaults, existence.
use mcsound::locate::{confirm_installation, installation_candidate, LocateError, Platform};

#[test]
fn override_takes_precedence() {
    let r = installation_candidate(
        Some("/custom/mc".to_string()),
        Platform::Other,
        Some("/home/u".to_string()),
    );
    assert_eq!(r.unwrap(), "/custom/mc");
}

#[test]
fn unix_default_is_dot_minecraft_under_home() {
    let r = installation_candidate(None, Platform::Other, Some("/home/u".to_string()));
    assert_eq!(r.unwrap(), "/home/u/.minecraft");
}

#[test]
fn windows_default_is_dot_minecraft_under_data_dir() {
    let r = installation_candidate(None, Platform::Windows, Some("C:/Users/u/AppData/Roaming".to_string()));
    assert_eq!(r.unwrap(), "C:/Users/u/AppData/Roaming/.minecraft");
}

#[test]
fn macos_default_is_application_support() {
    let r = installation_candidate(None, Platform::MacOs, Some("/Users/u".to_string()));
    assert_eq!(r.unwrap(), "/Users/u/Library/Application Support/minecraft");
}

#[test]
fn missing_base_directory_fails() {
    let r = installation_candidate(None, Platform::Other, None);
    assert!(matches!(r, Err(LocateError::HomeDirectoryUnknown)));
}

#[test]
fn confirm_installation_accepts_existing() {
    assert_eq!(confirm_installation("/home/u/.minecraft".to_string(), true).unwrap(), "/home/u/.minecraft");
}

#[test]
fn confirm_installation_rejects_missing_with_path() {
    match confirm_installation("/home/u/.minecraft".to_string(), false) {
        Err(LocateError::InstallationNotFound { path }) => assert_eq!(path, "/home/u/.minecraft"),
        other => panic!("expected InstallationNotFound, got {:?}", other),
    }
}
