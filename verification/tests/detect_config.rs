use osu_song_manager::config::AppConfig;
use osu_song_manager::detect::{add_candidate, is_install_dir, resolve_lazer_data_dir, validate_library};
use osu_song_manager::model::{LibraryCandidate, SourceKind};

#[test]
fn active_path_follows_mode() {
    let cfg = AppConfig {
        mode: Some(SourceKind::Lazer),
        lazer_dir: Some("C:/somewhere/osu!".into()),
        ..AppConfig::default()
    };
    let (k, p) = cfg.active_path().unwrap();
    assert_eq!(k, SourceKind::Lazer);
    assert_eq!(p, "C:/somewhere/osu!");
    let stable = AppConfig { mode: Some(SourceKind::Stable), lazer_dir: Some("x".into()), ..AppConfig::default() };
    assert!(stable.active_path().is_none());
    assert!(AppConfig::default().active_path().is_none());
}

#[test]
fn validate_library_errors() {
    assert_eq!(validate_library(SourceKind::Lazer, "D:/x", false, false, false).unwrap_err(), "err.dirNotFound|D:/x");
    assert_eq!(validate_library(SourceKind::Lazer, "D:/x", true, false, false).unwrap_err(), "err.lazerNoRealm");
    assert!(validate_library(SourceKind::Lazer, "D:/x", true, true, false).is_ok());
    assert_eq!(validate_library(SourceKind::Stable, "D:/x", true, true, true).unwrap_err(), "err.stableIsLazer");
    assert!(validate_library(SourceKind::Stable, "D:/x", true, false, false).is_ok());
    assert!(validate_library(SourceKind::OszFolder, "D:/x", true, false, true).is_ok());
}

#[test]
fn install_dirs_resolve_to_roaming_data() {
    assert!(is_install_dir(Some("OsuLazer"), &Vec::new()));
    assert!(is_install_dir(None, &vec![("update.EXE".to_string(), false)]));
    assert!(is_install_dir(None, &vec![("Current".to_string(), true)]));
    assert!(!is_install_dir(Some("data"), &vec![("current".to_string(), false), ("client.realm".to_string(), false)]));
    assert_eq!(resolve_lazer_data_dir(true, true, &[true, true]), None);
    assert_eq!(resolve_lazer_data_dir(false, true, &[false, true]), Some(1));
    assert_eq!(resolve_lazer_data_dir(false, true, &[false, false]), None);
    assert_eq!(resolve_lazer_data_dir(false, false, &[true]), None);
}

#[test]
fn candidates_dedupe_by_kind_and_path() {
    let mut out: Vec<LibraryCandidate> = Vec::new();
    add_candidate(&mut out, SourceKind::Lazer, "C:\\osu!", "dt.lazerDefault", false);
    add_candidate(&mut out, SourceKind::Lazer, "C:\\osu!", "dt.lazerDrive", true);
    add_candidate(&mut out, SourceKind::Stable, "C:\\osu!", "dt.stableDrive", true);
    add_candidate(&mut out, SourceKind::Lazer, "C:\\osu!", "dt.lazerDefault", false);
    assert_eq!(out.len(), 3);
    assert_eq!(out[1].kind, SourceKind::Stable);
    assert_eq!(out[1].detail, "dt.stableDrive");
}
