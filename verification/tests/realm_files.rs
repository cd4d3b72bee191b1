use osu_song_manager::realm_db::background_of;
use osu_song_manager::realm_db::{magic_matches, set_named_files};

#[test]
fn magic_matches_by_extension() {
    let jpg = [0xFF, 0xD8, 0xFF, 0xE0, 0, 0];
    let png = [0x89, 0x50, 0x4E, 0x47, 0x0D, 0x0A, 0x1A, 0x0A];
    let webp = *b"RIFF\x10\x00\x00\x00WEBPVP8 ";
    let ogg = *b"OggS\x00\x02\x00\x00";
    let osu = *b"osu file format v14";
    let osu_bom = *b"\xEF\xBB\xBFosu file format";
    assert!(magic_matches("BG.jpg", &jpg));
    assert!(magic_matches("BG.jpeg", &jpg));
    assert!(!magic_matches("BG.jpg", &png), "jpg name does not accept PNG content");
    assert!(magic_matches("a.png", &png));
    assert!(magic_matches("a.webp", &webp));
    assert!(magic_matches("audio.ogg", &ogg));
    assert!(magic_matches("a.osu", &osu));
    assert!(magic_matches("a.osu", &osu_bom), "osu tolerates a UTF-8 BOM");
    assert!(magic_matches("a.osb", &osu));
    assert!(!magic_matches("a.unknown", &jpg), "unknown extension never passes");
    assert!(!magic_matches("noext", &jpg));
}

#[test]
fn set_named_files_dedups_and_skips_invalid() {
    let nru_name: Vec<String> = vec![
        "BG.jpg".into(),
        "audio.mp3".into(),
        "".into(),
        "BG.jpg".into(),
    ];
    let nru_file: Vec<u64> = vec![11, 12, 13, 14];
    let named = set_named_files(&[1, 2, 3, 4, 99], &nru_name, &nru_file);
    assert_eq!(named, vec![("BG.jpg".to_string(), 11u64), ("audio.mp3".to_string(), 12u64)]);
}

fn bg_probe(h: &str) -> Option<(Vec<u8>, String)> {
    if h.starts_with('a') {
        Some((vec![0xFF, 0xD8, 0xFF, 0xE0], format!("/files/{}", h)))
    } else if h.starts_with('b') {
        Some((vec![0x89, 0x50, 0x4E, 0x47], format!("/files/{}", h)))
    } else {
        None
    }
}

fn no_set(_p: &String) -> i64 {
    0
}

#[test]
fn background_canonical_name_comes_first() {
    let hashes = vec!["a".repeat(64), "b".repeat(64)];
    let named = vec![("cover.jpg".to_string(), 1u64), ("Background.PNG".to_string(), 2u64)];
    let want = "cover.jpg".to_string();
    let r = background_of(&hashes, &bg_probe, &no_set, &named, &want, 0, 9);
    assert_eq!(r, Some(("Background.PNG".to_string(), format!("/files/{}", "b".repeat(64)))));
}

#[test]
fn background_metadata_name_before_other_images() {
    let hashes = vec!["b".repeat(64), "a".repeat(64)];
    let named = vec![("first.png".to_string(), 1u64), ("bg.jpg".to_string(), 2u64), ("song.mp3".to_string(), 3u64)];
    let want = "BG.JPG".to_string();
    let r = background_of(&hashes, &bg_probe, &no_set, &named, &want, 0, 9);
    assert_eq!(r.map(|(n, _)| n), Some("bg.jpg".to_string()));
    let none_wanted = String::new();
    let r2 = background_of(&hashes, &bg_probe, &no_set, &named, &none_wanted, 0, 9);
    assert_eq!(r2.map(|(n, _)| n), Some("first.png".to_string()));
}
