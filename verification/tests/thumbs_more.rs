use osu_song_manager::thumbs::{
    export_base_name, export_missing_error, ext_from_magic, is_stale_thumb, percent_decode, sanitize_filename, thumb_action,
    thumb_key, thumb_size, unique_path, ThumbAction,
};

#[test]
fn thumb_key_is_sha256_of_lowercased_path() {
    assert_eq!(
        thumb_key("abc", 256),
        "ba7816bf8f01cfea414140de5dae2223b00361a396177a9cb410ff61f20015ad_256x144.jpg"
    );
    assert_eq!(thumb_key("ABC", 256), thumb_key("abc", 256));
    assert_ne!(thumb_key("abd", 256), thumb_key("abc", 256));
    assert!(thumb_key("x", 8).ends_with("_8x4.jpg"));
}

#[test]
fn percent_decoding_of_keys() {
    assert_eq!(percent_decode("%E4%BD%A0"), "你");
    assert_eq!(percent_decode("%FF"), "\u{FFFD}");
    assert_eq!(percent_decode("a+b%2"), "a+b%2");
}

#[test]
fn batch_actions_and_sizes() {
    let mut seen: Vec<String> = Vec::new();
    let k = "k1".to_string();
    assert_eq!(thumb_action(&mut seen, &k, true), ThumbAction::Hit);
    assert!(seen.is_empty());
    assert_eq!(thumb_action(&mut seen, &k, false), ThumbAction::Generate);
    assert_eq!(thumb_action(&mut seen, &k, false), ThumbAction::Recheck);
    assert_eq!(seen, vec!["k1".to_string()]);
    assert_eq!(thumb_size(0), 1);
    assert_eq!(thumb_size(9000), 4096);
    assert_eq!(thumb_size(256), 256);
}

#[test]
fn stale_cache_files() {
    assert!(is_stale_thumb("abc.tmpwrite"));
    assert!(is_stale_thumb("deadbeefdeadbeef_256.jpg"));
    assert!(!is_stale_thumb("deadbeefdeadbeef_256x144.jpg"));
    assert!(!is_stale_thumb("web387700_256.jpg"));
    assert!(!is_stale_thumb("deadbeef_256.jpg"));
    assert!(!is_stale_thumb("deadbeefdeadbeef_.jpg"));
}

#[test]
fn magic_and_collision() {
    assert_eq!(ext_from_magic(&[0x89, b'P', b'N', b'G', 0, 0]), "png");
    assert_eq!(ext_from_magic(b"RIFFxxxxWEBP"), "webp");
    assert_eq!(ext_from_magic(&[0xFF, 0xD8, 0xFF]), "jpg");
    let base = export_base_name("art", "ttl", "cr");
    assert_eq!(base, "art - ttl [cr]");
    let taken = vec!["art - ttl [cr].jpg".to_string()];
    let (name, n) = unique_path(&base, "jpg", &|s: &String| taken.contains(s));
    assert_eq!(name, "art - ttl [cr] (2).jpg");
    assert_eq!(n, 1);
    assert_eq!(export_missing_error(42), "err.exportSourceMissing|42");
    assert_eq!(sanitize_filename(&sanitize_filename(" a:b. ")), sanitize_filename(" a:b. "));
}

#[test]
fn online_key_reads_back_from_both_uri_forms() {
    let k = osu_song_manager::thumbs::online_thumb_key(1234567, 512);
    assert_eq!(k, "web1234567_512x288.jpg");
    assert_eq!(osu_song_manager::thumbs::key_from_uri(&format!("thumb://{k}")), Some(k.clone()));
    assert_eq!(osu_song_manager::thumbs::key_from_uri(&format!("http://thumb.localhost/{k}?v=2")), Some(k));
}

#[test]
fn local_key_is_sha256_of_lowercased_path() {
    assert_eq!(
        thumb_key("C:\\OSU\\a.png", 256),
        "1691d5456e62b25756a47e6518361074a24ffe779e583a7fc82336323e9dd113_256x144.jpg"
    );
}
