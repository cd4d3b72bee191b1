use osu_song_manager::thumbs::{is_valid_thumb_key, key_from_uri, online_thumb_key, thumb_key};

#[test]
fn key_valid_rejects_traversal_and_accepts_good() {
    assert!(!is_valid_thumb_key("../../etc/passwd"));
    assert!(!is_valid_thumb_key("deadbeef_deadbeef_256.jpg/../x"));
    assert!(!is_valid_thumb_key("DEADBEEF_deadbeef_256.jpg"));
    assert!(!is_valid_thumb_key("abc_256.jpg"));
    assert!(!is_valid_thumb_key("deadbeefdeadbeef_256.png"));
    assert!(!is_valid_thumb_key("deadbeefdeadbeef_.jpg"));
    let k = thumb_key("C:\\osu\\files\\a\\ab\\abc", 256);
    assert!(is_valid_thumb_key(&k), "generated key should be valid: {k}");
    assert!(k.ends_with("_256x144.jpg"));
    let wk = online_thumb_key(387700, 256);
    assert!(is_valid_thumb_key(&wk), "online key should be valid: {wk}");
    assert!(wk.starts_with("web387700_"));
    assert!(!is_valid_thumb_key("webX_256x144.jpg"));
}

#[test]
fn key_from_uri_both_forms() {
    let k = thumb_key("C:/x/y", 128);
    assert_eq!(key_from_uri(&format!("http://thumb.localhost/{k}")), Some(k.clone()));
    assert_eq!(key_from_uri(&format!("thumb://{k}")), Some(k));
    assert!(key_from_uri("http://thumb.localhost/../../secret").is_none());
    assert!(key_from_uri("").is_none());
}
