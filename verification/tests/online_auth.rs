use osu_song_manager::online::{parse_callback_path, state_ok};

#[test]
fn callback_state_validation() {
    let (code, state) = parse_callback_path("/callback?code=abc%2Bdef&state=xY123");
    assert_eq!(code.as_deref(), Some("abc+def"));
    assert_eq!(state.as_deref(), Some("xY123"));
    assert!(state_ok("xY123", state.as_deref()));
    assert!(!state_ok("other", state.as_deref()));
    assert!(!state_ok("xY123", None));
    let (c2, s2) = parse_callback_path("/callback");
    assert!(c2.is_none() && s2.is_none());
}
