use osu_song_manager::downloader::{download_one, Mirror, CANCELLED_MARK};
use osu_song_manager::model::{DownloadProgress, DownloadState};
use std::cell::Cell;
use osu_song_manager::downloader::{
    build_url, chain, is_zip_magic, lane_paused, parse_content_disposition, pause_lane,
    retry_after_secs, CancelFlag, LaneTable, RunHandle,
};
use osu_song_manager::thumbs::sanitize_filename;

#[test]
fn chain_order_and_dialects() {
    let urls_full: Vec<String> = chain().iter().map(|m| build_url(*m, 42, false)).collect();
    assert_eq!(urls_full[0], "https://mirror.hinamizawa.ai/api/v1/hinai/d/42");
    assert_eq!(urls_full[1], "https://osu.direct/api/d/42");
    assert_eq!(urls_full[2], "https://api.nerinyan.moe/d/42");
    assert_eq!(urls_full[3], "https://txy1.sayobot.cn/beatmaps/download/full/42");
    let urls_nv: Vec<String> = chain().iter().map(|m| build_url(*m, 42, true)).collect();
    assert!(urls_nv[0].ends_with("/42?noVideo=1"));
    assert!(urls_nv[1].ends_with("/42?noVideo=1"));
    assert!(urls_nv[2].ends_with("/42?noVideo=1"));
    assert!(urls_nv[3].contains("/novideo/42"));
    assert!(!urls_nv[0].contains("+n"));
}

#[test]
fn disposition_plain_names_only() {
    assert_eq!(
        parse_content_disposition(r#"attachment; filename="MEGALOVANIA [Kyshiro].osz""#).as_deref(),
        Some("MEGALOVANIA [Kyshiro]")
    );
    assert_eq!(parse_content_disposition(r#"inline; filename=x.osz"#).as_deref(), Some("x"));
    assert!(parse_content_disposition("attachment; filename=\"=?UTF-8?B?5a6d?=.osz\"").is_none());
    assert!(parse_content_disposition("attachment").is_none());
    assert_eq!(
        parse_content_disposition(r#"attachment; filename="a:b/c?.osz""#).as_deref(),
        Some("a:b/c?"),
    );
    let raw = parse_content_disposition(r#"attachment; filename="a:b<c>.osz""#).unwrap();
    assert_eq!(sanitize_filename(&raw), "a_b_c_");
}

#[test]
fn paused_lane_skipping_and_floor() {
    let mut map = LaneTable::new();
    let now: u64 = 1_000_000;
    pause_lane(&mut map, "hinai", 5, now);
    assert!(lane_paused(&map, "hinai", now));
    assert!(lane_paused(&map, "hinai", now + 59_000));
    assert!(!lane_paused(&map, "hinai", now + 61_000));
    assert!(!lane_paused(&map, "osudirect", now));
    pause_lane(&mut map, "sayobot", 9999, now);
    assert!(lane_paused(&map, "sayobot", now + 3_600_000));
}

#[test]
fn retry_after_floor_and_parse() {
    assert_eq!(retry_after_secs(Some("120")), 120);
    assert_eq!(retry_after_secs(Some("5")), 60);
    assert_eq!(retry_after_secs(Some("garbage")), 60);
    assert_eq!(retry_after_secs(None), 60);
}

#[test]
fn cancel_flag_semantics() {
    let mut flag = CancelFlag::new();
    assert!(!RunHandle::is_cancelled(&flag));
    let g = RunHandle::begin(&mut flag).expect("idle begin");
    assert!(!RunHandle::is_cancelled(&flag));
    RunHandle::request(&mut flag);
    assert!(RunHandle::is_cancelled(&flag));
    RunHandle::end(&mut flag, g);
    RunHandle::request(&mut flag);
    let g2 = RunHandle::begin(&mut flag).expect("re-begin resets");
    assert!(!RunHandle::is_cancelled(&flag));
    RunHandle::end(&mut flag, g2);
}

#[test]
fn pk_sniff() {
    assert!(is_zip_magic(b"PK\x03\x04"));
    assert!(!is_zip_magic(b"{\""));
    assert!(!is_zip_magic(b"P"));
    assert!(!is_zip_magic(b"pk"));
}

#[test]
fn archive_needs_an_osu_entry() {
    assert!(osu_song_manager::downloader::archive_has_osu(&["audio.mp3".to_string(), "Song [Hard].OSU".to_string()]));
    assert!(!osu_song_manager::downloader::archive_has_osu(&["audio.mp3".to_string(), "bg.jpg".to_string(), "osu".to_string()]));
    assert!(!osu_song_manager::downloader::archive_has_osu(&[]));
}

fn no_cancel() -> bool {
    false
}

#[test]
fn download_all_lanes_cooling_fails_without_request() {
    let tried = Cell::new(0u32);
    let attempt = |_m: Mirror| -> Result<Option<String>, String> {
        tried.set(tried.get() + 1);
        Err("unreachable".to_string())
    };
    let place = |_n: &String| -> Result<(String, u64), String> { Err("unreachable".to_string()) };
    let emitted = Cell::new(0u32);
    let mut events: Vec<DownloadProgress> = Vec::new();
    let r = download_one(7, &no_cancel, &|_id: &str| true, &attempt, &place, &|| {}, &|_p: &DownloadProgress| emitted.set(emitted.get() + 1), &mut events);
    assert_eq!(tried.get(), 0);
    assert!(!r.ok);
    assert_eq!(r.set_id, 7);
    assert!(r.path.is_none() && r.mirror.is_none());
    assert_eq!(r.error.as_deref(), Some("err.allMirrorsCooling"));
    assert_eq!(emitted.get(), 1);
    assert_eq!(events.len(), 1);
    assert_eq!(events[0].state, DownloadState::Failed);
    assert_eq!(events[0].error.as_deref(), Some("err.allMirrorsCooling"));
}

#[test]
fn download_falls_through_to_next_mirror() {
    let attempt = |m: Mirror| -> Result<Option<String>, String> {
        if m.id == "hinai" { Err("HTTP 404".to_string()) } else { Ok(Some("Song".to_string())) }
    };
    let place = |n: &String| -> Result<(String, u64), String> { Ok((format!("/songs/{}", n), 5)) };
    let mut events: Vec<DownloadProgress> = Vec::new();
    let r = download_one(42, &no_cancel, &|_id: &str| false, &attempt, &place, &|| {}, &|_p: &DownloadProgress| {}, &mut events);
    assert!(r.ok);
    assert_eq!(r.mirror.as_deref(), Some("osu.direct"));
    assert_eq!(r.path.as_deref(), Some("/songs/42 Song.osz"));
    assert_eq!(r.bytes, 5);
    let states: Vec<DownloadState> = events.iter().map(|p| p.state).collect();
    assert_eq!(states, vec![DownloadState::Downloading, DownloadState::Downloading, DownloadState::Done]);
    assert_eq!(events[0].mirror.as_deref(), Some("hinai"));
    assert_eq!(events[2].received, 5);
}

#[test]
fn download_cancel_mark_stops_the_chain() {
    let attempt = |_m: Mirror| -> Result<Option<String>, String> { Err(CANCELLED_MARK.to_string()) };
    let place = |_n: &String| -> Result<(String, u64), String> { Err("unreachable".to_string()) };
    let mut events: Vec<DownloadProgress> = Vec::new();
    let r = download_one(3, &no_cancel, &|id: &str| id == "hinai", &attempt, &place, &|| {}, &|_p: &DownloadProgress| {}, &mut events);
    assert!(!r.ok);
    assert_eq!(r.error.as_deref(), Some("err.cancelled"));
    let states: Vec<DownloadState> = events.iter().map(|p| p.state).collect();
    assert_eq!(states, vec![DownloadState::Downloading, DownloadState::Cancelled]);
    assert_eq!(events[0].mirror.as_deref(), Some("osu.direct"));
}
