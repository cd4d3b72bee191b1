use osu_song_manager::convert::{
    convert_core, convert_request_ids, is_precompressed, media_warnings, osu_format_version, plan_sources,
    sanitize_rel_path, source_missing_error, ConvertMode, SetSource,
};
use osu_song_manager::model::{ConvertProgress, ConvertState};
use osu_song_manager::realm_db::LazerSetFileIndex;

fn source(id: i64) -> SetSource {
    SetSource {
        set_id: id,
        title: "S".into(),
        artist: "A".into(),
        files: vec![("audio.mp3".into(), "/nowhere/audio".into())],
    }
}

#[test]
fn cancel_marks_remaining_as_cancelled() {
    let sources: Vec<SetSource> = (1..=3).map(source).collect();
    let mut events: Vec<ConvertProgress> = Vec::new();
    let rep = convert_core(
        ConvertMode::Songs,
        "out",
        &sources,
        &|_p: ConvertProgress| {},
        &|| true,
        &|_m: ConvertMode, _s: &SetSource| Ok(("x".to_string(), 1u32, 1u64, Vec::new())),
        &mut events,
    );
    assert!(rep.cancelled);
    assert_eq!(rep.converted, 0);
    assert_eq!(rep.failed, 0);
    assert!(rep.results.iter().all(|r| r.error.as_deref() == Some("err.cancelled")));
    assert_eq!(events.len(), 6);
    assert!(events[3..].iter().all(|e| e.state == ConvertState::Cancelled));
}

#[test]
fn failing_set_does_not_stop_batch() {
    let sources = vec![source(2), source(1)];
    let mut events: Vec<ConvertProgress> = Vec::new();
    let rep = convert_core(
        ConvertMode::Osz,
        "out",
        &sources,
        &|_p: ConvertProgress| {},
        &|| false,
        &|_m: ConvertMode, s: &SetSource| {
            if s.set_id == 2 {
                Err(source_missing_error(&["ghost.osu".to_string()], &[false]).unwrap())
            } else {
                Ok(("out/1 A - S.osz".to_string(), 1u32, 10u64, Vec::new()))
            }
        },
        &mut events,
    );
    assert_eq!(rep.converted, 1);
    assert_eq!(rep.failed, 1);
    assert!(!rep.cancelled);
    assert_eq!(rep.results[0].error.as_deref(), Some("err.convertSourceMissing|1|1|ghost.osu"));
    assert_eq!(rep.results[1].output.as_deref(), Some("out/1 A - S.osz"));
    assert_eq!(rep.output_dir, "out");
    let seen: Vec<(u32, i64, ConvertState)> = events.iter().map(|e| (e.done, e.set_id, e.state)).collect();
    assert_eq!(
        seen,
        vec![
            (0, 2, ConvertState::Queued),
            (0, 1, ConvertState::Queued),
            (0, 2, ConvertState::Converting),
            (1, 2, ConvertState::Failed),
            (1, 1, ConvertState::Converting),
            (2, 1, ConvertState::Done),
        ]
    );
    assert_eq!(events[3].error.as_deref(), Some("err.convertSourceMissing|1|1|ghost.osu"));
    assert!(events.iter().all(|e| e.total == 2));
}

#[test]
fn request_ids_and_plan() {
    assert_eq!(convert_request_ids(&[]).unwrap_err(), "err.convertNoSets");
    let many: Vec<i64> = (1..=2001).collect();
    assert_eq!(convert_request_ids(&many).unwrap_err(), "err.convertTooMany|2000|2001");
    assert_eq!(convert_request_ids(&[5, 3, 5, -1]).unwrap(), vec![5, 3, -1]);
    let index = vec![
        LazerSetFileIndex { online_id: 3, title: "T3".into(), artist: "A3".into(), files: vec![("a.osu".into(), "/p/a".into())] },
        LazerSetFileIndex { online_id: 3, title: "dup".into(), artist: "dup".into(), files: Vec::new() },
    ];
    let (sources, failures) = plan_sources(&[5, 3, -1], &index);
    assert_eq!(sources.len(), 1);
    assert_eq!(sources[0].set_id, 3);
    assert_eq!(sources[0].title, "T3");
    assert_eq!(sources[0].files, vec![("a.osu".to_string(), "/p/a".to_string())]);
    assert_eq!(failures.len(), 2);
    assert_eq!(failures[0].set_id, 5);
    assert_eq!(failures[0].error.as_deref(), Some("err.convertSetNotFound"));
    assert_eq!(failures[1].set_id, -1);
    assert_eq!(failures[1].error.as_deref(), Some("err.convertLocalUnsupported"));
}

#[test]
fn entry_paths_and_media() {
    assert_eq!(sanitize_rel_path("sb\\..\\dot.png"), vec!["sb".to_string(), "dot.png".to_string()]);
    assert_eq!(sanitize_rel_path("a/./b:c"), vec!["a".to_string(), "b_c".to_string()]);
    assert!(is_precompressed("Audio.MP3"));
    assert!(!is_precompressed("map.osu"));
    let w = media_warnings(&["a.flac".to_string(), "b.mkv".to_string(), "c.mp3".to_string()]);
    assert_eq!(w, vec!["err.convertWarnAudio|a.flac".to_string(), "err.convertWarnVideo|b.mkv".to_string()]);
    assert_eq!(source_missing_error(&["a".to_string(), "b".to_string()], &[true, true]), None);
}

#[test]
fn format_version_line() {
    assert_eq!(osu_format_version("\u{feff}osu file format v128\r\n\r\n[Events]"), Some(128));
    assert_eq!(osu_format_version("osu file format v14\n"), Some(14));
    assert_eq!(osu_format_version("[General]\n"), None);
}

#[test]
fn missing_source_fails_that_set_only() {
    let good = SetSource {
        set_id: 1,
        title: "Good".into(),
        artist: "A".into(),
        files: vec![("audio.mp3".into(), "files/audiohash".into()), ("Good [Hard].osu".into(), "files/osuhash".into())],
    };
    let bad = SetSource {
        set_id: 2,
        title: "Bad".into(),
        artist: "A".into(),
        files: vec![("audio.mp3".into(), "files/audiohash".into()), ("ghost.osu".into(), "files/nonexistent".into())],
    };
    let on_disk = ["files/audiohash", "files/osuhash"];
    let mut events: Vec<ConvertProgress> = Vec::new();
    let rep = convert_core(
        ConvertMode::Songs,
        "out",
        &[bad, good],
        &|_p: ConvertProgress| {},
        &|| false,
        &|_m: ConvertMode, s: &SetSource| {
            let names: Vec<String> = s.files.iter().map(|(n, _)| n.clone()).collect();
            let present: Vec<bool> = s.files.iter().map(|(_, p)| on_disk.contains(&p.as_str())).collect();
            match source_missing_error(&names, &present) {
                Some(e) => Err(e),
                None => Ok((format!("out/{} A - {}", s.set_id, s.title), s.files.len() as u32, 0u64, Vec::new())),
            }
        },
        &mut events,
    );
    assert_eq!(rep.converted, 1);
    assert_eq!(rep.failed, 1);
    let err = rep.results[0].error.as_deref().unwrap();
    assert!(err.starts_with("err.convertSourceMissing|"), "{err}");
    assert_eq!(rep.results[1].output.as_deref(), Some("out/1 A - Good"));
}

#[test]
fn version_line_tolerates_bom() {
    let bom_v128 = "\u{feff}osu file format v128\r\n\r\n[Events]\r\n2,10.5,20.7\r\n";
    assert_eq!(osu_format_version(bom_v128), Some(128));
    assert_eq!(osu_format_version("osu file format v14\n"), Some(14));
}
