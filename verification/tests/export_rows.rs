use osu_song_manager::export_csv::{build_rows, csv_file_name, csv_header, CsvDiff, CsvOnline, CsvSet};
use osu_song_manager::model::{BeatmapStatus, GameMode, SourceKind};

#[test]
fn header_is_33_cols_in_exact_order() {
    let h = csv_header();
    assert_eq!(h.len(), 33);
    assert_eq!(h[0], "seekman_export_version");
    assert_eq!(h[1], "exported_at");
    assert_eq!(h[2], "beatmapset_id");
    assert_eq!(h[32], "library_source");
    assert!(h.iter().any(|c| c == "online_synced_at"));
}

fn diff(id: i64, version: &str, stars: Option<f64>) -> CsvDiff {
    let rated = stars.filter(|v| *v > 0.0 && v.is_finite());
    CsvDiff {
        beatmap_id: id,
        version: version.into(),
        mode: GameMode::Osu,
        md5: None,
        stars: rated.map(|v| format!("{v:.4}")).unwrap_or_default(),
        stars_bits: stars.unwrap_or(0.0).to_bits(),
        ar: format!("{:.2}", 9.5f32),
        cs: format!("{:.2}", 4.0f32),
        hp: format!("{:.2}", 5.0f32),
        od: format!("{:.2}", 8.25f32),
        bpm: format!("{:.3}", 180.0f64),
        total_ms: 134_500,
        object_count: 456,
        creator: "nm".into(),
    }
}

fn set(sid: i64, title: &str, status: BeatmapStatus, diffs: Vec<CsvDiff>) -> CsvSet {
    CsvSet {
        beatmapset_id: sid,
        artist: "A".into(),
        artist_unicode: "A".into(),
        title: title.into(),
        title_unicode: title.into(),
        creator: "cr".into(),
        source: "anime".into(),
        tags: "t1 t2".into(),
        status,
        date_added: Some(1700000000),
        source_kind: SourceKind::Lazer,
        difficulties: diffs,
    }
}

#[test]
fn rows_sorted_by_set_then_stars_then_version() {
    let sets = vec![
        set(5001, "Zeta", BeatmapStatus::Ranked, vec![diff(1, "B", Some(3.25)), diff(2, "A", Some(5.5))]),
        set(0, "Local", BeatmapStatus::Unknown, vec![diff(0, "Insane", None)]),
        set(1001, "Alpha", BeatmapStatus::Loved, vec![diff(3, "Easy", Some(2.0)), diff(4, "Expert", Some(6.75))]),
    ];
    let rows = build_rows(&sets, &Vec::new(), 1700000000);
    assert_eq!(rows.len(), 5);
    let keys: Vec<String> = rows
        .iter()
        .map(|r| format!("{}|{}|{}", r.cells[2], r.cells[13], r.cells[9]))
        .collect();
    assert_eq!(
        keys,
        vec!["1001|6.7500|Expert", "1001|2.0000|Easy", "5001|5.5000|A", "5001|3.2500|B", "||Insane"]
    );
    let first = &rows[0].cells;
    assert_eq!(first[0], "2");
    assert_eq!(first[1], "2023-11-14T22:13:20Z");
    assert_eq!(first[12], "4");
    assert_eq!(first[19], "134");
    assert_eq!(first[24], "loved");
    assert_eq!(first[32], "lazer");
    let local = &rows[4].cells;
    assert_eq!(local[12], "");
    assert_eq!(local[24], "unknown");
    assert_eq!(local[3], "");
}

#[test]
fn online_cells_only_for_cached_sets() {
    let sets = vec![set(42, "Synced", BeatmapStatus::Ranked, vec![diff(1, "X", Some(1.0))]), set(43, "Unsynced", BeatmapStatus::Ranked, vec![diff(2, "Y", Some(1.0))])];
    let online = vec![CsvOnline {
        set_id: 42,
        favourite_count: 1000,
        play_count: 97,
        rating: format!("{:.2}", 97.5f64),
        genre: Some("Games".into()),
        language: None,
        fetched_at: 1700000000,
    }];
    let rows = build_rows(&sets, &online, 1720000000);
    assert_eq!(rows[0].cells[25], "1000");
    assert_eq!(rows[0].cells[26], "97");
    assert_eq!(rows[0].cells[27], "97.50");
    assert_eq!(rows[0].cells[28], "Games");
    assert_eq!(rows[0].cells[29], "");
    assert_eq!(rows[0].cells[30], "2023-11-14T22:13:20Z");
    for i in 25..31 {
        assert_eq!(rows[1].cells[i], "", "unsynced cell {i} empty");
    }
}

#[test]
fn negative_durations_round_down_and_file_name() {
    let mut d = diff(1, "V", None);
    d.total_ms = -1;
    let rows = build_rows(&vec![set(9, "N", BeatmapStatus::Graveyard, vec![d])], &Vec::new(), 0);
    assert_eq!(rows[0].cells[19], "-1");
    assert_eq!(rows[0].cells[12], "-3");
    assert_eq!(rows[0].cells[13], "");
    assert_eq!(csv_file_name(1709214330), "osu-library-export-20240229-134530.csv");
}
