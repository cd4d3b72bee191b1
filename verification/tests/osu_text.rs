use osu_song_manager::osu_parser::parse_osu;

const SAMPLE: &str = "osu file format v14\n\
\n\
[General]\n\
AudioFilename: audio.mp3\n\
AudioLeadIn: 0\n\
Mode: 3\n\
\n\
[Metadata]\n\
Title:Sample Song\n\
TitleUnicode:サンプル曲\n\
Artist:Test Artist\n\
ArtistUnicode:テスト\n\
Creator: mapper_name\n\
Version:Another\n\
Source:Anime X\n\
Tags:tag1 tag2\n\
BeatmapID:111\n\
BeatmapSetID:2222\n\
\n\
[Difficulty]\n\
CircleSize:4\n\
OverallDifficulty:8\n\
ApproachRate:9\n\
HPDrainRate:6\n\
\n\
[Events]\n\
//Background and Video events\n\
0,0,\"bg image.jpg\",0,0\n\
//Break Periods\n\
\n\
[TimingPoints]\n\
1000,500,4,2,1,40,1,0\n\
3000,250,4,2,1,40,1,0\n\
3100,-100,4,2,1,40,0,0\n\
\n\
[HitObjects]\n\
256,192,1000,1,0\n\
256,192,2000,1,0\n\
256,192,4000,1,0\n";

#[test]
fn parses_metadata() {
    let m = parse_osu(SAMPLE);
    assert_eq!(m.audio_filename, "audio.mp3");
    assert_eq!(m.mode, 3);
    assert_eq!(m.title, "Sample Song");
    assert_eq!(m.title_unicode, "サンプル曲");
    assert_eq!(m.artist, "Test Artist");
    assert_eq!(m.creator, "mapper_name");
    assert_eq!(m.version, "Another");
    assert_eq!(m.beatmap_id, 111);
    assert_eq!(m.beatmapset_id, 2222);
    assert_eq!(m.cs.parse::<f32>().unwrap(), 4.0);
    assert_eq!(m.ar.parse::<f32>().unwrap(), 9.0);
    assert_eq!(m.od.parse::<f32>().unwrap(), 8.0);
    assert_eq!(m.hp.parse::<f32>().unwrap(), 6.0);
    assert_eq!(m.background.as_deref(), Some("bg image.jpg"));
    assert_eq!(m.object_count, 3);
}

#[test]
fn computes_bpm_and_duration() {
    let m = parse_osu(SAMPLE);
    assert_eq!(
        m.timing,
        vec![("1000".to_string(), "500".to_string()), ("3000".to_string(), "250".to_string())]
    );
    assert_eq!(m.total_ms, 4600);
    assert_eq!(m.source, "Anime X");
    assert_eq!(m.tags, "tag1 tag2");
    assert_eq!(m.artist_unicode, "テスト");
}

#[test]
fn handles_missing_sections_and_bom() {
    let content = "\u{feff}osu file format v4\n\n[Metadata]\nTitle:Old Map\nBeatmapSetID:0\n";
    let m = parse_osu(content);
    assert_eq!(m.title, "Old Map");
    assert_eq!(m.mode, 0);
    assert!(m.timing.is_empty());
    assert!(m.background.is_none());
    assert_eq!(m.total_ms, 600);
    assert_eq!(m.object_count, 0);
}

#[test]
fn ignores_inherited_points_in_bpm() {
    let content = "osu file format v14\n\n[TimingPoints]\n0,300,4,2,1,40,1,0\n5000,-200,4,2,1,40,0,0\n9000,300,4,2,1,40,1,0\n20000,300,4,2,1,40,1,0\n\n[HitObjects]\n256,192,25000,1,0\n";
    let m = parse_osu(content);
    assert_eq!(m.timing.len(), 3);
    assert!(m.timing.iter().all(|(_, b)| b == "300"));
    assert_eq!(m.total_ms, 25600);
}

#[test]
fn last_key_wins_and_bad_numbers_read_zero() {
    let content = "[General]\r\nMode: 9\r\nMode: x\r\n[Metadata]\r\nTitle:A\r\nTitle: B \r\nBeatmapID:-5\r\n[Difficulty]\r\nCircleSize:7.5\r\n";
    let m = parse_osu(content);
    assert_eq!(m.mode, 0);
    assert_eq!(m.title, "B");
    assert_eq!(m.beatmap_id, -5);
    assert_eq!(m.cs, "7.5");
    let m2 = parse_osu("[General]\nMode: 300\n");
    assert_eq!(m2.mode, 0);
}

#[test]
fn hit_object_times_take_the_latest() {
    let m = parse_osu("[HitObjects]\n1,2,700,1\n1,2,abc,1\n1,2\n1,2,300,1\n");
    assert_eq!(m.object_count, 4);
    assert_eq!(m.total_ms, 1300);
}
