use osu_song_manager::library::{bytes_md5, is_root_osu, local_set, slash_name};
use osu_song_manager::osu_parser::parse_osu;

#[test]
fn md5_of_known_bytes() {
    assert_eq!(bytes_md5(b""), "d41d8cd98f00b204e9800998ecf8427e");
    assert_eq!(bytes_md5(b"abc"), "900150983cd24fb0d6963f7d28e17f72");
}

#[test]
fn archive_names_and_root_difficulties() {
    assert_eq!(slash_name("a\\b\\c.osu"), "a/b/c.osu");
    assert!(is_root_osu("Map [Hard].OSU"));
    assert!(!is_root_osu("sub/Map [Hard].osu"));
    assert!(!is_root_osu("audio.mp3"));
}

#[test]
fn local_set_takes_first_difficulty_and_background() {
    let a = parse_osu("[General]\nAudioFilename: song.mp3\n[Metadata]\nTitle:T\nArtist:A\nBeatmapSetID:7\n");
    let b = parse_osu("[Events]\n0,0,\"Sub\\BG.JPG\",0,0\n");
    let metas = vec![a, b];
    let files = vec!["song.mp3".to_string(), "bg.jpg".to_string()];
    let s = local_set(&metas, &files, false).unwrap();
    assert_eq!(s.beatmapset_id, 7);
    assert_eq!(s.title, "T");
    assert_eq!(s.audio_filename.as_deref(), Some("song.mp3"));
    assert_eq!(s.background.as_deref(), Some("Sub\\BG.JPG"));
    assert_eq!(s.background_file, None);
    let entries = vec!["song.mp3".to_string(), "sub/bg.jpg".to_string()];
    let o = local_set(&metas, &entries, true).unwrap();
    assert_eq!(o.background_file, Some(1));
    assert!(local_set(&Vec::new(), &files, false).is_none());
}
