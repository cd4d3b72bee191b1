use osu_song_manager::realm_db::{collect_set_files, decode_short_string, is_audio_magic, read_columns, scan_lazer, sign_extend_i32, sign_extend_i8};

fn no_probe(_h: &str) -> Option<(Vec<u8>, String)> {
    None
}

fn no_osu(_p: &String) -> i64 {
    0
}

#[test]
fn missing_tables_are_reported() {
    let data = vec![0u8; 64];
    assert_eq!(read_columns(&data).err().unwrap(), "err.realmMissingTable|class_Beatmap");
    let mut steps: Vec<(u32, u32)> = Vec::new();
    let r = scan_lazer(&data, &no_probe, &no_osu, &|_a: u32, _b: u32| {}, &mut steps);
    assert_eq!(r.err().unwrap(), "err.realmMissingTable|class_Beatmap");
    assert_eq!(steps, vec![(1, 10)]);
    let c = collect_set_files(&data, None, &no_probe, &no_osu);
    assert_eq!(c.err().unwrap(), "err.realmMissingTable|class_BeatmapSet");
}

#[test]
fn column_values_and_magic() {
    assert_eq!(sign_extend_i8(253), -3);
    assert_eq!(sign_extend_i32(4294967295), -1);
    assert_eq!(sign_extend_i32(158023), 158023);
    assert!(is_audio_magic(b"ID3\x04"));
    assert!(is_audio_magic(b"OggS"));
    assert!(!is_audio_magic(b"\x89PNG"));
    assert_eq!(decode_short_string(b"osu\0"), "osu");
}
