use osu_song_manager::manage::{
    duplicate_groups, fingerprint, lazer_guard, norm_key, pack_plan, path_refusal, split_ext, unique_name, PackItem, SetRecord,
};
use osu_song_manager::model::SourceKind;

fn rec(id: i64, title: &str, md5s: Vec<Option<&str>>, location: &str, added: Option<i64>) -> SetRecord {
    SetRecord {
        beatmapset_id: id,
        title: title.into(),
        title_unicode: title.into(),
        artist: "Ar".into(),
        artist_unicode: "Ar".into(),
        creator: "Cr".into(),
        md5s: md5s.into_iter().map(|m| m.map(str::to_string)).collect(),
        location: location.into(),
        source_kind: SourceKind::Stable,
        date_added: added,
    }
}

#[test]
fn duplicates_by_id_md5_and_identical_set() {
    let sets = vec![
        rec(55, "Hollow A", vec![Some("aaa"), Some("bbb")], "L1", Some(20)),
        rec(55, "Hollow B", vec![Some("ccc")], "L2", Some(10)),
        rec(0, "Local A", vec![Some("ddd"), Some("eee")], "L3", None),
        rec(0, "Local B", vec![Some("eee"), Some("ddd")], "L4", None),
        rec(7, "Other", vec![Some("aaa")], "L5", None),
    ];
    let groups = duplicate_groups(&sets, &|loc: &String| loc.len() as u64);
    let reasons: Vec<(String, usize)> = groups.iter().map(|g| (g.reason.clone(), g.members.len())).collect();
    assert!(reasons.contains(&("setOnlineId".to_string(), 2)), "{reasons:?}");
    assert!(reasons.iter().any(|(r, n)| r == "md5" && *n == 2));
    assert!(reasons.iter().any(|(r, n)| r == "identicalSet" && *n == 2));
    assert!(groups.iter().all(|g| g.members.len() >= 2));
    assert_eq!(fingerprint(&sets[3]), Some("ddd|eee".to_string()));
    assert_eq!(fingerprint(&rec(1, "x", vec![None], "", None)), None);
}

#[test]
fn lazer_guard_and_refusals() {
    let roots = vec!["C:\\Users\\me\\AppData\\Roaming\\osu".to_string()];
    assert_eq!(lazer_guard("c:\\users\\ME\\appdata\\roaming\\osu\\files\\a", &roots).as_deref(), Some("err.lazerReadOnly"));
    assert_eq!(lazer_guard("C:\\Users\\me\\AppData\\Roaming\\osu2", &roots), None);
    assert_eq!(norm_key("\\\\?\\C:\\Songs\\"), "c:\\songs");
    assert_eq!(path_refusal("D:\\Songs\\x", &roots, false, true).as_deref(), Some("err.pathMissing"));
    assert_eq!(path_refusal("D:\\Songs\\x", &roots, true, false).as_deref(), Some("err.badShape"));
    assert_eq!(path_refusal("D:\\Songs\\x", &roots, true, true), None);
}

#[test]
fn collision_names() {
    assert_eq!(split_ext("a.b.osz"), Some(("a.b".to_string(), "osz".to_string())));
    let taken = vec!["Move Me".to_string(), "Move Me (2)".to_string()];
    let (name, n) = unique_name("Move Me", false, &|s: &String| taken.contains(s));
    assert_eq!(name, "Move Me (3)");
    assert_eq!(n, 2);
    let (f, _) = unique_name("x.osz", true, &|s: &String| s == "x.osz");
    assert_eq!(f, "x (2).osz");
}

#[test]
fn pack_dedupes_entry_names() {
    let items = vec![
        PackItem { name: Some("Same Name".into()), size: 10 },
        PackItem { name: Some("Same Name".into()), size: 10 },
    ];
    let names = pack_plan(&items).unwrap();
    assert_eq!(names.len(), 2);
    assert_ne!(names[0], names[1]);
    let big = vec![PackItem { name: Some("a".into()), size: 3_000_000_000 }];
    assert!(pack_plan(&big).unwrap_err().starts_with("err.packTooBig|"));
}

#[test]
fn pack_numbers_repeated_names_apart() {
    let items = vec![
        PackItem { name: Some("a.osz".into()), size: 1 },
        PackItem { name: Some("a.osz".into()), size: 1 },
        PackItem { name: Some("a (2).osz".into()), size: 1 },
        PackItem { name: None, size: 1 },
    ];
    let names = pack_plan(&items).unwrap();
    assert_eq!(names, vec!["a.osz", "a (2).osz", "a (2) (2).osz", "archive"]);
}

fn osu_text(title: &str, set_id: i64, version: &str) -> String {
    format!(
        "osu file format v14\n\n[General]\nAudioFilename: audio.mp3\n\n[Metadata]\nTitle:{title}\nArtist:A\nCreator:C\nVersion:{version}\nBeatmapSetID:{set_id}\n\n[Difficulty]\nCircleSize:4\n\n[TimingPoints]\n0,500,4,2,1,40,1,0\n\n[HitObjects]\n256,192,1000,1,0\n"
    )
}

fn scanned(folder: &str, title: &str, set_id: i64, diffs: &[&str]) -> SetRecord {
    SetRecord {
        beatmapset_id: set_id,
        title: title.into(),
        title_unicode: String::new(),
        artist: "A".into(),
        artist_unicode: String::new(),
        creator: "C".into(),
        md5s: diffs
            .iter()
            .map(|v| Some(osu_song_manager::library::bytes_md5(osu_text(title, set_id, v).as_bytes())))
            .collect(),
        location: format!("Songs/{folder}"),
        source_kind: SourceKind::Stable,
        date_added: None,
    }
}

#[test]
fn duplicates_group_all_three_reasons() {
    let sets = vec![
        scanned("Hollow A", "Hollow", 55, &["Easy", "Hard"]),
        scanned("Hollow B", "Hollow", 55, &["Easy", "Hard"]),
        scanned("Other", "Other", 9, &["Normal"]),
        scanned("Local A", "Local", -1, &["Extra"]),
        scanned("Local B", "Local", -1, &["Extra"]),
    ];
    assert_eq!(sets.len(), 5);
    let groups = duplicate_groups(&sets, &|_: &String| 128);

    let online = groups.iter().find(|g| g.reason == "setOnlineId" && g.label.contains("55"));
    assert!(online.is_some(), "{groups:?}");
    assert_eq!(online.unwrap().members.len(), 2);
    assert!(online.unwrap().members.iter().all(|m| m.size_bytes == 128));

    let md5_groups: Vec<_> = groups.iter().filter(|g| g.reason == "md5").collect();
    assert!(!md5_groups.is_empty());
    assert!(md5_groups.iter().all(|g| g.members.len() >= 2));

    let ident = groups.iter().find(|g| g.reason == "identicalSet");
    assert!(ident.is_some());
    assert_eq!(ident.unwrap().members.len(), 2);

    for w in groups.windows(2) {
        assert!(
            w[0].members.len() > w[1].members.len()
                || (w[0].members.len() == w[1].members.len() && w[0].label <= w[1].label)
        );
    }
}
