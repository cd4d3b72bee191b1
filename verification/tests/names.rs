use osu_song_manager::convert::output_base_name;
use osu_song_manager::export_csv::datetime_parts;
use osu_song_manager::thumbs::sanitize_filename;

#[test]
fn base_name_conventions() {
    assert_eq!(output_base_name(387700, "Artist", "Title"), "387700 Artist - Title");
    assert_eq!(output_base_name(1, "", "Only Title"), "1 Only Title");
    assert_eq!(output_base_name(2, "Only Artist", ""), "2 Only Artist");
    assert_eq!(output_base_name(3, "a:b<c>", "d?e"), "3 a_b_c_ - d_e");
    assert_eq!(output_base_name(-1, "", ""), "untitled");
}

#[test]
fn sanitizer_windows_cases() {
    assert_eq!(sanitize_filename("a:b/c?*"), "a_b_c__");
    assert_eq!(sanitize_filename("trailing..."), "trailing");
    assert_eq!(sanitize_filename("  spaced  "), "spaced");
    assert_eq!(sanitize_filename(""), "untitled");
    assert_eq!(sanitize_filename("..."), "untitled");
    assert_eq!(sanitize_filename("ok name [x]"), "ok name [x]");
}

#[test]
fn datetime_parts_known_epochs_incl_leap_rules() {
    assert_eq!(datetime_parts(0), (1970, 1, 1, 0, 0, 0), "unix 0 = epoch");
    assert_eq!(datetime_parts(951_825_600), (2000, 2, 29, 12, 0, 0));
    assert_eq!(datetime_parts(1_709_214_330), (2024, 2, 29, 13, 45, 30));
    assert_eq!(datetime_parts(4_107_542_400), (2100, 3, 1, 0, 0, 0));
    assert_eq!(datetime_parts(-2_208_988_800), (1900, 1, 1, 0, 0, 0));
}
