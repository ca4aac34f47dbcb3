use pixort::date::{date_from_metadata, date_from_modified, date_from_utc, resolve_date, resolve_file_date, UtcTime};
use pixort::month::month_to_string;
use pixort::target::{find_unused_target_file_path, is_executable_name, normalize_extension, target_directory_path};

const DIR_2020_05: &str = "C:\\Photos\\Jannik 2020\\Jannik 051 Mai 2020\\";

fn moved_to(p: Option<String>) -> String {
    match p {
        Some(s) => s,
        None => panic!("expected a move, found the file in place"),
    }
}

fn tiff_with_capture_time() -> Vec<u8> {
    vec![
        73, 73, 42, 0, 8, 0, 0, 0, 1, 0, 105, 135, 4, 0, 1, 0, 0, 0, 26, 0, 0, 0, 0, 0, 0, 0, 1, 0,
        3, 144, 2, 0, 20, 0, 0, 0, 44, 0, 0, 0, 0, 0, 0, 0, 50, 48, 50, 48, 58, 48, 53, 58, 49, 52,
        32, 49, 48, 58, 50, 50, 58, 48, 51, 0,
    ]
}

#[test]
fn month_labels_are_german() {
    let expected = [
        "Jänner", "Februar", "März", "April", "Mai", "Juni", "Juli", "August", "September",
        "Oktober", "November", "Dezember",
    ];
    for (i, label) in expected.iter().enumerate() {
        assert_eq!(month_to_string(i as u32 + 1), *label);
    }
}

#[test]
fn month_label_out_of_range_is_decimal() {
    assert_eq!(month_to_string(0), "0");
    assert_eq!(month_to_string(13), "13");
    assert_eq!(month_to_string(4294967295), "4294967295");
}

#[test]
fn jpeg_in_any_case_becomes_jpg() {
    assert_eq!(normalize_extension("JPEG"), ".jpg");
    assert_eq!(normalize_extension("jpeg"), ".jpg");
    assert_eq!(normalize_extension("JpEg"), ".jpg");
}

#[test]
fn other_extensions_keep_their_text() {
    assert_eq!(normalize_extension("png"), ".png");
    assert_eq!(normalize_extension("JPG"), ".JPG");
    assert_eq!(normalize_extension("jpegx"), ".jpegx");
}

#[test]
fn no_extension_gives_no_trailing_dot() {
    assert_eq!(normalize_extension(""), "");
    let p = find_unused_target_file_path("C:\\in\\a", "C:\\Photos", 2020, 5, "2020-05-14 10-22-03", "", &vec![]);
    assert_eq!(moved_to(p), format!("{DIR_2020_05}2020-05-14 10-22-03-000"));
}

#[test]
fn metadata_timestamp_gives_year_month_and_display() {
    let d = date_from_metadata("2020:05:14 10:22:03");
    assert_eq!(d.year, 2020);
    assert_eq!(d.month, 5);
    assert_eq!(d.display, "2020-05-14 10-22-03");
}

#[test]
fn malformed_metadata_defaults_to_zero() {
    let d = date_from_metadata("abcd:xy:14 10:22:03");
    assert_eq!(d.year, 0);
    assert_eq!(d.month, 0);
    assert_eq!(d.display, "abcd-xy-14 10-22-03");
    let short = date_from_metadata("20");
    assert_eq!(short.year, 0);
    assert_eq!(short.month, 0);
    assert_eq!(short.display, "20");
}

#[test]
fn signed_metadata_year_parses() {
    let d = date_from_metadata("+999:+1:01 00:00:00");
    assert_eq!(d.year, 999);
    assert_eq!(d.month, 1);
    let n = date_from_metadata("-123:12:01 00:00:00");
    assert_eq!(n.year, -123);
    assert_eq!(n.month, 12);
}

#[test]
fn utc_fields_are_formatted_with_padding() {
    let t = UtcTime { year: 2020, month: 5, day: 4, hour: 3, minute: 2, second: 1 };
    let d = date_from_utc(t);
    assert_eq!(d.year, 2020);
    assert_eq!(d.month, 5);
    assert_eq!(d.display, "2020-05-04 03-02-01");
    let early = date_from_utc(UtcTime { year: 33, month: 12, day: 31, hour: 23, minute: 59, second: 59 });
    assert_eq!(early.display, "0033-12-31 23-59-59");
    let late = date_from_utc(UtcTime { year: 12345, month: 1, day: 1, hour: 0, minute: 0, second: 0 });
    assert_eq!(late.display, "+12345-01-01 00-00-00");
    let bc = date_from_utc(UtcTime { year: -7, month: 1, day: 1, hour: 0, minute: 0, second: 0 });
    assert_eq!(bc.display, "-0007-01-01 00-00-00");
}

#[test]
fn modification_time_is_read_in_utc() {
    let d = date_from_modified(1589451723).unwrap();
    assert_eq!(d.year, 2020);
    assert_eq!(d.month, 5);
    assert_eq!(d.display, "2020-05-14 10-22-03");
    let epoch = date_from_modified(0).unwrap();
    assert_eq!(epoch.display, "1970-01-01 00-00-00");
    let before = date_from_modified(-1).unwrap();
    assert_eq!(before.year, 1969);
    assert_eq!(before.month, 12);
    assert_eq!(before.display, "1969-12-31 23-59-59");
}

#[test]
fn unrepresentable_modification_time_gives_nothing() {
    assert!(date_from_modified(i64::MAX).is_none());
}

#[test]
fn metadata_wins_over_modification_time() {
    let d = resolve_date(Some("2020:05:14 10:22:03"), Some(0)).unwrap();
    assert_eq!(d.year, 2020);
    assert_eq!(d.month, 5);
    assert_eq!(d.display, "2020-05-14 10-22-03");
    let same = resolve_date(Some("2020:05:14 10:22:03"), None).unwrap();
    assert_eq!(same.display, "2020-05-14 10-22-03");
}

#[test]
fn missing_metadata_falls_back_to_modification_time() {
    let d = resolve_date(None, Some(1589451723)).unwrap();
    assert_eq!(d.year, 2020);
    assert_eq!(d.month, 5);
    assert_eq!(d.display, "2020-05-14 10-22-03");
}

#[test]
fn no_metadata_and_no_modification_time_is_unsortable() {
    assert!(resolve_date(None, None).is_none());
}

#[test]
fn exif_capture_time_is_read_from_contents() {
    let d = resolve_file_date(&tiff_with_capture_time(), Some(0)).unwrap();
    assert_eq!(d.year, 2020);
    assert_eq!(d.month, 5);
    assert_eq!(d.display, "2020-05-14 10-22-03");
}

#[test]
fn contents_without_exif_use_modification_time() {
    let d = resolve_file_date(&vec![1, 2, 3, 4, 5], Some(0)).unwrap();
    assert_eq!(d.year, 1970);
    assert_eq!(d.month, 1);
    assert_eq!(d.display, "1970-01-01 00-00-00");
    assert!(resolve_file_date(&vec![], None).is_none());
}

#[test]
fn target_directory_layout() {
    assert_eq!(target_directory_path("C:\\Photos", 2020, 5), DIR_2020_05);
    assert_eq!(target_directory_path("C:\\Photos", 2016, 2), "C:\\Photos\\Jannik 2016\\Jannik 000 Februar 2016\\");
    assert_eq!(target_directory_path("C:\\Photos", 2016, 1), "C:\\Photos\\Jannik 2016\\Jannik -01 Jänner 2016\\");
    assert_eq!(target_directory_path("x", 2099, 12), "x\\Jannik 2099\\Jannik 1006 Dezember 2099\\");
}

#[test]
fn current_directory_prefix_is_stripped() {
    assert_eq!(target_directory_path(".", 2020, 5), "Jannik 2020\\Jannik 051 Mai 2020\\");
    assert_eq!(target_directory_path(".\\pics", 2020, 5), "pics\\Jannik 2020\\Jannik 051 Mai 2020\\");
}

#[test]
fn malformed_date_gives_garbage_directory() {
    assert_eq!(target_directory_path("b", 0, 0), "b\\Jannik 0\\Jannik -24194 0 0\\");
}

#[test]
fn end_to_end_example() {
    let d = date_from_metadata("2020:05:14 10:22:03");
    let ext = normalize_extension("jpg");
    let p = find_unused_target_file_path("C:\\Photos\\IMG_0001.jpg", "C:\\Photos", d.year, d.month, &d.display, &ext, &vec![]);
    assert_eq!(moved_to(p), "C:\\Photos\\Jannik 2020\\Jannik 051 Mai 2020\\2020-05-14 10-22-03-000.jpg");
}

#[test]
fn collisions_take_the_smallest_free_suffix() {
    let taken = vec![
        String::from("2020-05-14 10-22-03-000.jpg"),
        String::from("2020-05-14 10-22-03-001.jpg"),
        String::from("2020-05-14 10-22-03-003.jpg"),
        String::from("other.jpg"),
    ];
    let p = find_unused_target_file_path("C:\\in\\x.jpg", "C:\\Photos", 2020, 5, "2020-05-14 10-22-03", ".jpg", &taken);
    assert_eq!(moved_to(p), format!("{DIR_2020_05}2020-05-14 10-22-03-002.jpg"));
}

#[test]
fn collisions_fill_suffixes_in_order() {
    let mut taken: Vec<String> = Vec::new();
    for i in 0..5 {
        let p = find_unused_target_file_path("C:\\in\\x.jpg", "C:\\Photos", 2020, 5, "2020-05-14 10-22-03", ".jpg", &taken);
        let path = moved_to(p);
        assert_eq!(path, format!("{DIR_2020_05}2020-05-14 10-22-03-{i:03}.jpg"));
        taken.push(path[DIR_2020_05.len()..].to_string());
    }
    assert_eq!(taken.len(), 5);
}

#[test]
fn a_different_extension_does_not_collide() {
    let taken = vec![String::from("2020-05-14 10-22-03-000.jpg")];
    let p = find_unused_target_file_path("C:\\in\\x.png", "C:\\Photos", 2020, 5, "2020-05-14 10-22-03", ".png", &taken);
    assert_eq!(moved_to(p), format!("{DIR_2020_05}2020-05-14 10-22-03-000.png"));
}

#[test]
fn a_placed_file_stays_in_place() {
    let taken = vec![
        String::from("2020-05-14 10-22-03-000.jpg"),
        String::from("2020-05-14 10-22-03-001.jpg"),
    ];
    let source = format!("{DIR_2020_05}2020-05-14 10-22-03-001.jpg");
    let p = find_unused_target_file_path(&source, "C:\\Photos", 2020, 5, "2020-05-14 10-22-03", ".jpg", &taken);
    assert!(p.is_none());
}

#[test]
fn second_run_moves_nothing() {
    let mut taken: Vec<String> = Vec::new();
    let first = moved_to(find_unused_target_file_path("C:\\in\\x.jpg", "C:\\Photos", 2020, 5, "2020-05-14 10-22-03", ".jpg", &taken));
    taken.push(first[DIR_2020_05.len()..].to_string());
    let again = find_unused_target_file_path(&first, "C:\\Photos", 2020, 5, "2020-05-14 10-22-03", ".jpg", &taken);
    assert!(again.is_none());
}

#[test]
fn either_slash_names_the_same_file() {
    let taken = vec![String::from("2020-05-14 10-22-03-000.jpg")];
    let p = find_unused_target_file_path(
        "C:/Photos/Jannik 2020/Jannik 051 Mai 2020/2020-05-14 10-22-03-000.jpg",
        "C:\\Photos", 2020, 5, "2020-05-14 10-22-03", ".jpg", &taken);
    assert!(p.is_none());
}

#[test]
fn relative_target_for_current_directory() {
    let p = find_unused_target_file_path(".\\IMG_0001.jpg", ".", 2020, 5, "2020-05-14 10-22-03", ".jpg", &vec![]);
    assert_eq!(moved_to(p), "Jannik 2020\\Jannik 051 Mai 2020\\2020-05-14 10-22-03-000.jpg");
}

#[test]
fn timestamps_within_the_calendar_range_always_resolve() {
    let late = date_from_modified(8_000_000_000_000).unwrap();
    assert!(late.year > 255000);
    let early = date_from_modified(-8_000_000_000_000).unwrap();
    assert!(early.year < -251000);
    assert!(resolve_date(None, Some(8_000_000_000_000)).is_some());
    assert!(resolve_file_date(&vec![0, 1], Some(-8_000_000_000_000)).is_some());
}

#[test]
fn trailing_separator_on_base_gives_no_doubled_separator() {
    assert_eq!(target_directory_path("C:\\Photos\\", 2020, 5), DIR_2020_05);
    assert_eq!(target_directory_path("C:/Photos//", 2020, 5), "C:/Photos/Jannik 2020\\Jannik 051 Mai 2020\\");
    assert_eq!(target_directory_path("\\\\server\\share", 2020, 5), "\\\\server\\share\\Jannik 2020\\Jannik 051 Mai 2020\\");
}

#[test]
fn file_in_place_under_base_with_trailing_separator_stays() {
    let taken = vec![String::from("2020-05-14 10-22-03-000.jpg")];
    let source = format!("{DIR_2020_05}2020-05-14 10-22-03-000.jpg");
    let p = find_unused_target_file_path(&source, "C:\\Photos\\", 2020, 5, "2020-05-14 10-22-03", ".jpg", &taken);
    assert!(p.is_none());
}

#[test]
fn a_name_taken_in_another_case_is_skipped() {
    let taken = vec![String::from("2020-05-14 10-22-03-000.JPG")];
    let p = find_unused_target_file_path("C:\\in\\x.jpg", "C:\\Photos", 2020, 5, "2020-05-14 10-22-03", ".jpg", &taken);
    assert_eq!(moved_to(p), format!("{DIR_2020_05}2020-05-14 10-22-03-001.jpg"));
}

#[test]
fn upper_case_jpeg_source_lands_as_jpg() {
    let ext = normalize_extension("JPEG");
    let p = find_unused_target_file_path("C:\\Photos\\photo.JPEG", "C:\\Photos", 2020, 5, "2020-05-14 10-22-03", &ext, &vec![]);
    assert_eq!(moved_to(p), "C:\\Photos\\Jannik 2020\\Jannik 051 Mai 2020\\2020-05-14 10-22-03-000.jpg");
}

#[test]
fn executable_name_matches_in_any_case() {
    assert!(is_executable_name("pixort.exe"));
    assert!(is_executable_name("PiXoRt.EXE"));
    assert!(!is_executable_name("pixort.ex"));
    assert!(!is_executable_name("photo.jpg"));
}
