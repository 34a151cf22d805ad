use anime_dupe_finder::records::EpisodeNum;
use anime_dupe_finder::records::SeasonNum;
use anime_dupe_finder::scan::collect_media_files;
use anime_dupe_finder::scan::is_support_file;
use anime_dupe_finder::scan::scan_dirs;
use anime_dupe_finder::scan::sort_media_files;

#[test]
fn support_files_are_recognized_case_insensitively() {
    assert!(is_support_file(&String::from("d/Show - Ep1.srt")));
    assert!(is_support_file(&String::from("d/Show - Ep1.SRT")));
    assert!(is_support_file(&String::from("d/Show - Ep1.Flac")));
    assert!(is_support_file(&String::from("d/x.mka")));
    assert!(!is_support_file(&String::from("d/Show - Ep1.mkv")));
    assert!(!is_support_file(&String::from("d/Show - Ep1srt")));
    assert!(!is_support_file(&String::from("srt")));
}

#[test]
fn collecting_skips_support_files_and_non_matches() {
    let paths = vec![
        String::from("d/A - Ep2.mkv"),
        String::from("d/A - Ep1.srt"),
        String::from("d/notes.txt"),
        String::from("d/A - Ep1.mkv"),
    ];
    let records = collect_media_files(paths);
    assert_eq!(2, records.len());
    assert_eq!("d/A - Ep2.mkv", records[0].file_name);
    assert_eq!(EpisodeNum::Episode(2), records[0].episode);
    assert_eq!(SeasonNum::NoSeason, records[0].season);
    assert_eq!("d/A - Ep1.mkv", records[1].file_name);
}

#[test]
fn sorting_orders_records_by_path() {
    let paths = vec![
        String::from("d/B - Ep1.mkv"),
        String::from("d/A - Ep1.mkv"),
        String::from("d/C - Ep1.mkv"),
    ];
    let mut records = collect_media_files(paths);
    sort_media_files(&mut records);
    assert_eq!(3, records.len());
    assert_eq!("d/A - Ep1.mkv", records[0].file_name);
    assert_eq!("d/B - Ep1.mkv", records[1].file_name);
    assert_eq!("d/C - Ep1.mkv", records[2].file_name);
}

#[test]
fn queue_steps_in_sorted_order_without_duplicates() {
    let mut queue: Vec<String> = Vec::new();
    let first = scan_dirs(
        &mut queue,
        vec![String::from("b"), String::from("a"), String::from("b")],
    );
    assert_eq!(Some(String::from("a")), first);
    assert_eq!(vec![String::from("b")], queue);

    let second = scan_dirs(&mut queue, vec![String::from("a/sub")]);
    assert_eq!(Some(String::from("a/sub")), second);
    assert_eq!(vec![String::from("b")], queue);

    let third = scan_dirs(&mut queue, Vec::new());
    assert_eq!(Some(String::from("b")), third);
    assert!(queue.is_empty());

    let done = scan_dirs(&mut queue, Vec::new());
    assert_eq!(None, done);
}
