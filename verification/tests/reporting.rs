use check_file_dups::report::{display_path, summarize};
use check_file_dups::{calculate_file_hash, find_duplicates, print_results, FileInfo};

fn file(path: &str, size: u64, hash: &str) -> FileInfo {
    FileInfo { path: path.to_string(), size, hash: hash.to_string() }
}

#[test]
fn nothing_found_is_said_in_one_line() {
    let found = find_duplicates(Vec::new());
    assert_eq!(print_results(&found, "/root"), vec!["No duplicate files found!"]);
}

#[test]
fn files_without_duplicates_give_the_same_line() {
    let found = find_duplicates(vec![file("/root/a", 5, "x"), file("/root/b", 5, "y")]);
    assert_eq!(print_results(&found, "/root"), vec!["No duplicate files found!"]);
}

#[test]
fn report_of_two_equal_files_and_one_other() {
    let hello = calculate_file_hash(b"hello");
    let world = calculate_file_hash(b"world");
    let found = find_duplicates(vec![
        file("/root/a.txt", 5, &hello),
        file("/root/b.txt", 5, &hello),
        file("/root/c.txt", 5, &world),
    ]);
    let lines = print_results(&found, "/root");
    assert_eq!(
        lines,
        vec![
            "Found 1 duplicate files wasting 5 B of space",
            "Duplicate group (5 B, 2 files):",
            "  a.txt",
            "  b.txt",
        ]
    );
    assert!(!lines.contains(&"No duplicate files found!".to_string()));
}

#[test]
fn report_lists_the_sets_in_their_order() {
    let found = find_duplicates(vec![
        file("/data/s1", 10, "small"),
        file("/data/deep/b1", 2048, "big"),
        file("/data/s2", 10, "small"),
        file("/elsewhere/b2", 2048, "big"),
        file("/data/s3", 10, "small"),
    ]);
    assert_eq!(
        print_results(&found, "/data"),
        vec![
            "Found 3 duplicate files wasting 2.02 KiB of space",
            "Duplicate group (2.00 KiB, 2 files):",
            "  deep/b1",
            "  /elsewhere/b2",
            "Duplicate group (10 B, 3 files):",
            "  s1",
            "  s2",
            "  s3",
        ]
    );
}

#[test]
fn report_sets_collisions_apart() {
    let found = find_duplicates(vec![file("/data/a", 5, "abc"), file("/data/b", 6, "abc")]);
    assert_eq!(
        print_results(&found, "/data"),
        vec![
            "No duplicate files found!",
            "Fingerprint collision (abc, 2 files of different lengths):",
            "  a",
            "  b",
        ]
    );
}

#[test]
fn report_has_collisions_after_the_sets() {
    let found = find_duplicates(vec![
        file("/data/a", 5, "abc"),
        file("/data/x", 1500, "fine"),
        file("/data/b", 6, "abc"),
        file("/data/y", 1500, "fine"),
    ]);
    assert_eq!(
        print_results(&found, "/data"),
        vec![
            "Found 1 duplicate files wasting 1.46 KiB of space",
            "Duplicate group (1.46 KiB, 2 files):",
            "  x",
            "  y",
            "Fingerprint collision (abc, 2 files of different lengths):",
            "  a",
            "  b",
        ]
    );
}

#[test]
fn large_counts_have_separators() {
    let mut files = Vec::new();
    for i in 0..1235 {
        files.push(file(&format!("/data/f{}", i), 1, "h"));
    }
    let lines = print_results(&find_duplicates(files), "/data");
    assert_eq!(lines[0], "Found 1,234 duplicate files wasting 1.21 KiB of space");
    assert_eq!(lines[1], "Duplicate group (1 B, 1235 files):");
    assert_eq!(lines.len(), 2 + 1235);
}

#[test]
fn summary_adds_up_the_sets() {
    let found = find_duplicates(vec![
        file("a", 10, "p"),
        file("b", 10, "p"),
        file("c", 10, "p"),
        file("d", 7, "q"),
        file("e", 7, "q"),
        file("f", 1, "collided"),
        file("g", 2, "collided"),
        file("h", 99, "alone"),
    ]);
    let summary = summarize(&found);
    assert_eq!(summary.duplicate_files, 3);
    assert_eq!(summary.wasted_bytes, 27);
}

#[test]
fn summary_of_nothing_is_zero() {
    let summary = summarize(&find_duplicates(Vec::new()));
    assert_eq!((summary.duplicate_files, summary.wasted_bytes), (0, 0));
}

#[test]
fn summary_stops_at_the_largest_value() {
    let found = find_duplicates(vec![
        file("a", u64::MAX, "p"),
        file("b", u64::MAX, "p"),
        file("c", u64::MAX, "p"),
    ]);
    let summary = summarize(&found);
    assert_eq!(summary.duplicate_files, 2);
    assert_eq!(summary.wasted_bytes, u64::MAX);
}

#[test]
fn paths_are_shown_relative_to_the_base() {
    assert_eq!(display_path("/data/a/b.txt", "/data"), "a/b.txt");
    assert_eq!(display_path("/data/a/b.txt", "/data/a"), "b.txt");
    assert_eq!(display_path("/other/b.txt", "/data"), "/other/b.txt");
    assert_eq!(display_path("./x.txt", "."), "x.txt");
}
