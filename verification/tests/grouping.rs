use check_file_dups::{calculate_file_hash, find_duplicates, DuplicateGroup, FileInfo};

fn file(path: &str, size: u64, hash: &str) -> FileInfo {
    FileInfo { path: path.to_string(), size, hash: hash.to_string() }
}

fn paths(group: &DuplicateGroup) -> Vec<String> {
    group.members.iter().map(|member| member.path.clone()).collect()
}

#[test]
fn two_equal_files_and_one_other() {
    let hello = calculate_file_hash(b"hello");
    let world = calculate_file_hash(b"world");
    let found = find_duplicates(vec![
        file("/root/a.txt", 5, &hello),
        file("/root/b.txt", 5, &hello),
        file("/root/c.txt", 5, &world),
    ]);
    assert_eq!(found.groups.len(), 1);
    assert!(found.anomalies.is_empty());
    let group = &found.groups[0];
    assert_eq!(group.hash, hello);
    assert_eq!(group.size, 5);
    assert_eq!(paths(group), vec!["/root/a.txt", "/root/b.txt"]);
    assert_eq!(group.wasted_space(), 5);
}

#[test]
fn no_files_no_groups() {
    let found = find_duplicates(Vec::new());
    assert!(found.groups.is_empty());
    assert!(found.anomalies.is_empty());
}

#[test]
fn files_that_all_differ_give_no_group() {
    let found = find_duplicates(vec![file("a", 1, "h1"), file("b", 1, "h2"), file("c", 1, "h3")]);
    assert!(found.groups.is_empty());
    assert!(found.anomalies.is_empty());
}

#[test]
fn a_single_file_gives_no_group() {
    let found = find_duplicates(vec![file("a", 1, "h1")]);
    assert!(found.groups.is_empty());
    assert!(found.anomalies.is_empty());
}

#[test]
fn members_keep_the_order_in_which_they_came() {
    let found = find_duplicates(vec![
        file("z", 3, "h"),
        file("x", 9, "other"),
        file("a", 3, "h"),
        file("m", 3, "h"),
    ]);
    assert_eq!(found.groups.len(), 1);
    assert_eq!(paths(&found.groups[0]), vec!["z", "a", "m"]);
    assert_eq!(found.groups[0].wasted_space(), 6);
}

#[test]
fn groups_come_by_wasted_space_largest_first() {
    let found = find_duplicates(vec![
        file("s1", 10, "small"),
        file("b1", 1000, "big"),
        file("m1", 100, "many"),
        file("s2", 10, "small"),
        file("m2", 100, "many"),
        file("b2", 1000, "big"),
        file("m3", 100, "many"),
        file("m4", 100, "many"),
    ]);
    let hashes: Vec<&str> = found.groups.iter().map(|group| group.hash.as_str()).collect();
    assert_eq!(hashes, vec!["big", "many", "small"]);
    let wasted: Vec<u128> = found.groups.iter().map(|group| group.wasted_space()).collect();
    assert_eq!(wasted, vec![1000, 300, 10]);
}

#[test]
fn groups_that_waste_the_same_come_in_the_order_of_their_first_file() {
    let found = find_duplicates(vec![
        file("c1", 50, "c"),
        file("a1", 50, "a"),
        file("b1", 25, "b"),
        file("a2", 50, "a"),
        file("b2", 25, "b"),
        file("c2", 50, "c"),
        file("b3", 25, "b"),
    ]);
    let hashes: Vec<&str> = found.groups.iter().map(|group| group.hash.as_str()).collect();
    assert_eq!(hashes, vec!["c", "a", "b"]);
}

#[test]
fn empty_files_are_duplicates_that_waste_nothing() {
    let found = find_duplicates(vec![file("a", 0, "e"), file("b", 7, "x"), file("c", 0, "e"), file("d", 7, "x")]);
    assert_eq!(found.groups.len(), 2);
    assert_eq!(found.groups[0].hash, "x");
    assert_eq!(found.groups[0].wasted_space(), 7);
    assert_eq!(found.groups[1].hash, "e");
    assert_eq!(found.groups[1].wasted_space(), 0);
}

#[test]
fn equal_hash_with_different_lengths_is_an_anomaly() {
    let found = find_duplicates(vec![
        file("a", 5, "collided"),
        file("b", 6, "collided"),
        file("c", 9, "fine"),
        file("d", 9, "fine"),
    ]);
    assert_eq!(found.groups.len(), 1);
    assert_eq!(found.groups[0].hash, "fine");
    assert_eq!(found.anomalies.len(), 1);
    assert_eq!(found.anomalies[0].hash, "collided");
    assert_eq!(paths(&found.anomalies[0]), vec!["a", "b"]);
}

#[test]
fn one_member_of_another_length_makes_the_whole_group_an_anomaly() {
    let found = find_duplicates(vec![file("a", 5, "h"), file("b", 5, "h"), file("c", 4, "h")]);
    assert!(found.groups.is_empty());
    assert_eq!(found.anomalies.len(), 1);
    assert_eq!(found.anomalies[0].members.len(), 3);
}

#[test]
fn anomalies_come_in_the_order_of_their_first_file() {
    let found = find_duplicates(vec![
        file("a", 1, "y"),
        file("b", 1, "x"),
        file("c", 2, "x"),
        file("d", 2, "y"),
    ]);
    let hashes: Vec<&str> = found.anomalies.iter().map(|group| group.hash.as_str()).collect();
    assert_eq!(hashes, vec!["y", "x"]);
}

#[test]
fn every_emitted_group_has_members_of_one_length() {
    let found = find_duplicates(vec![
        file("a", 5, "p"),
        file("b", 5, "p"),
        file("c", 8, "q"),
        file("d", 8, "q"),
        file("e", 8, "q"),
        file("f", 1, "r"),
        file("g", 2, "r"),
    ]);
    assert_eq!(found.groups.len(), 2);
    for group in &found.groups {
        assert!(group.members.len() >= 2);
        assert!(group.has_one_length());
        for member in &group.members {
            assert_eq!(member.size, group.size);
            assert_eq!(member.hash, group.hash);
        }
    }
    for group in &found.anomalies {
        assert!(!group.has_one_length());
    }
}

#[test]
fn the_same_files_in_another_order_give_the_same_sets() {
    let files = vec![
        file("a", 5, "p"),
        file("b", 8, "q"),
        file("c", 5, "p"),
        file("d", 8, "q"),
        file("e", 8, "q"),
        file("f", 1, "r"),
        file("g", 2, "s"),
        file("h", 3, "s"),
    ];
    let mut reversed = files.clone();
    reversed.reverse();
    let mut rotated = files.clone();
    rotated.rotate_left(3);

    let summary = |files: Vec<FileInfo>| {
        let found = find_duplicates(files);
        let mut groups: Vec<(String, Vec<String>, u64, u128)> = found
            .groups
            .iter()
            .map(|group| {
                let mut members = paths(group);
                members.sort();
                (group.hash.clone(), members, group.size, group.wasted_space())
            })
            .collect();
        groups.sort();
        let mut anomalies: Vec<(String, Vec<String>)> = found
            .anomalies
            .iter()
            .map(|group| {
                let mut members = paths(group);
                members.sort();
                (group.hash.clone(), members)
            })
            .collect();
        anomalies.sort();
        (groups, anomalies)
    };

    let expected = summary(files);
    assert_eq!(expected.0.len(), 2);
    assert_eq!(expected.1.len(), 1);
    assert_eq!(summary(reversed), expected);
    assert_eq!(summary(rotated), expected);
}

#[test]
fn wasted_space_is_members_less_one_times_size() {
    let group = DuplicateGroup {
        hash: "h".to_string(),
        members: vec![file("a", 7, "h"), file("b", 7, "h"), file("c", 7, "h"), file("d", 7, "h")],
        size: 7,
    };
    assert_eq!(group.wasted_space(), 21);
}

#[test]
fn wasted_space_does_not_overflow() {
    let group = DuplicateGroup {
        hash: "h".to_string(),
        members: vec![file("a", u64::MAX, "h"), file("b", u64::MAX, "h"), file("c", u64::MAX, "h")],
        size: u64::MAX,
    };
    assert_eq!(group.wasted_space(), 2 * (u64::MAX as u128));
}

#[test]
fn wasted_space_of_a_group_without_members_is_nothing() {
    let group = DuplicateGroup { hash: "h".to_string(), members: Vec::new(), size: 7 };
    assert_eq!(group.wasted_space(), 0);
    assert!(group.has_one_length());
}
