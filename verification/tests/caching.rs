use check_file_dups::cache::{key_for, normalize_key, SaveError};
use check_file_dups::HashCache;

fn record(key: &str, mtime: u64, size: u64, hash: &str) -> (String, u64, u64, String) {
    (key.to_string(), mtime, size, hash.to_string())
}

#[test]
fn key_has_forward_slashes_and_none_in_front() {
    assert_eq!(normalize_key("a\\b\\c.txt"), "a/b/c.txt");
    assert_eq!(normalize_key("/a/b"), "a/b");
    assert_eq!(normalize_key("///a//b/"), "a//b/");
    assert_eq!(normalize_key("\\\\server\\share"), "server/share");
    assert_eq!(normalize_key("plain.txt"), "plain.txt");
    assert_eq!(normalize_key(""), "");
    assert_eq!(normalize_key("///"), "");
    assert_eq!(normalize_key("a/\\/b"), "a///b");
}

#[test]
fn key_is_relative_to_the_base() {
    assert_eq!(key_for("/data/photos/a.jpg", "/data"), "photos/a.jpg");
    assert_eq!(key_for("/data/photos/a.jpg", "/data/"), "photos/a.jpg");
    assert_eq!(key_for("./a.txt", "."), "a.txt");
    assert_eq!(key_for("dir/sub/file", "dir"), "sub/file");
}

#[test]
fn key_of_a_path_outside_the_base_is_the_whole_path() {
    assert_eq!(key_for("/other/a.jpg", "/data"), "other/a.jpg");
    assert_eq!(key_for("/database/a.jpg", "/data"), "database/a.jpg");
    assert_eq!(key_for("a.txt", "/data"), "a.txt");
}

#[test]
fn empty_cache_has_no_hash() {
    let cache = HashCache::new(None);
    assert_eq!(cache.len(), 0);
    assert_eq!(cache.get_hash("/data/a.txt", "/data", 1, 2), None);
}

#[test]
fn recorded_hash_is_found_again() {
    let mut cache = HashCache::new(None);
    cache.set_hash("/data/a.txt", "/data", 1_700_000_000, 5, "abc".to_string());
    assert_eq!(
        cache.get_hash("/data/a.txt", "/data", 1_700_000_000, 5),
        Some("abc".to_string())
    );
    assert_eq!(cache.len(), 1);
}

#[test]
fn changed_mtime_invalidates() {
    let mut cache = HashCache::new(None);
    cache.set_hash("/data/a.txt", "/data", 100, 5, "abc".to_string());
    assert_eq!(cache.get_hash("/data/a.txt", "/data", 101, 5), None);
    assert_eq!(cache.get_hash("/data/a.txt", "/data", 99, 5), None);
}

#[test]
fn changed_size_invalidates() {
    let mut cache = HashCache::new(None);
    cache.set_hash("/data/a.txt", "/data", 100, 5, "abc".to_string());
    assert_eq!(cache.get_hash("/data/a.txt", "/data", 100, 6), None);
    assert_eq!(cache.get_hash("/data/a.txt", "/data", 100, 0), None);
}

#[test]
fn unchanged_mtime_and_size_return_the_recorded_hash_whatever_the_content() {
    let mut cache = HashCache::new(None);
    cache.set_hash("/data/a.txt", "/data", 100, 5, "hash-of-old-content".to_string());
    assert_eq!(
        cache.get_hash("/data/a.txt", "/data", 100, 5),
        Some("hash-of-old-content".to_string())
    );
}

#[test]
fn recording_again_overwrites_the_whole_record() {
    let mut cache = HashCache::new(None);
    cache.set_hash("/data/a.txt", "/data", 100, 5, "old".to_string());
    cache.set_hash("/data/a.txt", "/data", 200, 7, "new".to_string());
    assert_eq!(cache.len(), 1);
    assert_eq!(cache.get_hash("/data/a.txt", "/data", 100, 5), None);
    assert_eq!(cache.get_hash("/data/a.txt", "/data", 200, 5), None);
    assert_eq!(cache.get_hash("/data/a.txt", "/data", 100, 7), None);
    assert_eq!(cache.get_hash("/data/a.txt", "/data", 200, 7), Some("new".to_string()));
}

#[test]
fn other_files_keep_their_records() {
    let mut cache = HashCache::new(None);
    cache.set_hash("/data/a.txt", "/data", 100, 5, "aaa".to_string());
    cache.set_hash("/data/b.txt", "/data", 200, 6, "bbb".to_string());
    cache.set_hash("/data/a.txt", "/data", 300, 7, "ccc".to_string());
    assert_eq!(cache.len(), 2);
    assert_eq!(cache.get_hash("/data/b.txt", "/data", 200, 6), Some("bbb".to_string()));
    assert_eq!(cache.get_hash("/data/a.txt", "/data", 300, 7), Some("ccc".to_string()));
}

#[test]
fn paths_with_one_key_share_a_record() {
    let mut cache = HashCache::new(None);
    cache.set_hash("/data/dir\\a.txt", "/data", 100, 5, "abc".to_string());
    assert_eq!(cache.get_hash("/data/dir/a.txt", "/data", 100, 5), Some("abc".to_string()));
}

#[test]
fn lookup_and_store_work_on_keys() {
    let mut cache = HashCache::empty();
    cache.store("k".to_string(), 1, 2, "h".to_string());
    assert_eq!(cache.lookup("k", 1, 2), Some("h".to_string()));
    assert_eq!(cache.lookup("k", 1, 3), None);
    assert_eq!(cache.lookup("other", 1, 2), None);
}

#[test]
fn saved_cache_loads_again() {
    let mut cache = HashCache::new(None);
    cache.set_hash("/data/a.txt", "/data", 100, 5, "aaa".to_string());
    cache.set_hash("/data/sub/b.txt", "/data", 200, 6, "bbb".to_string());
    let stored = cache.save().unwrap();
    let loaded = HashCache::new(Some(&stored));
    assert_eq!(loaded.len(), 2);
    assert_eq!(loaded.get_hash("/data/a.txt", "/data", 100, 5), Some("aaa".to_string()));
    assert_eq!(loaded.get_hash("/data/sub/b.txt", "/data", 200, 6), Some("bbb".to_string()));
    assert_eq!(loaded.get_hash("/data/a.txt", "/data", 100, 6), None);
}

#[test]
fn saved_cache_is_compressed_json() {
    let mut cache = HashCache::new(None);
    cache.set_hash("/data/a.txt", "/data", 100, 5, "aaa".to_string());
    let stored = cache.save().unwrap();
    let json = zstd::stream::decode_all(&stored[..]).unwrap();
    assert_eq!(json, br#"{"a.txt":[100,5,"aaa"]}"#.to_vec());
}

#[test]
fn saved_empty_cache_is_an_empty_object() {
    let stored = HashCache::new(None).save().unwrap();
    let json = zstd::stream::decode_all(&stored[..]).unwrap();
    assert_eq!(json, b"{}".to_vec());
    assert_eq!(HashCache::new(Some(&stored)).len(), 0);
}

#[test]
fn save_does_not_fail_on_ordinary_records() {
    let mut cache = HashCache::new(None);
    cache.set_hash("/data/\"quoted\"\n.txt", "/data", u64::MAX, u64::MAX, "h".to_string());
    match cache.save() {
        Ok(stored) => {
            let loaded = HashCache::new(Some(&stored));
            assert_eq!(
                loaded.get_hash("/data/\"quoted\"\n.txt", "/data", u64::MAX, u64::MAX),
                Some("h".to_string())
            );
        }
        Err(SaveError::Serialize(error)) => panic!("serialize: {}", error),
        Err(SaveError::Compress(error)) => panic!("compress: {}", error),
    }
}

#[test]
fn uncompressed_json_is_read_as_it_is() {
    let cache = HashCache::new(Some(br#"{"a.txt":[100,5,"aaa"],"b/c.txt":[7,8,"bbb"]}"#));
    assert_eq!(cache.len(), 2);
    assert_eq!(cache.get_hash("/data/a.txt", "/data", 100, 5), Some("aaa".to_string()));
    assert_eq!(cache.get_hash("/data/b/c.txt", "/data", 7, 8), Some("bbb".to_string()));
}

#[test]
fn unreadable_store_gives_an_empty_cache() {
    assert_eq!(HashCache::new(Some(b"")).len(), 0);
    assert_eq!(HashCache::new(Some(b"not json at all")).len(), 0);
    assert_eq!(HashCache::new(Some(&[0xff, 0x00, 0x28, 0xb5])).len(), 0);
    assert_eq!(HashCache::new(Some(b"[1,2,3]")).len(), 0);
    assert_eq!(HashCache::new(Some(br#"{"a.txt":[1,2,3,4]}"#)).len(), 0);
    assert_eq!(HashCache::new(Some(br#"{"a.txt":["x",2,"h"]}"#)).len(), 0);
}

#[test]
fn compressed_garbage_gives_an_empty_cache() {
    let stored = zstd::stream::encode_all(&b"no json in here"[..], 3).unwrap();
    assert_eq!(HashCache::new(Some(&stored)).len(), 0);
}

#[test]
fn legacy_store_loads_and_every_record_misses() {
    let cache = HashCache::new(Some(br#"{"a.txt":[100,"aaa"],"b.txt":[200,"bbb"]}"#));
    assert_eq!(cache.len(), 2);
    assert_eq!(cache.get_hash("/data/a.txt", "/data", 100, 5), None);
    assert_eq!(cache.get_hash("/data/a.txt", "/data", 100, 0), None);
    assert_eq!(cache.get_hash("/data/a.txt", "/data", 100, u64::MAX), None);
    assert_eq!(cache.get_hash("/data/b.txt", "/data", 200, 0), None);
}

#[test]
fn compressed_legacy_store_loads_and_every_record_misses() {
    let stored = zstd::stream::encode_all(&br#"{"a.txt":[100,"aaa"]}"#[..], 9).unwrap();
    let cache = HashCache::new(Some(&stored));
    assert_eq!(cache.len(), 1);
    assert_eq!(cache.get_hash("/data/a.txt", "/data", 100, 0), None);
    assert_eq!(cache.get_hash("/data/a.txt", "/data", 100, 3), None);
}

#[test]
fn legacy_record_is_valid_once_it_is_recorded_anew() {
    let mut cache = HashCache::new(Some(br#"{"a.txt":[100,"old"]}"#));
    cache.set_hash("/data/a.txt", "/data", 100, 5, "new".to_string());
    assert_eq!(cache.len(), 1);
    assert_eq!(cache.get_hash("/data/a.txt", "/data", 100, 5), Some("new".to_string()));
}

#[test]
fn legacy_records_are_saved_in_the_current_form() {
    let mut cache = HashCache::new(Some(br#"{"a.txt":[100,"aaa"],"b.txt":[200,"bbb"]}"#));
    cache.set_hash("/data/b.txt", "/data", 200, 6, "new".to_string());
    let stored = cache.save().unwrap();
    let json = zstd::stream::decode_all(&stored[..]).unwrap();
    assert_eq!(json, br#"{"a.txt":[100,0,"aaa"],"b.txt":[200,6,"new"]}"#.to_vec());
}

#[test]
fn cache_from_records_keeps_the_later_of_two() {
    let cache = HashCache::from_records(vec![
        record("a", 1, 2, "first"),
        record("b", 3, 4, "other"),
        record("a", 5, 6, "second"),
    ]);
    assert_eq!(cache.len(), 2);
    assert_eq!(cache.lookup("a", 1, 2), None);
    assert_eq!(cache.lookup("a", 5, 6), Some("second".to_string()));
    assert_eq!(cache.lookup("b", 3, 4), Some("other".to_string()));
}

#[test]
fn cache_from_legacy_records_vouches_for_nothing() {
    let cache = HashCache::from_legacy_records(vec![("a".to_string(), 1, "h".to_string())]);
    assert_eq!(cache.len(), 1);
    assert_eq!(cache.lookup("a", 1, 0), None);
    assert_eq!(cache.lookup("a", 1, 7), None);
    assert_eq!(cache.records(), vec![record("a", 1, 0, "h")]);
}

#[test]
fn records_hold_each_key_once() {
    let mut cache = HashCache::empty();
    cache.store("a".to_string(), 1, 2, "x".to_string());
    cache.store("b".to_string(), 3, 4, "y".to_string());
    cache.store("a".to_string(), 5, 6, "z".to_string());
    let mut records = cache.records();
    records.sort();
    assert_eq!(records, vec![record("a", 5, 6, "z"), record("b", 3, 4, "y")]);
}
