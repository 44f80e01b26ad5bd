use check_file_dups::hasher::{to_hex, ContentHasher, CHUNK_SIZE};
use check_file_dups::calculate_file_hash;

#[test]
fn hash_of_empty_content_is_the_known_blake3_value() {
    assert_eq!(
        calculate_file_hash(b""),
        "af1349b9f5f9a1a6a0404dea36dcc9499bcb25c9adc112b7cc9a93cae41f3262"
    );
}

#[test]
fn hash_matches_blake3_of_the_same_bytes() {
    let expected = blake3::hash(b"hello").to_hex().to_string();
    assert_eq!(calculate_file_hash(b"hello"), expected);
    assert_eq!(expected.len(), 64);
}

#[test]
fn hash_is_not_the_content_itself() {
    let hash = calculate_file_hash(b"hello");
    assert_ne!(hash.as_bytes(), b"hello");
    assert_ne!(hash, calculate_file_hash(b"world"));
}

#[test]
fn equal_content_gives_equal_hash() {
    assert_eq!(calculate_file_hash(b"hello"), calculate_file_hash(b"hello"));
}

#[test]
fn hash_of_content_longer_than_a_chunk() {
    let mut content = Vec::new();
    for i in 0..(2 * CHUNK_SIZE + 123) {
        content.push((i % 251) as u8);
    }
    let expected = blake3::hash(&content).to_hex().to_string();
    assert_eq!(calculate_file_hash(&content), expected);
}

#[test]
fn hash_of_content_of_exactly_one_chunk() {
    let content = vec![7u8; CHUNK_SIZE];
    let expected = blake3::hash(&content).to_hex().to_string();
    assert_eq!(calculate_file_hash(&content), expected);
}

#[test]
fn division_into_pieces_does_not_matter() {
    let content: Vec<u8> = (0..20_000u32).map(|i| (i % 256) as u8).collect();
    let whole = calculate_file_hash(&content);

    let mut by_threes = ContentHasher::new();
    for piece in content.chunks(3) {
        by_threes.update(piece);
    }
    assert_eq!(by_threes.finish(), whole);

    let mut uneven = ContentHasher::new();
    uneven.update(&content[..1]);
    uneven.update(&content[1..1]);
    uneven.update(&content[1..9000]);
    uneven.update(&content[9000..]);
    assert_eq!(uneven.finish(), whole);
}

#[test]
fn finishing_twice_gives_the_same_hash() {
    let mut hasher = ContentHasher::new();
    hasher.update(b"abc");
    let first = hasher.finish();
    assert_eq!(hasher.finish(), first);
    hasher.update(b"def");
    assert_eq!(hasher.finish(), calculate_file_hash(b"abcdef"));
}

#[test]
fn new_hasher_has_the_hash_of_nothing() {
    assert_eq!(ContentHasher::new().finish(), calculate_file_hash(b""));
}

#[test]
fn hex_is_lowercase_and_two_digits_a_byte() {
    assert_eq!(to_hex(&[]), "");
    assert_eq!(to_hex(&[0x00]), "00");
    assert_eq!(to_hex(&[0x0f, 0xf0, 0xab, 0x09, 0xff]), "0ff0ab09ff");
    assert_eq!(to_hex(&[0x1a, 0x2b]), "1a2b");
}
