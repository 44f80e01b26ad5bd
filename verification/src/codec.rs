//! The stored form of the cache: a JSON object from key to
//! `[mtime, size, hash]`, compressed with Zstandard. An earlier form kept
//! `[mtime, hash]` only.

use vstd::prelude::*;

verus! {

/// Compression level of a stored cache.
pub const COMPRESSION_LEVEL: i32 = 9;

/// `serde_json::Error`, handed on as it comes.
#[verifier::external_type_specification]
#[verifier::external_body]
pub struct ExJsonError(serde_json::Error);

/// `std::io::Error`, handed on as it comes.
#[verifier::external_type_specification]
#[verifier::external_body]
pub struct ExIoError(std::io::Error);

/// One record of the current stored form: key, modification time, length,
/// fingerprint.
pub type Record = (String, u64, u64, String);

/// One record of the earlier stored form: key, modification time, fingerprint.
pub type LegacyRecord = (String, u64, String);

/// The content of a Zstandard frame, or `None` where `bytes` is none.
pub uninterp spec fn zstd_decoded(bytes: Seq<u8>) -> Option<Seq<u8>>;

/// The Zstandard frame that holds `bytes`, compressed at `level`, or `None`
/// where the compressor fails.
pub uninterp spec fn zstd_encoded(bytes: Seq<u8>, level: i32) -> Option<Seq<u8>>;

/// The records of a JSON object in the current form, in the order of their
/// keys, or `None` where `bytes` is no such object.
pub uninterp spec fn json_records(bytes: Seq<u8>) -> Option<Seq<(Seq<char>, u64, u64, Seq<char>)>>;

/// The records of a JSON object in the earlier form, in the order of their
/// keys, or `None` where `bytes` is no such object.
pub uninterp spec fn json_legacy_records(bytes: Seq<u8>) -> Option<Seq<(Seq<char>, u64, Seq<char>)>>;

/// The JSON text for a mapping from key to `[mtime, size, hash]`, keys in
/// order, or `None` where the serializer fails.
pub uninterp spec fn json_encoding(records: Map<Seq<char>, (u64, u64, Seq<char>)>) -> Option<
    Seq<u8>,
>;

/// The records as plain values.
pub open spec fn records_view(records: Seq<Record>) -> Seq<(Seq<char>, u64, u64, Seq<char>)> {
    records.map_values(|r: Record| (r.0@, r.1, r.2, r.3@))
}

/// The legacy records as plain values.
pub open spec fn legacy_view(records: Seq<LegacyRecord>) -> Seq<(Seq<char>, u64, Seq<char>)> {
    records.map_values(|r: LegacyRecord| (r.0@, r.1, r.2@))
}

/// No two records have the same key.
pub open spec fn distinct_keys(records: Seq<(Seq<char>, u64, u64, Seq<char>)>) -> bool {
    forall|a: int, b: int|
        0 <= a < b < records.len() ==> (#[trigger] records[a]).0 != (#[trigger] records[b]).0
}

/// The mapping that a sequence of records spells out; of two records with one
/// key the later counts.
pub open spec fn records_map(records: Seq<(Seq<char>, u64, u64, Seq<char>)>) -> Map<
    Seq<char>,
    (u64, u64, Seq<char>),
>
    decreases records.len(),
{
    if records.len() == 0 {
        Map::empty()
    } else {
        let last = records.last();
        records_map(records.drop_last()).insert(last.0, (last.1, last.2, last.3))
    }
}

/// `zstd::stream::decode_all` decompresses a whole input held in memory and
/// fails where it is not in the Zstandard frame format.
#[verifier::external_body]
pub(crate) fn decompress(bytes: &[u8]) -> (content: Option<Vec<u8>>)
    ensures
        match content {
            Some(c) => zstd_decoded(bytes@) == Some(c@),
            None => zstd_decoded(bytes@) is None,
        },
{
    zstd::stream::decode_all(bytes).ok()
}

/// `zstd::stream::encode_all` compresses a whole input held in memory into one
/// Zstandard frame, at the given level.
#[verifier::external_body]
pub(crate) fn compress(bytes: &[u8], level: i32) -> (frame: Result<Vec<u8>, std::io::Error>)
    ensures
        match frame {
            Ok(f) => zstd_encoded(bytes@, level) == Some(f@),
            Err(_) => zstd_encoded(bytes@, level) is None,
        },
{
    zstd::stream::encode_all(bytes, level)
}

/// `serde_json::from_slice`, asked for a map from string to
/// `(u64, u64, String)`: the records of the JSON object, handed out in the
/// order of the keys.
#[verifier::external_body]
pub(crate) fn parse_records(bytes: &[u8]) -> (records: Option<Vec<Record>>)
    ensures
        match records {
            Some(r) => json_records(bytes@) == Some(records_view(r@)),
            None => json_records(bytes@) is None,
        },
{
    match serde_json::from_slice::<std::collections::BTreeMap<String, (u64, u64, String)>>(bytes) {
        Ok(map) => Some(map.into_iter().map(|(key, value)| (key, value.0, value.1, value.2)).collect()),
        Err(_) => None,
    }
}

/// `serde_json::from_slice`, asked for a map from string to `(u64, String)`:
/// the records of the JSON object, handed out in the order of the keys.
#[verifier::external_body]
pub(crate) fn parse_legacy_records(bytes: &[u8]) -> (records: Option<Vec<LegacyRecord>>)
    ensures
        match records {
            Some(r) => json_legacy_records(bytes@) == Some(legacy_view(r@)),
            None => json_legacy_records(bytes@) is None,
        },
{
    match serde_json::from_slice::<std::collections::BTreeMap<String, (u64, String)>>(bytes) {
        Ok(map) => Some(map.into_iter().map(|(key, value)| (key, value.0, value.1)).collect()),
        Err(_) => None,
    }
}

/// `serde_json::to_vec` on the records as a map from key to
/// `(mtime, size, hash)`, which it writes as a JSON object with the keys in
/// order.
#[verifier::external_body]
pub(crate) fn encode_records(records: &Vec<Record>) -> (json: Result<Vec<u8>, serde_json::Error>)
    requires
        distinct_keys(records_view(records@)),
    ensures
        match json {
            Ok(j) => json_encoding(records_map(records_view(records@))) == Some(j@),
            Err(_) => json_encoding(records_map(records_view(records@))) is None,
        },
{
    let map: std::collections::BTreeMap<&str, (u64, u64, &str)> = records.iter().map(
        |r| (r.0.as_str(), (r.1, r.2, r.3.as_str())),
    ).collect();
    serde_json::to_vec(&map)
}

} // verus!
