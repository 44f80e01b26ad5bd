//! The fingerprint cache: what was computed for a file earlier is used again
//! as long as the file's modification time and length are the ones recorded
//! with it.

use crate::codec::{
    compress, decompress, distinct_keys, encode_records, json_encoding, json_legacy_records,
    json_records, legacy_view, parse_legacy_records, parse_records, records_map, records_view,
    zstd_decoded, zstd_encoded, LegacyRecord, Record, COMPRESSION_LEVEL,
};
use vstd::hash_map::StringHashMap;
use vstd::prelude::*;

verus! {

/// What remains of `path` once the leading components that make up `base` are
/// taken off, as `std::path::Path::strip_prefix` reads the two on the platform
/// the library is built for; `None` where `base` is no prefix of `path`.
pub uninterp spec fn path_without_prefix(path: Seq<char>, base: Seq<char>) -> Option<Seq<char>>;

/// `std::path::Path::strip_prefix` returns the path that, joined onto the base,
/// gives the path again, or an error where the base is not a prefix. Both paths
/// are made from text, so the remainder is text too.
#[verifier::external_body]
pub(crate) fn strip_base(file_path: &str, base_path: &str) -> (rest: Option<String>)
    ensures
        match rest {
            Some(r) => path_without_prefix(file_path@, base_path@) == Some(r@),
            None => path_without_prefix(file_path@, base_path@) is None,
        },
{
    match std::path::Path::new(file_path).strip_prefix(base_path) {
        Ok(rest) => rest.to_str().map(String::from),
        Err(_) => None,
    }
}

/// `text` with every backslash turned into a forward slash.
pub open spec fn forward_slashes(text: Seq<char>) -> Seq<char> {
    text.map_values(|c: char| if c == '\\' { '/' } else { c })
}

/// How many forward slashes `text` begins with.
pub open spec fn leading_slashes(text: Seq<char>) -> nat
    decreases text.len(),
{
    if text.len() > 0 && text[0] == '/' {
        1 + leading_slashes(text.skip(1))
    } else {
        0
    }
}

/// The key for a path that is already relative to the base: forward slashes
/// only, and none at the start.
pub open spec fn normalized_key(relative: Seq<char>) -> Seq<char> {
    let text = forward_slashes(relative);
    text.skip(leading_slashes(text) as int)
}

/// The key under which the cache files `path`: the path relative to `base`
/// where `base` is a prefix of it, the whole path where it is not.
pub open spec fn cache_key(path: Seq<char>, base: Seq<char>) -> Seq<char> {
    match path_without_prefix(path, base) {
        Some(rest) => normalized_key(rest),
        None => normalized_key(path),
    }
}

proof fn lemma_leading_slashes(text: Seq<char>, n: int)
    requires
        0 <= n <= text.len(),
        forall|j: int| 0 <= j < n ==> text[j] == '/',
        n == text.len() || text[n] != '/',
    ensures
        leading_slashes(text) == n,
    decreases n,
{
    if n > 0 {
        lemma_leading_slashes(text.skip(1), n - 1);
    }
}

/// A key holds no backslash and does not begin with a slash.
pub proof fn lemma_key_is_normal(relative: Seq<char>)
    ensures
        forall|i: int|
            0 <= i < normalized_key(relative).len() ==> normalized_key(relative)[i] != '\\',
        normalized_key(relative).len() == 0 || normalized_key(relative)[0] != '/',
{
    let text = forward_slashes(relative);
    lemma_leading_slashes_bound(text);
}

proof fn lemma_leading_slashes_bound(text: Seq<char>)
    ensures
        leading_slashes(text) <= text.len(),
        leading_slashes(text) == text.len() || text[leading_slashes(text) as int] != '/',
    decreases text.len(),
{
    if text.len() > 0 && text[0] == '/' {
        lemma_leading_slashes_bound(text.skip(1));
    }
}

/// Computes `normalized_key`.
pub fn normalize_key(relative: &str) -> (key: String)
    ensures
        key@ == normalized_key(relative@),
{
    let mut key = String::new();
    let mut started = false;
    let ghost text = forward_slashes(relative@);
    let ghost mut first: int = 0;
    for c in it: relative.chars()
        invariant
            it.seq() == relative@,
            text == forward_slashes(relative@),
            !started ==> key@.len() == 0 && forall|j: int| 0 <= j < it.index() ==> text[j] == '/',
            started ==> 0 <= first < it.index() && text[first] != '/' && (forall|j: int|
                0 <= j < first ==> text[j] == '/') && key@ == text.subrange(first, it.index()),
    {
        let d = if c == '\\' { '/' } else { c };
        assert(d == text[it.index()]);
        if started || d != '/' {
            proof {
                if !started {
                    first = it.index();
                }
            }
            started = true;
            key.push(d);
            assert(key@ =~= text.subrange(first, it.index() + 1));
        }
    }
    proof {
        if started {
            lemma_leading_slashes(text, first);
            assert(key@ =~= text.skip(first));
        } else {
            lemma_leading_slashes(text, text.len() as int);
            assert(key@ =~= text.skip(text.len() as int));
        }
    }
    key
}

/// Computes `cache_key`.
pub fn key_for(file_path: &str, base_path: &str) -> (key: String)
    ensures
        key@ == cache_key(file_path@, base_path@),
{
    match strip_base(file_path, base_path) {
        Some(rest) => normalize_key(rest.as_str()),
        None => normalize_key(file_path),
    }
}

/// What the cache holds for one key.
pub struct Stamp {
    /// Modification time of the file when it was fingerprinted, in seconds
    /// since the epoch.
    pub mtime: u64,
    /// Length of the file when it was fingerprinted; `None` where the record
    /// came from a store that kept no lengths.
    pub size: Option<u64>,
    /// The fingerprint.
    pub hash: Seq<char>,
}

/// The fingerprint that `cache` vouches for: the one filed under `key`, if the
/// recorded modification time and length are `mtime` and `size`.
pub open spec fn valid_hash(
    cache: Map<Seq<char>, Stamp>,
    key: Seq<char>,
    mtime: u64,
    size: u64,
) -> Option<Seq<char>> {
    if cache.contains_key(key) && cache[key].mtime == mtime && cache[key].size == Some(size) {
        Some(cache[key].hash)
    } else {
        None
    }
}

/// The text of an optional string.
pub open spec fn text_of(value: Option<String>) -> Option<Seq<char>> {
    match value {
        Some(s) => Some(s@),
        None => None,
    }
}

/// The cache that a sequence of current records spells out; of two records
/// with one key the later counts.
pub open spec fn cache_of_records(records: Seq<(Seq<char>, u64, u64, Seq<char>)>) -> Map<
    Seq<char>,
    Stamp,
>
    decreases records.len(),
{
    if records.len() == 0 {
        Map::empty()
    } else {
        let last = records.last();
        cache_of_records(records.drop_last()).insert(
            last.0,
            Stamp { mtime: last.1, size: Some(last.2), hash: last.3 },
        )
    }
}

/// The cache that a sequence of legacy records spells out: no record has a
/// length, so none is valid for any file until it is written anew.
pub open spec fn cache_of_legacy(records: Seq<(Seq<char>, u64, Seq<char>)>) -> Map<
    Seq<char>,
    Stamp,
>
    decreases records.len(),
{
    if records.len() == 0 {
        Map::empty()
    } else {
        let last = records.last();
        cache_of_legacy(records.drop_last()).insert(
            last.0,
            Stamp { mtime: last.1, size: None, hash: last.2 },
        )
    }
}

/// The JSON text of a stored cache: the content of the Zstandard frame, or
/// the bytes as they are where they are no such frame.
pub open spec fn stored_json(bytes: Seq<u8>) -> Seq<u8> {
    match zstd_decoded(bytes) {
        Some(content) => content,
        None => bytes,
    }
}

/// What a stored cache holds: the records of its JSON text in the current
/// form, or else in the earlier form; text that is in neither gives an empty
/// cache.
pub open spec fn loaded_cache(bytes: Seq<u8>) -> Map<Seq<char>, Stamp> {
    let json = stored_json(bytes);
    match json_records(json) {
        Some(records) => cache_of_records(records),
        None => match json_legacy_records(json) {
            Some(records) => cache_of_legacy(records),
            None => Map::empty(),
        },
    }
}

/// The length that is written out for a record that has none. Read again,
/// the record is valid for an empty file only.
pub const UNKNOWN_SIZE: u64 = 0;

/// A cache as it is written out: every record, with its length where it has
/// one and `UNKNOWN_SIZE` where it has none.
pub open spec fn persistent(cache: Map<Seq<char>, Stamp>) -> Map<Seq<char>, (u64, u64, Seq<char>)> {
    Map::new(
        |key: Seq<char>| cache.contains_key(key),
        |key: Seq<char>|
            (
                cache[key].mtime,
                match cache[key].size {
                    Some(size) => size,
                    None => UNKNOWN_SIZE,
                },
                cache[key].hash,
            ),
    )
}

/// Why a cache could not be put into its stored form.
#[derive(Debug)]
pub enum SaveError {
    /// The records could not be written as JSON.
    Serialize(serde_json::Error),
    /// The JSON could not be compressed.
    Compress(std::io::Error),
}

struct CacheEntry {
    key: String,
    mtime: u64,
    size: Option<u64>,
    hash: String,
}

impl CacheEntry {
    spec fn stamp(self) -> Stamp {
        Stamp { mtime: self.mtime, size: self.size, hash: self.hash@ }
    }
}

/// Fingerprints by key. Each key has at most one record, and a record is
/// always written whole.
pub struct HashCache {
    entries: Vec<CacheEntry>,
    index: StringHashMap<usize>,
}

impl View for HashCache {
    type V = Map<Seq<char>, Stamp>;

    closed spec fn view(&self) -> Map<Seq<char>, Stamp> {
        Map::new(
            |key: Seq<char>| self.index@.contains_key(key),
            |key: Seq<char>| self.entries[self.index@[key] as int].stamp(),
        )
    }
}

impl HashCache {
    #[verifier::type_invariant]
    spec fn well_formed(self) -> bool {
        &&& forall|key: Seq<char>| #[trigger]
            self.index@.contains_key(key) ==> self.index@[key] < self.entries.len()
                && self.entries[self.index@[key] as int].key@ == key
        &&& forall|i: int|
            0 <= i < self.entries.len() ==> self.index@.contains_key(
                (#[trigger] self.entries[i]).key@,
            ) && self.index@[self.entries[i].key@] == i
    }

    /// A cache with no records.
    pub fn empty() -> (cache: Self)
        ensures
            cache@ == Map::<Seq<char>, Stamp>::empty(),
    {
        let cache = HashCache { entries: Vec::new(), index: StringHashMap::new() };
        assert(cache@ =~= Map::<Seq<char>, Stamp>::empty());
        cache
    }

    /// The fingerprint filed under `key`, if it is still valid for a file with
    /// this modification time and length.
    pub fn lookup(&self, key: &str, mtime: u64, size: u64) -> (hash: Option<String>)
        ensures
            text_of(hash) == valid_hash(self@, key@, mtime, size),
    {
        proof {
            use_type_invariant(self);
        }
        match self.index.get(key) {
            Some(position) => {
                let entry = &self.entries[*position];
                if entry.mtime == mtime && entry.size == Some(size) {
                    Some(entry.hash.clone())
                } else {
                    None
                }
            },
            None => None,
        }
    }

    /// Files `hash` under `key` with the given modification time and length,
    /// in place of whatever was there.
    pub fn store(&mut self, key: String, mtime: u64, size: u64, hash: String)
        ensures
            final(self)@ == old(self)@.insert(
                key@,
                Stamp { mtime, size: Some(size), hash: hash@ },
            ),
    {
        self.put(CacheEntry { key, mtime, size: Some(size), hash });
    }

    /// The fingerprint cached for the file at `file_path`, if its records of
    /// modification time and length are the file's current ones, `mtime` and
    /// `size`. `None` means the fingerprint has to be computed.
    pub fn get_hash(&self, file_path: &str, base_path: &str, mtime: u64, size: u64) -> (hash:
        Option<String>)
        ensures
            text_of(hash) == valid_hash(self@, cache_key(file_path@, base_path@), mtime, size),
    {
        let key = key_for(file_path, base_path);
        self.lookup(key.as_str(), mtime, size)
    }

    /// Records `hash` for the file at `file_path`, together with the file's
    /// current modification time and length.
    pub fn set_hash(&mut self, file_path: &str, base_path: &str, mtime: u64, size: u64, hash: String)
        ensures
            final(self)@ == old(self)@.insert(
                cache_key(file_path@, base_path@),
                Stamp { mtime, size: Some(size), hash: hash@ },
            ),
    {
        let key = key_for(file_path, base_path);
        self.store(key, mtime, size, hash);
    }

    /// Number of records.
    pub fn len(&self) -> (count: usize)
        ensures
            count == self@.len(),
    {
        broadcast use vstd::hash_map::group_hash_map_axioms;

        assert(self@.dom() =~= self.index@.dom());
        self.index.len()
    }

    /// The cache that `records` spell out.
    pub fn from_records(records: Vec<Record>) -> (cache: Self)
        ensures
            cache@ == cache_of_records(records_view(records@)),
    {
        let mut cache = HashCache::empty();
        let ghost all = records_view(records@);
        for record in it: records
            invariant
                it.seq() == records@,
                all == records_view(records@),
                cache@ == cache_of_records(all.take(it.index())),
        {
            assert(all.take(it.index() + 1).drop_last() =~= all.take(it.index()));
            let (key, mtime, size, hash) = record;
            cache.store(key, mtime, size, hash);
        }
        assert(all.take(all.len() as int) =~= all);
        cache
    }

    /// The cache that legacy `records` spell out.
    pub fn from_legacy_records(records: Vec<LegacyRecord>) -> (cache: Self)
        ensures
            cache@ == cache_of_legacy(legacy_view(records@)),
    {
        let mut cache = HashCache::empty();
        let ghost all = legacy_view(records@);
        for record in it: records
            invariant
                it.seq() == records@,
                all == legacy_view(records@),
                cache@ == cache_of_legacy(all.take(it.index())),
        {
            assert(all.take(it.index() + 1).drop_last() =~= all.take(it.index()));
            let (key, mtime, hash) = record;
            cache.put(CacheEntry { key, mtime, size: None, hash });
        }
        assert(all.take(all.len() as int) =~= all);
        cache
    }

    /// The cache held in `stored`, the content of the backing file, or an
    /// empty one where there is no backing file. Whatever the file holds,
    /// this does not fail: content that cannot be read gives an empty cache.
    pub fn new(stored: Option<&[u8]>) -> (cache: Self)
        ensures
            cache@ == match stored {
                Some(bytes) => loaded_cache(bytes@),
                None => Map::<Seq<char>, Stamp>::empty(),
            },
    {
        match stored {
            None => HashCache::empty(),
            Some(bytes) => {
                match decompress(bytes) {
                    Some(content) => HashCache::from_json(content.as_slice()),
                    None => HashCache::from_json(bytes),
                }
            },
        }
    }

    fn from_json(json: &[u8]) -> (cache: Self)
        ensures
            cache@ == match json_records(json@) {
                Some(records) => cache_of_records(records),
                None => match json_legacy_records(json@) {
                    Some(records) => cache_of_legacy(records),
                    None => Map::<Seq<char>, Stamp>::empty(),
                },
            },
    {
        match parse_records(json) {
            Some(records) => HashCache::from_records(records),
            None => match parse_legacy_records(json) {
                Some(records) => HashCache::from_legacy_records(records),
                None => HashCache::empty(),
            },
        }
    }

    /// The stored form of the cache, to be written to the backing file: all
    /// its records as JSON, compressed.
    pub fn save(&self) -> (stored: Result<Vec<u8>, SaveError>)
        ensures
            match stored {
                Ok(bytes) => json_encoding(persistent(self@)) matches Some(json) && zstd_encoded(
                    json,
                    COMPRESSION_LEVEL,
                ) == Some(bytes@),
                Err(SaveError::Serialize(_)) => json_encoding(persistent(self@)) is None,
                Err(SaveError::Compress(_)) => json_encoding(persistent(self@)) matches Some(json)
                    && zstd_encoded(json, COMPRESSION_LEVEL) is None,
            },
    {
        let records = self.records();
        match encode_records(&records) {
            Err(error) => Err(SaveError::Serialize(error)),
            Ok(json) => match compress(json.as_slice(), COMPRESSION_LEVEL) {
                Err(error) => Err(SaveError::Compress(error)),
                Ok(frame) => Ok(frame),
            },
        }
    }

    /// The records of the cache as they are written out, each key once.
    pub fn records(&self) -> (records: Vec<Record>)
        ensures
            distinct_keys(records_view(records@)),
            records_map(records_view(records@)) == persistent(self@),
    {
        proof {
            use_type_invariant(self);
        }
        let mut records: Vec<Record> = Vec::new();
        let mut i: usize = 0;
        while i < self.entries.len()
            invariant
                i <= self.entries.len(),
                self.well_formed(),
                records.len() == i,
                forall|r: int| 0 <= r < i ==> (#[trigger] records[r]).0@ == self.entries[r].key@,
                records_map(records_view(records@)) == Map::new(
                    |key: Seq<char>| self.index@.contains_key(key) && self.index@[key] < i,
                    |key: Seq<char>| persistent(self@)[key],
                ),
            decreases self.entries.len() - i,
        {
            let entry = &self.entries[i];
            let size = match entry.size {
                Some(size) => size,
                None => UNKNOWN_SIZE,
            };
            let ghost before = records_view(records@);
            records.push((entry.key.clone(), entry.mtime, size, entry.hash.clone()));
            proof {
                let after = records_view(records@);
                assert(after.drop_last() =~= before);
                assert(after.last() == (entry.key@, entry.mtime, size, entry.hash@));
                assert(self.index@[entry.key@] == i);
            }
            i += 1;
            assert(records_map(records_view(records@)) =~= Map::new(
                |key: Seq<char>| self.index@.contains_key(key) && self.index@[key] < i,
                |key: Seq<char>| persistent(self@)[key],
            ));
        }
        proof {
            let view = records_view(records@);
            assert forall|a: int, b: int| 0 <= a < b < view.len() implies (#[trigger] view[a]).0 != (
            #[trigger] view[b]).0 by {
                assert(view[a].0 == records[a].0@ && view[b].0 == records[b].0@);
                assert(self.index@[self.entries[a].key@] == a);
                assert(self.index@[self.entries[b].key@] == b);
            }
            assert(records_map(view) =~= persistent(self@));
        }
        records
    }

    fn put(&mut self, entry: CacheEntry)
        ensures
            final(self)@ == old(self)@.insert(entry.key@, entry.stamp()),
    {
        let mut current = HashCache::empty();
        core::mem::swap(self, &mut current);
        *self = current.with_entry(entry);
    }

    fn with_entry(self, entry: CacheEntry) -> (cache: Self)
        ensures
            cache@ == self@.insert(entry.key@, entry.stamp()),
    {
        proof {
            use_type_invariant(&self);
        }
        let ghost before = self@;
        let ghost added = (entry.key@, entry.stamp());
        let HashCache { mut entries, mut index } = self;
        let found = match index.get(entry.key.as_str()) {
            Some(position) => Some(*position),
            None => None,
        };
        match found {
            Some(position) => {
                entries[position] = entry;
            },
            None => {
                let position = entries.len();
                let key = entry.key.clone();
                entries.push(entry);
                index.insert(key, position);
            },
        }
        let cache = HashCache { entries, index };
        assert(cache@ =~= before.insert(added.0, added.1));
        cache
    }
}

/// A fingerprint that was recorded is valid for the file as long as its
/// modification time and length are the recorded ones, and for no other
/// modification time or length: a file that changed in either is
/// fingerprinted anew. A change of content that leaves both as they were is
/// not seen.
pub proof fn lemma_recorded_hash_validity(
    cache: Map<Seq<char>, Stamp>,
    key: Seq<char>,
    recorded: Stamp,
    mtime: u64,
    size: u64,
)
    ensures
        valid_hash(cache.insert(key, recorded), key, mtime, size) == if recorded.mtime == mtime
            && recorded.size == Some(size) {
            Some(recorded.hash)
        } else {
            None
        },
{
}

/// Recording a fingerprint under one key leaves what is valid under every
/// other key as it was.
pub proof fn lemma_other_keys_unchanged(
    cache: Map<Seq<char>, Stamp>,
    key: Seq<char>,
    recorded: Stamp,
    other: Seq<char>,
    mtime: u64,
    size: u64,
)
    requires
        other != key,
    ensures
        valid_hash(cache.insert(key, recorded), other, mtime, size) == valid_hash(
            cache,
            other,
            mtime,
            size,
        ),
{
}

/// What a cache holds after legacy records were read: every key of the
/// records, each without a length.
pub proof fn lemma_legacy_records_have_no_length(
    records: Seq<(Seq<char>, u64, Seq<char>)>,
    key: Seq<char>,
)
    ensures
        cache_of_legacy(records).contains_key(key) ==> cache_of_legacy(records)[key].size is None,
        cache_of_legacy(records).contains_key(key) <==> exists|i: int|
            0 <= i < records.len() && (#[trigger] records[i]).0 == key,
    decreases records.len(),
{
    if records.len() > 0 {
        lemma_legacy_records_have_no_length(records.drop_last(), key);
        if cache_of_legacy(records.drop_last()).contains_key(key) {
            let i = choose|i: int|
                0 <= i < records.drop_last().len() && (#[trigger] records.drop_last()[i]).0 == key;
            assert(records[i].0 == key);
        }
        if records.last().0 == key {
            assert(records[records.len() - 1].0 == key);
        }
        if exists|i: int| 0 <= i < records.len() && (#[trigger] records[i]).0 == key {
            let i = choose|i: int| 0 <= i < records.len() && (#[trigger] records[i]).0 == key;
            if i < records.len() - 1 {
                assert(records.drop_last()[i].0 == key);
            }
        }
    }
}

/// A stored cache that is not in the current form, whether it is in the
/// earlier form or in none, vouches for no fingerprint: whatever file is
/// looked up first, it is fingerprinted anew.
pub proof fn lemma_legacy_store_misses(bytes: Seq<u8>, key: Seq<char>, mtime: u64, size: u64)
    ensures
        json_records(stored_json(bytes)) is None ==> valid_hash(
            loaded_cache(bytes),
            key,
            mtime,
            size,
        ) is None,
{
    match json_legacy_records(stored_json(bytes)) {
        Some(records) => {
            lemma_legacy_records_have_no_length(records, key);
        },
        None => {},
    }
}

} // verus!
