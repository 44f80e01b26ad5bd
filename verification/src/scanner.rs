//! The decisions of a scan: which entries of a directory walk count, which
//! directories are left out, when a fingerprint is taken from the cache and
//! when it is computed, and what is recorded afterwards.

use crate::cache::{cache_key, valid_hash, HashCache, Stamp};
use crate::{FileInfo, FileView};
use vstd::prelude::*;

verus! {

/// Bytes in the unit of the minimum file size.
pub const MEBIBYTE: u64 = 1_048_576;

/// A file of `size` bytes is large enough to be scanned; no minimum is set
/// where `min_size_mb` is 0.
pub open spec fn large_enough(size: u64, min_size_mb: u64) -> bool {
    min_size_mb == 0 || size >= min_size_mb * MEBIBYTE
}

/// Computes `large_enough`.
pub fn meets_min_size(size: u64, min_size_mb: u64) -> (keep: bool)
    ensures
        keep == large_enough(size, min_size_mb),
{
    if min_size_mb == 0 {
        true
    } else {
        match min_size_mb.checked_mul(MEBIBYTE) {
            Some(limit) => size >= limit,
            None => false,
        }
    }
}

/// Whether a directory called `name` is left out of the walk: it is, where
/// `skip_dirs` names it.
pub fn should_skip_dir(name: &str, skip_dirs: &Vec<String>) -> (skip: bool)
    ensures
        skip == exists|i: int| 0 <= i < skip_dirs.len() && (#[trigger] skip_dirs[i])@ == name@,
{
    let wanted = name.to_owned();
    let mut i: usize = 0;
    while i < skip_dirs.len()
        invariant
            i <= skip_dirs.len(),
            wanted@ == name@,
            forall|j: int| 0 <= j < i ==> (#[trigger] skip_dirs[j])@ != name@,
        decreases skip_dirs.len() - i,
    {
        if skip_dirs[i] == wanted {
            return true;
        }
        i += 1;
    }
    false
}

/// What a directory walk met at one step.
#[derive(Debug, Clone, Copy)]
pub enum WalkEntry {
    /// A directory.
    Directory,
    /// A regular file, with its length where its metadata could be read.
    File { size: Option<u64> },
    /// Something that is neither.
    Other,
    /// An entry that could not be read.
    Unreadable,
}

impl WalkEntry {
    /// The entry is a file to fingerprint: a regular file whose length is
    /// known and large enough.
    pub open spec fn is_candidate(self, min_size_mb: u64) -> bool {
        self matches WalkEntry::File { size: Some(size) } && large_enough(size, min_size_mb)
    }

    /// Computes `is_candidate`.
    pub fn candidate(&self, min_size_mb: u64) -> (keep: bool)
        ensures
            keep == self.is_candidate(min_size_mb),
    {
        match self {
            WalkEntry::File { size: Some(size) } => meets_min_size(*size, min_size_mb),
            _ => false,
        }
    }
}

/// What the counting pass of a scan has seen so far. The counts stop at the
/// largest value they can hold.
#[derive(Debug, Clone, Copy)]
pub struct ScanTotals {
    /// Files to fingerprint.
    pub files: usize,
    /// Directories.
    pub dirs: usize,
    /// Bytes in the files to fingerprint.
    pub bytes: u64,
}

/// `count` and `more`, or the largest `usize` where the sum is larger.
pub open spec fn capped_count(count: usize, more: int) -> usize {
    if count + more > usize::MAX {
        usize::MAX
    } else {
        (count + more) as usize
    }
}

/// `total` and `more`, or the largest `u64` where the sum is larger.
pub open spec fn capped_bytes(total: u64, more: u64) -> u64 {
    if total + more > u64::MAX {
        u64::MAX
    } else {
        (total + more) as u64
    }
}

impl ScanTotals {
    /// The totals after `entry`: a directory counts as one, a file to
    /// fingerprint counts as one and adds its length, anything else leaves the
    /// totals as they were.
    pub open spec fn after(self, entry: WalkEntry, min_size_mb: u64) -> ScanTotals {
        match entry {
            WalkEntry::Directory => ScanTotals { dirs: capped_count(self.dirs, 1), ..self },
            WalkEntry::File { size: Some(size) } => if large_enough(size, min_size_mb) {
                ScanTotals {
                    files: capped_count(self.files, 1),
                    bytes: capped_bytes(self.bytes, size),
                    ..self
                }
            } else {
                self
            },
            _ => self,
        }
    }

    /// The totals after each of `entries` in turn.
    pub open spec fn after_all(self, entries: Seq<WalkEntry>, min_size_mb: u64) -> ScanTotals
        decreases entries.len(),
    {
        if entries.len() == 0 {
            self
        } else {
            self.after_all(entries.drop_last(), min_size_mb).after(entries.last(), min_size_mb)
        }
    }

    /// Totals of a walk that has met nothing yet.
    pub fn new() -> (totals: Self)
        ensures
            totals == (ScanTotals { files: 0, dirs: 0, bytes: 0 }),
    {
        ScanTotals { files: 0, dirs: 0, bytes: 0 }
    }

    /// Takes `entry` into the totals.
    pub fn record(&mut self, entry: &WalkEntry, min_size_mb: u64)
        ensures
            *final(self) == old(self).after(*entry, min_size_mb),
    {
        match entry {
            WalkEntry::Directory => {
                self.dirs = self.dirs.saturating_add(1);
            },
            WalkEntry::File { size: Some(size) } => {
                if meets_min_size(*size, min_size_mb) {
                    self.files = self.files.saturating_add(1);
                    self.bytes = self.bytes.saturating_add(*size);
                }
            },
            _ => {},
        }
    }

    /// The totals of a whole walk.
    pub fn of_walk(entries: &Vec<WalkEntry>, min_size_mb: u64) -> (totals: Self)
        ensures
            totals == (ScanTotals { files: 0, dirs: 0, bytes: 0 }).after_all(entries@, min_size_mb),
    {
        let mut totals = ScanTotals::new();
        let mut i: usize = 0;
        while i < entries.len()
            invariant
                i <= entries.len(),
                totals == (ScanTotals { files: 0, dirs: 0, bytes: 0 }).after_all(
                    entries@.take(i as int),
                    min_size_mb,
                ),
            decreases entries.len() - i,
        {
            assert(entries@.take(i + 1).drop_last() =~= entries@.take(i as int));
            totals.record(&entries[i], min_size_mb);
            i += 1;
        }
        assert(entries@.take(i as int) =~= entries@);
        totals
    }
}

/// Whether progress is shown after `processed` of `total` files: after every
/// hundredth file, and after the last.
pub fn progress_due(processed: usize, total: usize) -> (due: bool)
    ensures
        due == (processed % 100 == 0 || processed == total),
{
    processed % 100 == 0 || processed == total
}

/// How the fingerprint of a file is to be had.
#[derive(Debug, Clone)]
pub enum FilePlan {
    /// The cache holds a valid fingerprint: this is the file's record.
    Reuse(FileInfo),
    /// The content has to be read and fingerprinted.
    Compute,
}

/// The fingerprint that a scan takes from the cache for a file: none where
/// the cache is disabled.
pub open spec fn reusable_hash(
    cache: Map<Seq<char>, Stamp>,
    cache_disabled: bool,
    file_path: Seq<char>,
    base_path: Seq<char>,
    mtime: u64,
    size: u64,
) -> Option<Seq<char>> {
    if cache_disabled {
        None
    } else {
        valid_hash(cache, cache_key(file_path, base_path), mtime, size)
    }
}

/// The cache after a scan has fingerprinted a file: unchanged where the cache
/// is disabled.
pub open spec fn cache_after(
    cache: Map<Seq<char>, Stamp>,
    cache_disabled: bool,
    file_path: Seq<char>,
    base_path: Seq<char>,
    mtime: u64,
    size: u64,
    hash: Seq<char>,
) -> Map<Seq<char>, Stamp> {
    if cache_disabled {
        cache
    } else {
        cache.insert(cache_key(file_path, base_path), Stamp { mtime, size: Some(size), hash })
    }
}

/// Decides, for a file whose modification time and length have been read,
/// whether its fingerprint comes from the cache.
pub fn plan_file(
    cache: &HashCache,
    cache_disabled: bool,
    file_path: &str,
    base_path: &str,
    mtime: u64,
    size: u64,
) -> (plan: FilePlan)
    ensures
        match reusable_hash(cache@, cache_disabled, file_path@, base_path@, mtime, size) {
            Some(hash) => plan matches FilePlan::Reuse(info) && info@ == (FileView {
                path: file_path@,
                size,
                hash,
            }),
            None => plan is Compute,
        },
{
    if cache_disabled {
        return FilePlan::Compute;
    }
    match cache.get_hash(file_path, base_path, mtime, size) {
        Some(hash) => FilePlan::Reuse(FileInfo { path: file_path.to_owned(), size, hash }),
        None => FilePlan::Compute,
    }
}

/// Takes over a fingerprint that has been computed: files it in the cache,
/// unless the cache is disabled, and makes the file's record.
pub fn record_file(
    cache: &mut HashCache,
    cache_disabled: bool,
    file_path: &str,
    base_path: &str,
    mtime: u64,
    size: u64,
    hash: String,
) -> (info: FileInfo)
    ensures
        info@ == (FileView { path: file_path@, size, hash: hash@ }),
        final(cache)@ == cache_after(
            old(cache)@,
            cache_disabled,
            file_path@,
            base_path@,
            mtime,
            size,
            hash@,
        ),
{
    if !cache_disabled {
        cache.set_hash(file_path, base_path, mtime, size, hash.clone());
    }
    FileInfo { path: file_path.to_owned(), size, hash }
}

/// The records of the files that were fingerprinted, in their order; a file
/// that failed leaves no record.
pub open spec fn kept(outcomes: Seq<Option<FileInfo>>) -> Seq<FileInfo>
    decreases outcomes.len(),
{
    if outcomes.len() == 0 {
        Seq::empty()
    } else {
        match outcomes.last() {
            Some(info) => kept(outcomes.drop_last()).push(info),
            None => kept(outcomes.drop_last()),
        }
    }
}

/// Gathers the records of the files that were fingerprinted.
pub fn successes(outcomes: Vec<Option<FileInfo>>) -> (files: Vec<FileInfo>)
    ensures
        files@ == kept(outcomes@),
{
    let mut files: Vec<FileInfo> = Vec::new();
    for outcome in it: outcomes
        invariant
            it.seq() == outcomes@,
            files@ == kept(outcomes@.take(it.index())),
    {
        assert(outcomes@.take(it.index() + 1).drop_last() =~= outcomes@.take(it.index()));
        match outcome {
            Some(info) => {
                files.push(info);
            },
            None => {},
        }
    }
    assert(outcomes@.take(outcomes@.len() as int) =~= outcomes@);
    files
}

/// What a scan finds of one file: where it is, its modification time and
/// length, and the fingerprint of its content.
pub struct Observed {
    pub path: Seq<char>,
    pub mtime: u64,
    pub size: u64,
    pub fingerprint: Seq<char>,
}

/// The fingerprint that a scan reports for `file`: the cached one where the
/// cache holds a valid one, the computed one where it does not.
pub open spec fn reported_hash(
    cache: Map<Seq<char>, Stamp>,
    cache_disabled: bool,
    base_path: Seq<char>,
    file: Observed,
) -> Seq<char> {
    match reusable_hash(cache, cache_disabled, file.path, base_path, file.mtime, file.size) {
        Some(hash) => hash,
        None => file.fingerprint,
    }
}

/// The cache after a scan has dealt with `file`: as it was where it held a
/// valid fingerprint, and with the computed one filed where it did not.
pub open spec fn cache_after_file(
    cache: Map<Seq<char>, Stamp>,
    cache_disabled: bool,
    base_path: Seq<char>,
    file: Observed,
) -> Map<Seq<char>, Stamp> {
    match reusable_hash(cache, cache_disabled, file.path, base_path, file.mtime, file.size) {
        Some(_) => cache,
        None => cache_after(
            cache,
            cache_disabled,
            file.path,
            base_path,
            file.mtime,
            file.size,
            file.fingerprint,
        ),
    }
}

/// The cache after a scan has dealt with each of `files` in turn.
pub open spec fn cache_after_scan(
    cache: Map<Seq<char>, Stamp>,
    cache_disabled: bool,
    base_path: Seq<char>,
    files: Seq<Observed>,
) -> Map<Seq<char>, Stamp>
    decreases files.len(),
{
    if files.len() == 0 {
        cache
    } else {
        cache_after_file(
            cache_after_scan(cache, cache_disabled, base_path, files.drop_last()),
            cache_disabled,
            base_path,
            files.last(),
        )
    }
}

/// The fingerprint that a scan of `files`, each in turn, reports for the file
/// at `position`.
pub open spec fn hash_in_scan(
    cache: Map<Seq<char>, Stamp>,
    cache_disabled: bool,
    base_path: Seq<char>,
    files: Seq<Observed>,
    position: int,
) -> Seq<char> {
    reported_hash(
        cache_after_scan(cache, cache_disabled, base_path, files.take(position)),
        cache_disabled,
        base_path,
        files[position],
    )
}

/// No two of `files` are filed under one key.
pub open spec fn distinct_cache_keys(files: Seq<Observed>, base_path: Seq<char>) -> bool {
    forall|i: int, j: int|
        0 <= i < j < files.len() ==> cache_key((#[trigger] files[i]).path, base_path) != cache_key(
            (#[trigger] files[j]).path,
            base_path,
        )
}

/// A fingerprint that a scan has recorded is taken from the cache the next
/// time, for as long as the file keeps its modification time and length.
pub proof fn lemma_recorded_file_is_reused(
    cache: Map<Seq<char>, Stamp>,
    file_path: Seq<char>,
    base_path: Seq<char>,
    mtime: u64,
    size: u64,
    hash: Seq<char>,
)
    ensures
        reusable_hash(
            cache_after(cache, false, file_path, base_path, mtime, size, hash),
            false,
            file_path,
            base_path,
            mtime,
            size,
        ) == Some(hash),
{
}

/// A file whose modification time or length is no longer the recorded one is
/// fingerprinted anew.
pub proof fn lemma_changed_file_is_computed(
    cache: Map<Seq<char>, Stamp>,
    file_path: Seq<char>,
    base_path: Seq<char>,
    mtime: u64,
    size: u64,
    hash: Seq<char>,
    new_mtime: u64,
    new_size: u64,
)
    requires
        new_mtime != mtime || new_size != size,
    ensures
        reusable_hash(
            cache_after(cache, false, file_path, base_path, mtime, size, hash),
            false,
            file_path,
            base_path,
            new_mtime,
            new_size,
        ) is None,
{
}

/// With the cache disabled every file is fingerprinted, and the cache stays
/// as it was.
pub proof fn lemma_disabled_cache_is_untouched(
    cache: Map<Seq<char>, Stamp>,
    base_path: Seq<char>,
    file: Observed,
)
    ensures
        reported_hash(cache, true, base_path, file) == file.fingerprint,
        cache_after_file(cache, true, base_path, file) == cache,
{
}

proof fn lemma_scan_keeps_valid(
    cache: Map<Seq<char>, Stamp>,
    base_path: Seq<char>,
    files: Seq<Observed>,
    position: int,
    upto: int,
)
    requires
        distinct_cache_keys(files, base_path),
        0 <= position < upto <= files.len(),
    ensures
        reusable_hash(
            cache_after_scan(cache, false, base_path, files.take(upto)),
            false,
            files[position].path,
            base_path,
            files[position].mtime,
            files[position].size,
        ) == Some(hash_in_scan(cache, false, base_path, files, position)),
    decreases upto,
{
    let before = files.take(upto - 1);
    assert(files.take(upto).drop_last() =~= before);
    assert(files.take(upto).last() == files[upto - 1]);
    if position < upto - 1 {
        lemma_scan_keeps_valid(cache, base_path, files, position, upto - 1);
        assert(cache_key(files[position].path, base_path) != cache_key(
            files[upto - 1].path,
            base_path,
        ));
    }
}

/// A second scan of files that have not changed takes every fingerprint from
/// the cache, reports the fingerprints of the first scan, and leaves the
/// cache as the first scan left it.
pub proof fn lemma_second_scan_hits(
    cache: Map<Seq<char>, Stamp>,
    base_path: Seq<char>,
    files: Seq<Observed>,
    position: int,
)
    requires
        distinct_cache_keys(files, base_path),
        0 <= position < files.len(),
    ensures
        reusable_hash(
            cache_after_scan(cache, false, base_path, files),
            false,
            files[position].path,
            base_path,
            files[position].mtime,
            files[position].size,
        ) == Some(hash_in_scan(cache, false, base_path, files, position)),
        hash_in_scan(
            cache_after_scan(cache, false, base_path, files),
            false,
            base_path,
            files,
            position,
        ) == hash_in_scan(cache, false, base_path, files, position),
        cache_after_scan(
            cache_after_scan(cache, false, base_path, files),
            false,
            base_path,
            files.take(position + 1),
        ) == cache_after_scan(cache, false, base_path, files),
    decreases position,
{
    let first = cache_after_scan(cache, false, base_path, files);
    assert(files.take(files.len() as int) =~= files);
    lemma_scan_keeps_valid(cache, base_path, files, position, files.len() as int);
    assert(files.take(position + 1).drop_last() =~= files.take(position));
    assert(files.take(position + 1).last() == files[position]);
    if position > 0 {
        lemma_second_scan_hits(cache, base_path, files, position - 1);
    }
}

} // verus!
