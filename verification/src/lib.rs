//! Finds files with identical content: content fingerprints, a staleness-aware
//! fingerprint cache, the decisions of a directory scan, and the grouping of
//! fingerprinted files into duplicate sets.

use vstd::prelude::*;

pub mod cache;
pub mod cli;
pub mod codec;
pub mod duplicates;
pub mod hasher;
pub mod report;
pub mod scanner;
pub mod text;

pub use cache::HashCache;
pub use cli::Cli;
pub use duplicates::{find_duplicates, DuplicateGroup, Duplicates};
pub use hasher::{calculate_file_hash, ContentHasher};
pub use report::print_results;
pub use text::{format_human_elapsed, format_number};

verus! {

/// One successfully fingerprinted file.
#[derive(Debug, Clone)]
pub struct FileInfo {
    /// Where the file was found.
    pub path: String,
    /// Its length in bytes.
    pub size: u64,
    /// The fingerprint of its content.
    pub hash: String,
}

/// A `FileInfo` as plain values.
pub struct FileView {
    pub path: Seq<char>,
    pub size: u64,
    pub hash: Seq<char>,
}

impl View for FileInfo {
    type V = FileView;

    open spec fn view(&self) -> FileView {
        FileView { path: self.path@, size: self.size, hash: self.hash@ }
    }
}

/// The files of a list as plain values.
pub open spec fn file_views(files: Seq<FileInfo>) -> Seq<FileView> {
    files.map_values(|f: FileInfo| f@)
}

} // verus!
