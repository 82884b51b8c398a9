use vstd::prelude::*;

verus! {

/// How the store is configured.
#[derive(Clone)]
pub struct Options {
    /// The directory that holds the data files.
    pub dir_path: String,
    /// The size in bytes past which the active data file is rolled over.
    pub data_file_size: u64,
    /// Whether every write is synced to disk before it returns.
    pub sync_writes: bool,
    /// Which in-memory index to use.
    pub index_type: IndexType,
}

/// The kinds of in-memory index.
#[derive(Clone, Copy, Debug, PartialEq, Eq, Structural)]
pub enum IndexType {
    /// An ordered map keyed by byte string.
    Btree,
    /// A skip list.
    SkipList,
}

} // verus!
