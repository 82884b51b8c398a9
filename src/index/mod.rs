pub mod btree;
pub mod order;

use vstd::prelude::*;
use crate::data::log_record::LogRecordPos;
use crate::options::IndexType;
use crate::index::btree::Btree;

verus! {

/// The in-memory index: for each live key, the position of its latest record.
pub trait Indexer {
    /// The positions the index holds, by key.
    spec fn positions(&self) -> Map<Seq<u8>, LogRecordPos>;

    /// Whether the index's own structure is sound.
    spec fn well_formed(&self) -> bool;

    /// Stores `pos` for `key`, replacing what was there; returns whether it succeeded.
    fn put(&mut self, key: Vec<u8>, pos: LogRecordPos) -> (r: bool)
        requires
            old(self).well_formed(),
        ensures
            final(self).well_formed(),
            r ==> final(self).positions() == old(self).positions().insert(key@, pos),
            !r ==> final(self).positions() == old(self).positions(),
    ;

    /// The position stored for `key`, if any.
    fn get(&self, key: Vec<u8>) -> (r: Option<LogRecordPos>)
        requires
            self.well_formed(),
        ensures
            r == (if self.positions().contains_key(key@) {
                Some(self.positions()[key@])
            } else {
                None
            }),
    ;

    /// Removes `key`; returns whether it was there.
    fn delete(&mut self, key: Vec<u8>) -> (r: bool)
        requires
            old(self).well_formed(),
        ensures
            final(self).well_formed(),
            final(self).positions() == old(self).positions().remove(key@),
            r == old(self).positions().contains_key(key@),
    ;
}

/// An empty index of the given kind. The ordered map serves both kinds: they
/// keep the same contract, and nothing that the index answers depends on which.
pub fn new_indexer(index_type: IndexType) -> (r: Btree)
    ensures
        r.well_formed(),
        r.positions() == Map::<Seq<u8>, LogRecordPos>::empty(),
{
    match index_type {
        IndexType::Btree => Btree::new(),
        IndexType::SkipList => Btree::new(),
    }
}

} // verus!
