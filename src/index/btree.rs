use vstd::prelude::*;
use crate::data::log_record::LogRecordPos;
use crate::index::order::{
    bytes_lt, compare_bytes, lemma_bytes_lt_irreflexive, lemma_bytes_lt_transitive,
};
use crate::index::Indexer;

verus! {

/// The reference index: an ordered map from key to position, held as entries
/// in ascending byte-wise order of key.
pub struct Btree {
    entries: Vec<(Vec<u8>, LogRecordPos)>,
    map: Ghost<Map<Seq<u8>, LogRecordPos>>,
}

impl Btree {
    spec fn inv(&self) -> bool {
        &&& forall|i: int, j: int|
            0 <= i < j < self.entries@.len() ==> bytes_lt(
                (#[trigger] self.entries@[i]).0@,
                (#[trigger] self.entries@[j]).0@,
            )
        &&& forall|i: int|
            0 <= i < self.entries@.len() ==> self.map@.contains_key(
                (#[trigger] self.entries@[i]).0@,
            ) && self.map@[self.entries@[i].0@] == self.entries@[i].1
        &&& forall|k: Seq<u8>|
            #[trigger] self.map@.contains_key(k) ==> exists|i: int|
                0 <= i < self.entries@.len() && (#[trigger] self.entries@[i]).0@ == k
    }

    /// An empty index.
    pub fn new() -> (r: Btree)
        ensures
            r.well_formed(),
            r.positions() == Map::<Seq<u8>, LogRecordPos>::empty(),
    {
        Btree { entries: Vec::new(), map: Ghost(Map::empty()) }
    }

    /// Where `key` stands among the entries, or where it would go: every entry
    /// before that place has a smaller key.
    fn search(&self, key: &[u8]) -> (r: (usize, bool))
        requires
            self.inv(),
        ensures
            r.0 <= self.entries@.len(),
            forall|j: int| 0 <= j < r.0 ==> bytes_lt((#[trigger] self.entries@[j]).0@, key@),
            r.1 ==> r.0 < self.entries@.len() && self.entries@[r.0 as int].0@ == key@,
            !r.1 ==> !self.map@.contains_key(key@) && (r.0 < self.entries@.len() ==> bytes_lt(
                key@,
                self.entries@[r.0 as int].0@,
            )),
    {
        let mut i: usize = 0;
        while i < self.entries.len()
            invariant
                self.inv(),
                i <= self.entries@.len(),
                forall|j: int| 0 <= j < i ==> bytes_lt((#[trigger] self.entries@[j]).0@, key@),
            decreases self.entries@.len() - i,
        {
            let c = compare_bytes(self.entries[i].0.as_slice(), key);
            if c == 0 {
                return (i, true);
            }
            if c > 0 {
                proof {
                    self.lemma_absent(key@, i as int);
                }
                return (i, false);
            }
            i = i + 1;
        }
        proof {
            self.lemma_absent(key@, i as int);
        }
        (i, false)
    }

    /// A key smaller than every entry from `i` on, and larger than every entry
    /// before, is not in the index.
    proof fn lemma_absent(&self, key: Seq<u8>, i: int)
        requires
            self.inv(),
            0 <= i <= self.entries@.len(),
            forall|j: int| 0 <= j < i ==> bytes_lt((#[trigger] self.entries@[j]).0@, key),
            i < self.entries@.len() ==> bytes_lt(key, self.entries@[i].0@),
        ensures
            !self.map@.contains_key(key),
    {
        if self.map@.contains_key(key) {
            let j = choose|j: int| 0 <= j < self.entries@.len() && (#[trigger] self.entries@[j]).0@ == key;
            lemma_bytes_lt_irreflexive(key);
            if j > i {
                assert(bytes_lt(self.entries@[i].0@, self.entries@[j].0@));
                lemma_bytes_lt_transitive(key, self.entries@[i].0@, key);
            }
        }
    }
}

impl Indexer for Btree {
    closed spec fn positions(&self) -> Map<Seq<u8>, LogRecordPos> {
        self.map@
    }

    closed spec fn well_formed(&self) -> bool {
        self.inv()
    }

    fn put(&mut self, key: Vec<u8>, pos: LogRecordPos) -> (r: bool)
        ensures
            r,
    {
        let ghost k = key@;
        let ghost old_entries = self.entries@;
        let (i, found) = self.search(key.as_slice());
        if found {
            self.entries.set(i, (key, pos));
            proof {
                self.map@ = self.map@.insert(k, pos);
                assert forall|a: int, b: int| 0 <= a < b < self.entries@.len() implies bytes_lt(
                    (#[trigger] self.entries@[a]).0@,
                    (#[trigger] self.entries@[b]).0@,
                ) by {
                    assert(self.entries@[a].0@ == old_entries[a].0@);
                    assert(self.entries@[b].0@ == old_entries[b].0@);
                }
                assert forall|a: int| 0 <= a < self.entries@.len() implies self.map@.contains_key(
                    (#[trigger] self.entries@[a]).0@,
                ) && self.map@[self.entries@[a].0@] == self.entries@[a].1 by {
                    if a != i {
                        assert(bytes_lt(old_entries[a].0@, k) || bytes_lt(k, old_entries[a].0@)) by {
                            if a < i {
                                assert(bytes_lt(old_entries[a].0@, old_entries[i as int].0@));
                            } else {
                                assert(bytes_lt(old_entries[i as int].0@, old_entries[a].0@));
                            }
                        }
                        lemma_bytes_lt_irreflexive(k);
                    }
                }
                assert forall|k2: Seq<u8>| #[trigger] self.map@.contains_key(k2) implies exists|
                    j: int,
                | 0 <= j < self.entries@.len() && (#[trigger] self.entries@[j]).0@ == k2 by {
                    if k2 == k {
                        assert(self.entries@[i as int].0@ == k2);
                    } else {
                        let j0 = choose|j: int|
                            0 <= j < old_entries.len() && (#[trigger] old_entries[j]).0@ == k2;
                        assert(self.entries@[j0].0@ == k2);
                    }
                }
            }
        } else {
            self.entries.insert(i, (key, pos));
            proof {
                self.map@ = self.map@.insert(k, pos);
                assert(self.entries@[i as int].0@ == k);
                assert forall|a: int, b: int| 0 <= a < b < self.entries@.len() implies bytes_lt(
                    (#[trigger] self.entries@[a]).0@,
                    (#[trigger] self.entries@[b]).0@,
                ) by {
                    if b < i {
                        assert(self.entries@[a] == old_entries[a]);
                        assert(self.entries@[b] == old_entries[b]);
                    } else if b == i {
                        assert(self.entries@[a] == old_entries[a]);
                    } else if a > i {
                        assert(self.entries@[a] == old_entries[a - 1]);
                        assert(self.entries@[b] == old_entries[b - 1]);
                    } else if a == i {
                        assert(self.entries@[b] == old_entries[b - 1]);
                        if b - 1 > i {
                            assert(bytes_lt(old_entries[i as int].0@, old_entries[b - 1].0@));
                            lemma_bytes_lt_transitive(k, old_entries[i as int].0@, old_entries[b - 1].0@);
                        }
                    } else {
                        assert(self.entries@[a] == old_entries[a]);
                        assert(self.entries@[b] == old_entries[b - 1]);
                        assert(bytes_lt(old_entries[a].0@, k));
                        if b - 1 > i {
                            assert(bytes_lt(old_entries[i as int].0@, old_entries[b - 1].0@));
                            lemma_bytes_lt_transitive(k, old_entries[i as int].0@, old_entries[b - 1].0@);
                        }
                        lemma_bytes_lt_transitive(old_entries[a].0@, k, old_entries[b - 1].0@);
                    }
                }
                assert forall|a: int| 0 <= a < self.entries@.len() implies self.map@.contains_key(
                    (#[trigger] self.entries@[a]).0@,
                ) && self.map@[self.entries@[a].0@] == self.entries@[a].1 by {
                    if a < i {
                        assert(self.entries@[a] == old_entries[a]);
                        lemma_bytes_lt_irreflexive(k);
                    } else if a > i {
                        assert(self.entries@[a] == old_entries[a - 1]);
                        assert(!old(self).map@.contains_key(k));
                    }
                }
                assert forall|k2: Seq<u8>| #[trigger] self.map@.contains_key(k2) implies exists|
                    j: int,
                | 0 <= j < self.entries@.len() && (#[trigger] self.entries@[j]).0@ == k2 by {
                    if k2 == k {
                        assert(self.entries@[i as int].0@ == k2);
                    } else {
                        let j0 = choose|j: int|
                            0 <= j < old_entries.len() && (#[trigger] old_entries[j]).0@ == k2;
                        if j0 < i {
                            assert(self.entries@[j0].0@ == k2);
                        } else {
                            assert(self.entries@[j0 + 1].0@ == k2);
                        }
                    }
                }
            }
        }
        true
    }

    fn get(&self, key: Vec<u8>) -> (r: Option<LogRecordPos>) {
        let (i, found) = self.search(key.as_slice());
        if found {
            Some(self.entries[i].1)
        } else {
            None
        }
    }

    fn delete(&mut self, key: Vec<u8>) -> (r: bool) {
        let (i, found) = self.search(key.as_slice());
        if found {
            let ghost old_entries = self.entries@;
            self.entries.remove(i);
            proof {
                self.map@ = self.map@.remove(key@);
                assert forall|a: int, b: int| 0 <= a < b < self.entries@.len() implies bytes_lt(
                    (#[trigger] self.entries@[a]).0@,
                    (#[trigger] self.entries@[b]).0@,
                ) by {
                    let a0 = if a < i { a } else { a + 1 };
                    let b0 = if b < i { b } else { b + 1 };
                    assert(self.entries@[a] == old_entries[a0]);
                    assert(self.entries@[b] == old_entries[b0]);
                }
                assert forall|a: int| 0 <= a < self.entries@.len() implies self.map@.contains_key(
                    (#[trigger] self.entries@[a]).0@,
                ) && self.map@[self.entries@[a].0@] == self.entries@[a].1 by {
                    let a0 = if a < i { a } else { a + 1 };
                    assert(self.entries@[a] == old_entries[a0]);
                    lemma_bytes_lt_irreflexive(key@);
                    if a0 < i {
                        assert(bytes_lt(old_entries[a0].0@, old_entries[i as int].0@));
                    } else {
                        assert(bytes_lt(old_entries[i as int].0@, old_entries[a0].0@));
                    }
                }
                assert forall|k: Seq<u8>| #[trigger] self.map@.contains_key(k) implies exists|
                    j: int,
                | 0 <= j < self.entries@.len() && (#[trigger] self.entries@[j]).0@ == k by {
                    let j0 = choose|j: int|
                        0 <= j < old_entries.len() && (#[trigger] old_entries[j]).0@ == k;
                    if j0 < i {
                        assert(self.entries@[j0].0@ == k);
                    } else {
                        assert(self.entries@[j0 - 1].0@ == k);
                    }
                }
            }
            true
        } else {
            proof {
                assert(self.map@.remove(key@) =~= self.map@);
            }
            false
        }
    }
}

} // verus!
