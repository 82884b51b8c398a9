use vstd::prelude::*;
use vstd::slice::slice_to_vec;
use vstd::utf8::encode_utf8;
use crate::data::data_file::{DataFile, framed_at, readable_sizes, record_at};
use crate::data::log_record::{LogRecord, LogRecordPos, LogRecordType, fits_record, record_bytes};
use crate::errors::{Errors, Result};
use crate::fio::IOManager;
use crate::index::btree::Btree;
use crate::index::{Indexer, new_indexer};
use crate::names::{data_file_id, file_id_of_name, insert_sorted};
use crate::options::Options;
use crate::replay::{
    Entry, apply_entry, damaged_at, entry_bytes, entry_readable, lemma_log_bytes_push,
    lemma_log_first, lemma_record_at_embed, stops_clean, stops_damaged,
    files_stop_clean, files_stop_damaged, lemma_matches_clean, lemma_table_logs_clean,
    lemma_log_empty_of_empty, lemma_replay_files_push,
    table_logs, lemma_file_log,
    lemma_replay_append, log_bytes, log_readable,
    logs_after_append, replay, replay_files, table_matches,
};

verus! {

/// The number of the first data file of an empty directory.
pub const INITIAL_FILE_ID: u32 = 0;

/// What a read of `key` answers in a store whose live keys and values are `m`.
pub open spec fn lookup(m: Map<Seq<u8>, Seq<u8>>, key: Seq<u8>) -> Result<Seq<u8>> {
    if key.len() == 0 {
        Err(Errors::KeyIsEmpty)
    } else if m.contains_key(key) {
        Ok(m[key])
    } else {
        Err(Errors::KeyNotFound)
    }
}

/// A value stored under a non-empty key is what a read of that key then answers.
pub proof fn lemma_get_after_put(m: Map<Seq<u8>, Seq<u8>>, k: Seq<u8>, v: Seq<u8>)
    requires
        k.len() > 0,
    ensures
        lookup(m.insert(k, v), k) == Ok::<Seq<u8>, Errors>(v),
{
}

/// Of two values stored one after the other under the same key, a read answers the second.
pub proof fn lemma_get_after_overwrite(
    m: Map<Seq<u8>, Seq<u8>>,
    k: Seq<u8>,
    v1: Seq<u8>,
    v2: Seq<u8>,
)
    requires
        k.len() > 0,
    ensures
        lookup(m.insert(k, v1).insert(k, v2), k) == Ok::<Seq<u8>, Errors>(v2),
{
}

/// A key that was stored and then removed is not found.
pub proof fn lemma_get_after_delete(m: Map<Seq<u8>, Seq<u8>>, k: Seq<u8>, v: Seq<u8>)
    requires
        k.len() > 0,
    ensures
        lookup(m.insert(k, v).remove(k), k) == Err::<Seq<u8>, Errors>(Errors::KeyNotFound),
{
}

/// Removing a key that is not there leaves every read as it was.
pub proof fn lemma_delete_absent(m: Map<Seq<u8>, Seq<u8>>, k: Seq<u8>)
    requires
        !m.contains_key(k),
    ensures
        m.remove(k) == m,
        forall|q: Seq<u8>| #[trigger] lookup(m.remove(k), q) == lookup(m, q),
{
    assert(m.remove(k) =~= m);
}

/// Closing a store whose files hold exactly its records and opening those files
/// again gives back the same keys and values: `close` hands over the files as
/// they are, and opening files that hold whole records rebuilds their replay.
pub proof fn lemma_reopen_keeps_contents<IO: IOManager>(
    before: Engine<IO>,
    files: Seq<DataFile<IO>>,
    after: Engine<IO>,
    logs: Seq<Seq<Entry>>,
)
    requires
        before.holds_logs(logs),
        files_table(files) == before.file_table(),
        forall|l: Seq<Seq<Entry>>|
            files.len() > 0 && #[trigger] table_matches(files_table(files), l) ==> after.holds_logs(l),
    ensures
        after@ == before@,
        after.holds_logs(logs),
{
    before.lemma_file_table();
    assert(files.len() == files_table(files).len());
}

/// Opening the same files twice, where each holds records and then ends or
/// looks blank, gives the same keys and values both times: each open rebuilds
/// the replay of those records.
pub proof fn lemma_open_twice_same<IO: IOManager>(
    files_a: Seq<DataFile<IO>>,
    files_b: Seq<DataFile<IO>>,
    first: Engine<IO>,
    second: Engine<IO>,
    logs: Seq<Seq<Entry>>,
)
    requires
        files_table(files_a) == files_table(files_b),
        files_stop_clean(files_table(files_a), logs),
        forall|l: Seq<Seq<Entry>>|
            #[trigger] files_stop_clean(files_table(files_a), l) ==> first@ == replay_files(
                Map::<Seq<u8>, Seq<u8>>::empty(),
                l,
            ),
        forall|l: Seq<Seq<Entry>>|
            #[trigger] files_stop_clean(files_table(files_b), l) ==> second@ == replay_files(
                Map::<Seq<u8>, Seq<u8>>::empty(),
                l,
            ),
    ensures
        first@ == second@,
{
    assert(first@ == replay_files(Map::<Seq<u8>, Seq<u8>>::empty(), logs));
    assert(second@ == replay_files(Map::<Seq<u8>, Seq<u8>>::empty(), logs));
}

/// What is wrong with a configuration, if anything.
pub open spec fn options_error(opts: Options) -> Option<Errors> {
    if opts.dir_path@.len() == 0 {
        Some(Errors::DirPathIsEmpty)
    } else if opts.data_file_size == 0 {
        Some(Errors::DataFileSizeTooSmall)
    } else {
        None
    }
}

/// Whether `files`, pairs of a file number and the file's bytes, hold at `pos`
/// a record of kind `t` with key `k` and value `v`.
pub open spec fn table_holds(
    files: Seq<(u32, Seq<u8>)>,
    pos: LogRecordPos,
    t: LogRecordType,
    k: Seq<u8>,
    v: Seq<u8>,
) -> bool {
    exists|i: int|
        0 <= i < files.len() && (#[trigger] files[i]).0 == pos.file_id && record_at(
            files[i].1,
            pos.offset as int,
            t,
            k,
            v,
        )
}

/// The files after `bytes` are appended: to the last file, or, where the store
/// `rolled` over, to a fresh file numbered one past it.
pub open spec fn table_after_append(table: Seq<(u32, Seq<u8>)>, rolled: bool, bytes: Seq<u8>) -> Seq<
    (u32, Seq<u8>),
> {
    if rolled {
        table.push(((table.last().0 + 1) as u32, bytes))
    } else {
        table.update(table.len() - 1, (table.last().0, table.last().1 + bytes))
    }
}

/// The data files `files` as pairs of number and bytes.
pub open spec fn files_table<IO: IOManager>(files: Seq<DataFile<IO>>) -> Seq<(u32, Seq<u8>)> {
    files.map_values(|f: DataFile<IO>| (f.id(), f.content()))
}

/// Files that hold exactly their records still do after one more record is appended.
proof fn lemma_append_keeps_logs(
    table: Seq<(u32, Seq<u8>)>,
    logs: Seq<Seq<Entry>>,
    rolled: bool,
    e: Entry,
)
    requires
        table_matches(table, logs),
        table.len() > 0,
        entry_readable(e),
    ensures
        table_matches(
            table_after_append(table, rolled, entry_bytes(e)),
            logs_after_append(logs, rolled, e),
        ),
{
    let t2 = table_after_append(table, rolled, entry_bytes(e));
    let l2 = logs_after_append(logs, rolled, e);
    let last = table.len() - 1;
    lemma_log_bytes_push(Seq::<Entry>::empty(), e);
    assert(Seq::<Entry>::empty().push(e) =~= seq![e]);
    lemma_log_bytes_push(logs[last], e);
    assert(logs.last() == logs[last]);
    assert forall|i: int| 0 <= i < t2.len() implies (#[trigger] t2[i]).1 == log_bytes(l2[i])
        && log_readable(l2[i]) by {
        if i < last || (rolled && i == last) {
            assert(t2[i] == table[i]);
            assert(l2[i] == logs[i]);
        } else if rolled {
            assert(l2[i] == seq![e]);
            assert(t2[i].1 == entry_bytes(e));
            assert(log_bytes(seq![e]) =~= entry_bytes(e));
        } else {
            assert(log_readable(logs[last]));
            assert(l2[i] == logs[last].push(e));
            assert forall|j: int| 0 <= j < l2[i].len() implies entry_readable(#[trigger] l2[i][j]) by {
                if j < logs[last].len() {
                    assert(l2[i][j] == logs[last][j]);
                }
            }
        }
    }
}

/// Whether the `k`-th file of `table` is the first that ends in a damaged
/// record, the earlier ones ending cleanly, with `logs` the records of each.
pub open spec fn damaged_index(table: Seq<(u32, Seq<u8>)>, logs: Seq<Seq<Entry>>, k: int) -> bool {
    &&& 0 <= k < table.len()
    &&& forall|j: int| 0 <= j < k ==> stops_clean(table[j].1, #[trigger] logs[j])
    &&& stops_damaged(table[k].1, logs[k])
}

/// Where the files end in a damaged record after clean ones, the file log of
/// each of them is that record list, and the damaged one is the first such.
proof fn lemma_damaged_index(table: Seq<(u32, Seq<u8>)>, l: Seq<Seq<Entry>>)
    requires
        files_stop_damaged(table, l),
    ensures
        damaged_index(table, table_logs(table), l.len() - 1),
{
    let logs = table_logs(table);
    let k = l.len() - 1;
    assert forall|j: int| 0 <= j < k implies stops_clean(table[j].1, #[trigger] logs[j]) by {
        assert(stops_clean(table[j].1, l[j]));
        lemma_file_log(table[j].1, l[j]);
    }
    lemma_file_log(table[k].1, l[k]);
}

/// Whether, for each live key, the files `table` hold at its position a valid
/// record of that key and its value.
pub open spec fn entries_hold(
    table: Seq<(u32, Seq<u8>)>,
    positions: Map<Seq<u8>, LogRecordPos>,
    live: Map<Seq<u8>, Seq<u8>>,
) -> bool {
    forall|k: Seq<u8>|
        #[trigger] live.contains_key(k) ==> readable_sizes(k.len(), live[k].len()) && table_holds(
            table,
            positions[k],
            LogRecordType::NORMAL,
            k,
            live[k],
        )
}

/// Storing a key whose record stands at `pos` keeps every entry valid.
proof fn lemma_entries_hold_insert(
    table: Seq<(u32, Seq<u8>)>,
    positions: Map<Seq<u8>, LogRecordPos>,
    live: Map<Seq<u8>, Seq<u8>>,
    k: Seq<u8>,
    pos: LogRecordPos,
    v: Seq<u8>,
)
    requires
        entries_hold(table, positions, live),
        readable_sizes(k.len(), v.len()),
        table_holds(table, pos, LogRecordType::NORMAL, k, v),
    ensures
        entries_hold(table, positions.insert(k, pos), live.insert(k, v)),
{
    assert forall|k2: Seq<u8>| #[trigger] live.insert(k, v).contains_key(k2) implies readable_sizes(
        k2.len(),
        live.insert(k, v)[k2].len(),
    ) && table_holds(table, positions.insert(k, pos)[k2], LogRecordType::NORMAL, k2, live.insert(k, v)[k2]) by {
        if k2 != k {
            assert(live.contains_key(k2));
        }
    }
}

/// Removing a key keeps every other entry valid.
proof fn lemma_entries_hold_remove(
    table: Seq<(u32, Seq<u8>)>,
    positions: Map<Seq<u8>, LogRecordPos>,
    live: Map<Seq<u8>, Seq<u8>>,
    k: Seq<u8>,
)
    requires
        entries_hold(table, positions, live),
    ensures
        entries_hold(table, positions.remove(k), live.remove(k)),
{
    assert forall|k2: Seq<u8>| #[trigger] live.remove(k).contains_key(k2) implies readable_sizes(
        k2.len(),
        live.remove(k)[k2].len(),
    ) && table_holds(table, positions.remove(k)[k2], LogRecordType::NORMAL, k2, live.remove(k)[k2]) by {
        assert(live.contains_key(k2));
    }
}

/// Entries stay valid when the records they point at stay in place.
proof fn lemma_entries_hold_grow(
    a: Seq<(u32, Seq<u8>)>,
    b: Seq<(u32, Seq<u8>)>,
    positions: Map<Seq<u8>, LogRecordPos>,
    live: Map<Seq<u8>, Seq<u8>>,
)
    requires
        entries_hold(a, positions, live),
        forall|pos: LogRecordPos, t: LogRecordType, k: Seq<u8>, v: Seq<u8>|
            #[trigger] table_holds(a, pos, t, k, v) ==> table_holds(b, pos, t, k, v),
    ensures
        entries_hold(b, positions, live),
{
    assert forall|k: Seq<u8>| #[trigger] live.contains_key(k) implies readable_sizes(
        k.len(),
        live[k].len(),
    ) && table_holds(b, positions[k], LogRecordType::NORMAL, k, live[k]) by {
        assert(table_holds(a, positions[k], LogRecordType::NORMAL, k, live[k]));
    }
}

/// A record stays where it is when bytes are appended behind it.
proof fn lemma_record_at_prefix(
    c: Seq<u8>,
    d: Seq<u8>,
    off: int,
    t: LogRecordType,
    k: Seq<u8>,
    v: Seq<u8>,
)
    requires
        record_at(c, off, t, k, v),
        c.is_prefix_of(d),
    ensures
        record_at(d, off, t, k, v),
{
    let b = record_bytes(t, k, v);
    assert(d.subrange(off, off + b.len()) =~= c.subrange(off, off + b.len()));
}

/// Records stay where they are when files are appended to or added behind.
proof fn lemma_table_grows(a: Seq<(u32, Seq<u8>)>, b: Seq<(u32, Seq<u8>)>)
    requires
        a.len() <= b.len(),
        forall|i: int|
            0 <= i < a.len() ==> (#[trigger] b[i]).0 == a[i].0 && a[i].1.is_prefix_of(b[i].1),
    ensures
        forall|pos: LogRecordPos, t: LogRecordType, k: Seq<u8>, v: Seq<u8>|
            #[trigger] table_holds(a, pos, t, k, v) ==> table_holds(b, pos, t, k, v),
{
    assert forall|pos: LogRecordPos, t: LogRecordType, k: Seq<u8>, v: Seq<u8>|
        #[trigger] table_holds(a, pos, t, k, v) implies table_holds(b, pos, t, k, v) by {
        let i = choose|i: int|
            0 <= i < a.len() && (#[trigger] a[i]).0 == pos.file_id && record_at(
                a[i].1,
                pos.offset as int,
                t,
                k,
                v,
            );
        lemma_record_at_prefix(a[i].1, b[i].1, pos.offset as int, t, k, v);
        assert(b[i].0 == pos.file_id);
    }
}

/// Tells whether a configuration can be used; see `options_error`.
pub fn check_options(opts: &Options) -> (r: Option<Errors>)
    ensures
        r == options_error(*opts),
{
    if opts.dir_path.as_str().is_empty() {
        return Some(Errors::DirPathIsEmpty);
    }
    if opts.data_file_size == 0 {
        return Some(Errors::DataFileSizeTooSmall);
    }
    None
}

/// Whether some entry of the directory listing `names` is a data file's name
/// whose stem is not a decimal `u32`.
pub open spec fn listing_corrupted(names: Seq<String>) -> bool {
    exists|i: int|
        0 <= i < names.len() && #[trigger] file_id_of_name(encode_utf8(names[i]@)) == Some(
            Err::<u32, Errors>(Errors::DataDirectoryCorrupted),
        )
}

/// Whether the directory listing `names` names the data file numbered `id`.
pub open spec fn listing_names(names: Seq<String>, id: u32) -> bool {
    exists|i: int|
        0 <= i < names.len() && #[trigger] file_id_of_name(encode_utf8(names[i]@)) == Some(
            Ok::<u32, Errors>(id),
        )
}

/// Whether `files` are the data files that the listing `names` names, each
/// once, in ascending order of number.
pub open spec fn files_as_listed<IO: IOManager>(files: Seq<DataFile<IO>>, names: Seq<String>) -> bool {
    &&& forall|i: int, j: int|
        0 <= i < j < files.len() ==> (#[trigger] files[i]).id() < (#[trigger] files[j]).id()
    &&& forall|id: u32|
        listing_names(names, id) <==> exists|i: int| 0 <= i < files.len() && (#[trigger] files[i]).id() == id
}

/// Opens, in ascending order of number, each data file that the directory
/// listing `names` of `dir_path` holds; entries that are not data files are
/// passed over.
pub fn load_data_files<IO: IOManager>(dir_path: &str, names: &Vec<String>) -> (r: Result<
    Vec<DataFile<IO>>,
>)
    ensures
        r == Err::<Vec<DataFile<IO>>, Errors>(Errors::DataDirectoryCorrupted) <==> listing_corrupted(
            names@,
        ),
        !listing_corrupted(names@) && (forall|id: u32| !listing_names(names@, id)) ==> r is Ok
            && r->Ok_0@.len() == 0,
        match r {
            Ok(files) => {
                &&& files_as_listed(files@, names@)
                &&& forall|i: int| 0 <= i < files@.len() ==> (#[trigger] files@[i]).spec_write_off() == 0
            },
            Err(e) => e == Errors::DataDirectoryCorrupted || e == Errors::FailedToOpenDataFile,
        },
{
    let mut file_ids: Vec<u32> = Vec::new();
    let mut i: usize = 0;
    while i < names.len()
        invariant
            i <= names@.len(),
            forall|a: int, b: int| 0 <= a < b < file_ids@.len() ==> file_ids@[a] < file_ids@[b],
            forall|id: u32|
                file_ids@.to_set().contains(id) <==> exists|j: int|
                    0 <= j < i && #[trigger] file_id_of_name(encode_utf8(names@[j]@)) == Some(
                        Ok::<u32, Errors>(id),
                    ),
            forall|j: int|
                0 <= j < i ==> #[trigger] file_id_of_name(encode_utf8(names@[j]@)) != Some(
                    Err::<u32, Errors>(Errors::DataDirectoryCorrupted),
                ),
        decreases names@.len() - i,
    {
        let ghost before = file_ids@;
        match data_file_id(names[i].as_str()) {
            None => {},
            Some(Ok(id)) => {
                insert_sorted(&mut file_ids, id);
            },
            Some(Err(e)) => {
                return Err(Errors::DataDirectoryCorrupted);
            },
        }
        proof {
            assert forall|id: u32|
                (exists|j: int|
                    0 <= j < i + 1 && #[trigger] file_id_of_name(encode_utf8(names@[j]@)) == Some(
                        Ok::<u32, Errors>(id),
                    )) implies file_ids@.to_set().contains(id) by {
                let j = choose|j: int|
                    0 <= j < i + 1 && #[trigger] file_id_of_name(encode_utf8(names@[j]@)) == Some(
                        Ok::<u32, Errors>(id),
                    );
                if j < i {
                    assert(before.to_set().contains(id));
                }
            }
        }
        i = i + 1;
    }
    assert(!listing_corrupted(names@));
    assert forall|id: u32| file_ids@.to_set().contains(id) <==> listing_names(names@, id) by {
        if file_ids@.to_set().contains(id) {
            let j = choose|j: int|
                0 <= j < names@.len() && #[trigger] file_id_of_name(encode_utf8(names@[j]@)) == Some(
                    Ok::<u32, Errors>(id),
                );
        }
    }
    proof {
        if file_ids@.len() > 0 {
            assert(file_ids@.to_set().contains(file_ids@[0]));
            assert(listing_names(names@, file_ids@[0]));
        }
    }
    let mut data_files: Vec<DataFile<IO>> = Vec::new();
    let mut i: usize = 0;
    while i < file_ids.len()
        invariant
            !listing_corrupted(names@),
            forall|a: int, b: int| 0 <= a < b < file_ids@.len() ==> file_ids@[a] < file_ids@[b],
            forall|id: u32| file_ids@.to_set().contains(id) <==> listing_names(names@, id),
            i <= file_ids@.len(),
            data_files@.len() == i,
            forall|j: int| 0 <= j < i ==> (#[trigger] data_files@[j]).id() == file_ids@[j],
            forall|j: int| 0 <= j < i ==> (#[trigger] data_files@[j]).spec_write_off() == 0,
            (forall|id: u32| !listing_names(names@, id)) ==> file_ids@.len() == 0,
        decreases file_ids@.len() - i,
    {
        let data_file = match DataFile::new(dir_path, file_ids[i]) {
            Ok(f) => f,
            Err(e) => {
                return Err(e);
            },
        };
        data_files.push(data_file);
        i = i + 1;
    }
    proof {
        assert forall|a: int, b: int| 0 <= a < b < data_files@.len() implies (#[trigger] data_files@[a]).id() < (
        #[trigger] data_files@[b]).id() by {
            assert(file_ids@[a] < file_ids@[b]);
        }
        assert forall|id: u32|
            listing_names(names@, id) <==> exists|k: int|
                0 <= k < data_files@.len() && (#[trigger] data_files@[k]).id() == id by {
            if listing_names(names@, id) {
                assert(file_ids@.to_set().contains(id));
                assert(file_ids@.contains(id));
                let k = choose|k: int| 0 <= k < file_ids@.len() && file_ids@[k] == id;
                assert(data_files@[k].id() == id);
            }
            if exists|k: int| 0 <= k < data_files@.len() && (#[trigger] data_files@[k]).id() == id {
                let k = choose|k: int| 0 <= k < data_files@.len() && (#[trigger] data_files@[k]).id() == id;
                assert(file_ids@[k] == id);
                assert(file_ids@.contains(id));
                assert(file_ids@.to_set().contains(id));
            }
        }
    }
    assert(files_as_listed(data_files@, names@));
    Ok(data_files)
}

/// The store: the active data file that takes appends, the older data files
/// in ascending order of number, and the index of the live keys.
pub struct Engine<IO> {
    options: Options,
    active_file: DataFile<IO>,
    older_files: Vec<DataFile<IO>>,
    index: Btree,
    file_ids: Vec<u32>,
    live: Ghost<Map<Seq<u8>, Seq<u8>>>,
}

impl<IO: IOManager> View for Engine<IO> {
    type V = Map<Seq<u8>, Seq<u8>>;

    /// The live keys, each with its latest value.
    closed spec fn view(&self) -> Map<Seq<u8>, Seq<u8>> {
        self.live@
    }
}

impl<IO: IOManager> Engine<IO> {
    /// The data files as pairs of number and bytes, older files first, the active file last.
    pub closed spec fn file_table(&self) -> Seq<(u32, Seq<u8>)> {
        self.older_files@.map_values(|f: DataFile<IO>| (f.id(), f.content())).push(
            (self.active_file.id(), self.active_file.content()),
        )
    }

    /// The number of the active data file.
    pub closed spec fn active_id(&self) -> u32 {
        self.active_file.id()
    }

    /// The numbers of the older data files, in ascending order.
    pub closed spec fn older_ids(&self) -> Seq<u32> {
        self.older_files@.map_values(|f: DataFile<IO>| f.id())
    }

    /// The length of the active data file.
    pub closed spec fn active_len(&self) -> nat {
        self.active_file.content().len()
    }

    /// The configuration the store was opened with.
    pub closed spec fn spec_options(&self) -> Options {
        self.options
    }

    closed spec fn files_wf(&self) -> bool {
        &&& self.active_file.spec_write_off() == self.active_file.content().len()
        &&& forall|i: int, j: int|
            0 <= i < j < self.older_files@.len() ==> (#[trigger] self.older_files@[i]).id() < (
            #[trigger] self.older_files@[j]).id()
        &&& forall|i: int|
            0 <= i < self.older_files@.len() ==> (#[trigger] self.older_files@[i]).id()
                < self.active_file.id()
    }

    closed spec fn index_wf(&self) -> bool {
        &&& self.index.well_formed()
        &&& self.index.positions().dom() == self.live@.dom()
        &&& entries_hold(self.file_table(), self.index.positions(), self.live@)
    }

    /// Whether the store's files hold exactly the records `logs`, file by file,
    /// and its live keys are what replaying them gives.
    pub closed spec fn holds_logs(&self, logs: Seq<Seq<Entry>>) -> bool {
        table_matches(self.file_table(), logs) && self.live@ == replay_files(
            Map::<Seq<u8>, Seq<u8>>::empty(),
            logs,
        )
    }

    /// Whether the store's state is sound: the active file's write offset is its
    /// length, the files are numbered in ascending order, and the index holds, for
    /// each live key, where its latest record stands.
    pub closed spec fn wf(&self) -> bool {
        self.files_wf() && self.index_wf()
    }

    /// The active file is the last entry of the file table, and its length is
    /// where the next record goes.
    pub proof fn lemma_active_is_last(&self)
        ensures
            self.file_table().last() == (self.active_id(), self.file_table().last().1),
            self.active_len() == self.file_table().last().1.len(),
    {
        self.lemma_file_table();
    }

    proof fn lemma_file_table(&self)
        ensures
            self.file_table().len() == self.older_files@.len() + 1,
            forall|i: int|
                0 <= i < self.older_files@.len() ==> #[trigger] self.file_table()[i] == (
                self.older_files@[i].id(),
                self.older_files@[i].content(),
            ),
            self.file_table()[self.older_files@.len() as int] == (
                self.active_file.id(),
                self.active_file.content(),
            ),
    {
    }

    /// Whether the store is ready to have its index rebuilt from its files: the
    /// files are numbered in ascending order and the index is sound.
    pub closed spec fn loadable(&self) -> bool {
        &&& forall|i: int, j: int|
            0 <= i < j < self.older_files@.len() ==> (#[trigger] self.older_files@[i]).id() < (
            #[trigger] self.older_files@[j]).id()
        &&& forall|i: int|
            0 <= i < self.older_files@.len() ==> (#[trigger] self.older_files@[i]).id()
                < self.active_file.id()
        &&& self.index_wf()
    }

    /// Replays the records of the `i`-th data file (the active file where `i`
    /// is the number of older files) into the index, up to the end of the
    /// file's records; returns where they end.
    fn replay_file(&mut self, i: usize, log: Ghost<Seq<Entry>>) -> (r: Result<u64>)
        requires
            old(self).loadable(),
            i <= old(self).older_files@.len(),
        ensures
            old(self).file_table()[i as int].1 == log_bytes(log@) && log_readable(log@) ==> (r is Ok
                ==> r->Ok_0 == old(self).file_table()[i as int].1.len() && final(self).live@
                == replay(old(self).live@, log@)),
            old(self).file_table()[i as int].1 == log_bytes(log@) && log_readable(log@) ==> (r is Ok
                || r == Err::<u64, Errors>(Errors::FailedReadFromDataFile)),
            stops_clean(old(self).file_table()[i as int].1, log@) ==> (r is Ok || r == Err::<
                u64,
                Errors,
            >(Errors::FailedReadFromDataFile)) && (r is Ok ==> r->Ok_0 == log_bytes(log@).len()
                && final(self).live@ == replay(old(self).live@, log@)),
            stops_damaged(old(self).file_table()[i as int].1, log@) ==> r == Err::<u64, Errors>(
                Errors::InvalidLogRecordCrc,
            ) || r == Err::<u64, Errors>(Errors::FailedReadFromDataFile),
            final(self).loadable(),
            final(self).options == old(self).options,
            final(self).active_file == old(self).active_file,
            final(self).older_files == old(self).older_files,
            final(self).file_ids == old(self).file_ids,
            match r {
                Ok(end) => end <= old(self).file_table()[i as int].1.len(),
                Err(e) => e == Errors::InvalidLogRecordCrc || e == Errors::FailedReadFromDataFile,
            },
    {
        proof {
            self.lemma_file_table();
        }
        let n = self.older_files.len();
        let ghost table = self.file_table();
        let (file_len, fid) = if i < n {
            (self.older_files[i].file_size(), self.older_files[i].get_file_id())
        } else {
            (self.active_file.file_size(), self.active_file.get_file_id())
        };
        let mut offset: u64 = 0;
        let ghost content = table[i as int].1;
        let ghost exact = content == log_bytes(log@) && log_readable(log@);
        let ghost pre = stops_clean(content, log@) || stops_damaged(content, log@);
        let ghost live0 = self.live@;
        let ghost mut rest = log@;
        proof {
            if exact {
                assert(log_bytes(log@) =~= content.subrange(0, log_bytes(log@).len() as int));
                assert(stops_clean(content, log@));
            }
        }
        loop
            invariant
                self.loadable(),
                self.options == old(self).options,
                self.active_file == old(self).active_file,
                self.older_files == old(self).older_files,
                self.file_ids == old(self).file_ids,
                n == self.older_files@.len(),
                i <= n,
                table == self.file_table(),
                table == old(self).file_table(),
                content == table[i as int].1,
                exact == (content == log_bytes(log@) && log_readable(log@)),
                pre == (stops_clean(content, log@) || stops_damaged(content, log@)),
                exact ==> stops_clean(content, log@),
                live0 == old(self).live@,
                table.len() == n + 1,
                table[i as int].0 == fid,
                table[i as int].1.len() == file_len,
                i < n ==> self.older_files@[i as int].content() == table[i as int].1,
                i == n ==> self.active_file.content() == table[i as int].1,
                offset <= file_len,
                pre ==> offset + log_bytes(rest).len() == log_bytes(log@).len() && content.subrange(
                    offset as int,
                    offset + log_bytes(rest).len(),
                ) == log_bytes(rest) && log_readable(rest) && replay(self.live@, rest) == replay(
                    live0,
                    log@,
                ),
            decreases file_len - offset,
        {
            proof {
                if pre && rest.len() > 0 {
                    lemma_log_first(rest);
                    assert(crate::replay::entry_readable(rest[0]));
                    lemma_record_at_embed(content, offset as int, log_bytes(rest), rest[0]);
                }
                if pre && rest.len() == 0 && stops_damaged(content, log@) {
                    let (t0, ks0, vs0) = choose|t: u8, ks: nat, vs: nat|
                        #[trigger] framed_at(content, offset as int, t, ks, vs);
                    assert(framed_at(content, offset as int, t0, ks0, vs0));
                }
            }
            let read = if i < n {
                self.older_files[i].read_log_record(offset)
            } else {
                self.active_file.read_log_record(offset)
            };
            let rr = match read {
                Ok(rr) => rr,
                Err(e) => {
                    if e == Errors::ReadDataFileEOF {
                        proof {
                            if pre {
                                assert(rest.len() == 0);
                                assert(replay(self.live@, rest) == self.live@);
                            }
                        }
                        return Ok(offset);
                    }
                    return Err(e);
                },
            };
            proof {
                if pre && rest.len() == 0 {
                    assert(record_at(content, offset as int, rr.record.rec_type, rr.record.key@, rr.record.value@));
                    assert(!damaged_at(content, offset as int));
                    assert(false);
                }
            }
            let pos = LogRecordPos { file_id: fid, offset };
            let size = rr.size;
            let ghost k = rr.record.key@;
            let ghost v = rr.record.value@;
            let ghost before = *self;
            proof {
                assert(table_holds(table, pos, rr.record.rec_type, k, v)) by {
                    assert(table[i as int].0 == pos.file_id);
                }
            }
            if rr.record.rec_type == LogRecordType::NORMAL {
                self.index.put(rr.record.key, pos);
                proof {
                    self.live@ = self.live@.insert(k, v);
                }
            } else {
                self.index.delete(rr.record.key);
                proof {
                    self.live@ = self.live@.remove(k);
                }
            }
            proof {
                assert(self.index.positions().dom() =~= self.live@.dom());
                if rr.record.rec_type == LogRecordType::NORMAL {
                    lemma_entries_hold_insert(table, before.index.positions(), before.live@, k, pos, v);
                } else {
                    lemma_entries_hold_remove(table, before.index.positions(), before.live@, k);
                }
            }
            proof {
                if pre {
                    let e0 = rest[0];
                    assert(e0 == (rr.record.rec_type, k, v));
                    assert(self.live@ == apply_entry(before.live@, e0));
                    let lb = log_bytes(rest);
                    let c = content.subrange(offset as int, offset + lb.len());
                    assert(content.subrange(offset + size, offset + lb.len()) =~= c.subrange(
                        entry_bytes(e0).len() as int,
                        c.len() as int,
                    ));
                    assert(log_readable(rest.drop_first())) by {
                        assert forall|j: int| 0 <= j < rest.drop_first().len() implies crate::replay::entry_readable(
                            #[trigger] rest.drop_first()[j],
                        ) by {
                            assert(rest.drop_first()[j] == rest[j + 1]);
                        }
                    }
                    rest = rest.drop_first();
                }
            }
            offset = offset + size as u64;
        }
    }

    /// Rebuilds the index from the data files, oldest first, so that the
    /// latest record of each key decides; the active file then takes appends
    /// after its last record. Where the active file holds bytes past its last
    /// record, appends go to a fresh file instead.
    pub fn load_index_from_data_files(&mut self) -> (r: Result<()>)
        requires
            old(self).loadable(),
        ensures
            final(self).spec_options() == old(self).spec_options(),
            r is Ok ==> final(self).active_id() == old(self).active_id() && final(self).older_ids()
                == old(self).older_ids() || final(self).active_id() == old(self).active_id() + 1
                && final(self).older_ids() == old(self).older_ids().push(old(self).active_id()),
            match r {
                Ok(()) => final(self).wf(),
                Err(e) => e == Errors::InvalidLogRecordCrc || e == Errors::FailedReadFromDataFile
                    || e == Errors::FailedToSyncDataFile || e == Errors::FailedToOpenDataFile,
            },
            forall|logs: Seq<Seq<Entry>>|
                #[trigger] table_matches(old(self).file_table(), logs) && old(self)@ == Map::<
                    Seq<u8>,
                    Seq<u8>,
                >::empty() ==> (r is Ok ==> final(self).holds_logs(logs) && final(self).file_table()
                    == old(self).file_table()),
            forall|logs: Seq<Seq<Entry>>|
                #[trigger] table_matches(old(self).file_table(), logs) && old(self)@ == Map::<
                    Seq<u8>,
                    Seq<u8>,
                >::empty() ==> r is Ok || r == Err::<(), Errors>(Errors::FailedReadFromDataFile),
            forall|logs: Seq<Seq<Entry>>|
                #[trigger] files_stop_clean(old(self).file_table(), logs) && old(self)@ == Map::<
                    Seq<u8>,
                    Seq<u8>,
                >::empty() ==> (r is Ok ==> final(self)@ == replay_files(
                    Map::<Seq<u8>, Seq<u8>>::empty(),
                    logs,
                )) && (r is Ok || r == Err::<(), Errors>(Errors::FailedReadFromDataFile) || r
                    == Err::<(), Errors>(Errors::FailedToSyncDataFile) || r == Err::<(), Errors>(
                    Errors::FailedToOpenDataFile,
                )),
            forall|logs: Seq<Seq<Entry>>|
                #[trigger] files_stop_damaged(old(self).file_table(), logs) ==> r == Err::<
                    (),
                    Errors,
                >(Errors::InvalidLogRecordCrc) || r == Err::<(), Errors>(
                    Errors::FailedReadFromDataFile,
                ),
            forall|logs: Seq<Seq<Entry>>|
                #[trigger] files_stop_clean(final(self).file_table(), logs) && old(self)@ == Map::<
                    Seq<u8>,
                    Seq<u8>,
                >::empty() && r is Ok ==> final(self)@ == replay_files(
                    Map::<Seq<u8>, Seq<u8>>::empty(),
                    logs,
                ),
    {
        let n = self.older_files.len();
        let ghost table = self.file_table();
        let ghost logs = table_logs(table);
        let ghost exact = files_stop_clean(table, logs) && self.live@ == Map::<Seq<u8>, Seq<u8>>::empty();
        proof {
            self.lemma_file_table();
            assert(logs.subrange(0, logs.len() as int) =~= logs);
        }
        let mut i: usize = 0;
        while i < n
            invariant
                self.loadable(),
                self.options == old(self).options,
                n == self.older_files@.len(),
                i <= n,
                table == self.file_table(),
                table == old(self).file_table(),
                table.len() == n + 1,
                logs == table_logs(table),
                forall|k: int| #[trigger] damaged_index(table, logs, k) ==> i <= k,
                self.active_file == old(self).active_file,
                self.older_files == old(self).older_files,
                exact == (files_stop_clean(table, logs) && old(self).live@ == Map::<
                    Seq<u8>,
                    Seq<u8>,
                >::empty()),
                exact ==> files_stop_clean(table, logs) && replay_files(
                    self.live@,
                    logs.subrange(i as int, logs.len() as int),
                ) == replay_files(Map::<Seq<u8>, Seq<u8>>::empty(), logs),
            decreases n - i,
        {
            match self.replay_file(i, Ghost(logs[i as int])) {
                Ok(_) => {},
                Err(e) => {
                    proof {
                        assert forall|l: Seq<Seq<Entry>>|
                            #[trigger] table_matches(table, l) && old(self)@ == Map::<Seq<u8>, Seq<u8>>::empty()
                            implies e == Errors::FailedReadFromDataFile by {
                            lemma_matches_clean(table, l);
                            lemma_table_logs_clean(table, l);
                            assert(exact);
                            assert(stops_clean(table[i as int].1, logs[i as int]));
                        }
                    }
                    proof {
                        assert forall|l: Seq<Seq<Entry>>|
                            #[trigger] files_stop_clean(table, l) && old(self)@ == Map::<Seq<u8>, Seq<u8>>::empty()
                            implies e == Errors::FailedReadFromDataFile by {
                            lemma_table_logs_clean(table, l);
                            assert(stops_clean(table[i as int].1, logs[i as int]));
                        }
                        assert forall|l: Seq<Seq<Entry>>| #[trigger] files_stop_damaged(table, l) implies e
                            == Errors::InvalidLogRecordCrc || e == Errors::FailedReadFromDataFile by {
                            lemma_damaged_index(table, l);
                            let k = l.len() - 1;
                            if (i as int) < k {
                                assert(stops_clean(table[i as int].1, logs[i as int]));
                            }
                        }
                    }
                    return Err(e);
                },
            }
            proof {
                if exact {
                    assert(logs.subrange(i as int, logs.len() as int).drop_first() =~= logs.subrange(
                        i + 1,
                        logs.len() as int,
                    ));
                    assert(logs.subrange(i as int, logs.len() as int)[0] == logs[i as int]);
                }
            }
            i = i + 1;
        }
        let ghost live_before = self.live@;
        let end = match self.replay_file(n, Ghost(logs[n as int])) {
            Ok(end) => end,
            Err(e) => {
                proof {
                    assert forall|l: Seq<Seq<Entry>>|
                        #[trigger] table_matches(table, l) && old(self)@ == Map::<Seq<u8>, Seq<u8>>::empty()
                        implies e == Errors::FailedReadFromDataFile by {
                        lemma_matches_clean(table, l);
                        lemma_table_logs_clean(table, l);
                        assert(exact);
                        assert(stops_clean(table[n as int].1, logs[n as int]));
                    }
                }
                proof {
                    assert forall|l: Seq<Seq<Entry>>|
                        #[trigger] files_stop_clean(table, l) && old(self)@ == Map::<Seq<u8>, Seq<u8>>::empty()
                        implies e == Errors::FailedReadFromDataFile by {
                        lemma_table_logs_clean(table, l);
                        assert(stops_clean(table[n as int].1, logs[n as int]));
                    }
                    assert forall|l: Seq<Seq<Entry>>| #[trigger] files_stop_damaged(table, l) implies e
                        == Errors::InvalidLogRecordCrc || e == Errors::FailedReadFromDataFile by {
                        lemma_damaged_index(table, l);
                        let k = l.len() - 1;
                        if (n as int) < k {
                            assert(stops_clean(table[n as int].1, logs[n as int]));
                        }
                    }
                }
                return Err(e);
            },
        };
        proof {
            if exact {
                assert(logs.subrange(n as int, logs.len() as int).drop_first() =~= logs.subrange(
                    n + 1,
                    logs.len() as int,
                ));
                let t = logs.subrange(n as int, logs.len() as int);
                assert(t[0] == logs[n as int]);
                assert(t.drop_first().len() == 0);
                assert(replay_files(live_before, t) == replay_files(
                    replay(live_before, t[0]),
                    t.drop_first(),
                ));
                assert(replay_files(self.live@, t.drop_first()) == self.live@);
                assert(self.live@ == replay_files(Map::<Seq<u8>, Seq<u8>>::empty(), logs));
            }
            assert forall|l: Seq<Seq<Entry>>|
                #[trigger] table_matches(table, l) && old(self)@ == Map::<Seq<u8>, Seq<u8>>::empty()
                implies exact && l == logs by {
                lemma_matches_clean(table, l);
                lemma_table_logs_clean(table, l);
            }
            if exact {
                assert(self.live@ == replay_files(Map::<Seq<u8>, Seq<u8>>::empty(), logs));
            }
            assert forall|l: Seq<Seq<Entry>>|
                #[trigger] files_stop_clean(table, l) && old(self)@ == Map::<Seq<u8>, Seq<u8>>::empty()
                implies exact && l == logs by {
                lemma_table_logs_clean(table, l);
            }
            assert forall|l: Seq<Seq<Entry>>| #[trigger] files_stop_damaged(table, l) implies false by {
                lemma_damaged_index(table, l);
                let k = l.len() - 1;
                assert(damaged_index(table, logs, k));
            }
        }
        let size = self.active_file.file_size();
        proof {
            self.lemma_file_table();
        }
        let ghost before = *self;
        if end == size {
            self.active_file.set_write_off(end);
            proof {
                assert(self.file_table() =~= before.file_table());
            }
        } else {
            self.active_file.set_write_off(size);
            proof {
                assert(self.file_table() =~= before.file_table());
            }
            let ghost mid = *self;
            self.rotate_active_file()?;
            proof {
                assert forall|l: Seq<Seq<Entry>>|
                    #[trigger] files_stop_clean(self.file_table(), l) && old(self)@ == Map::<
                        Seq<u8>,
                        Seq<u8>,
                    >::empty() implies self.live@ == replay_files(Map::<Seq<u8>, Seq<u8>>::empty(), l) by {
                    let t2 = self.file_table();
                    assert(t2 == table.push(((mid.active_id() + 1) as u32, Seq::<u8>::empty())));
                    let l0 = l.drop_last();
                    assert forall|q: int| 0 <= q < table.len() implies stops_clean((#[trigger] table[q]).1, l0[q]) by {
                        assert(t2[q] == table[q]);
                        assert(stops_clean(t2[q].1, l[q]));
                    }
                    assert(files_stop_clean(table, l0));
                    assert(stops_clean(t2[table.len() as int].1, l.last()));
                    lemma_log_empty_of_empty(l.last());
                    assert(l =~= l0.push(Seq::<Entry>::empty()));
                    lemma_replay_files_push(Map::<Seq<u8>, Seq<u8>>::empty(), l0, Seq::<Entry>::empty());
                    assert(replay(replay_files(Map::<Seq<u8>, Seq<u8>>::empty(), l0), Seq::<Entry>::empty())
                        == replay_files(Map::<Seq<u8>, Seq<u8>>::empty(), l0));
                }
                lemma_entries_hold_grow(mid.file_table(), self.file_table(), self.index.positions(), self.live@);
            }
        }
        Ok(())
    }

    /// Opens the store in `dir_path` of `opts`, whose entries are `dir_entries`:
    /// checks the configuration, opens each data file the listing names, in
    /// ascending order of number, and rebuilds the index from them.
    pub fn open(opts: Options, dir_entries: &Vec<String>) -> (r: Result<Engine<IO>>)
        ensures
            options_error(opts) is Some ==> r == Err::<Engine<IO>, Errors>(
                options_error(opts)->0,
            ),
            options_error(opts) is None && listing_corrupted(dir_entries@) ==> r == Err::<
                Engine<IO>,
                Errors,
            >(Errors::DataDirectoryCorrupted),
            match r {
                Ok(e) => e.wf() && e.spec_options() == opts,
                Err(e) => e == Errors::DirPathIsEmpty || e == Errors::DataFileSizeTooSmall || e
                    == Errors::DataDirectoryCorrupted || e == Errors::InvalidLogRecordCrc || e
                    == Errors::FailedReadFromDataFile || e == Errors::FailedToSyncDataFile || e
                    == Errors::FailedToOpenDataFile,
            },
            options_error(opts) is None && !listing_corrupted(dir_entries@) ==> r != Err::<
                Engine<IO>,
                Errors,
            >(Errors::DataDirectoryCorrupted),
            options_error(opts) is None ==> r != Err::<Engine<IO>, Errors>(Errors::DirPathIsEmpty)
                && r != Err::<Engine<IO>, Errors>(Errors::DataFileSizeTooSmall),
            options_error(opts) is None && !listing_corrupted(dir_entries@) && (forall|id: u32|
                !listing_names(dir_entries@, id)) ==> match r {
                Ok(e) => e@ == Map::<Seq<u8>, Seq<u8>>::empty() && e.active_id() == INITIAL_FILE_ID
                    && e.older_ids() == Seq::<u32>::empty() && (e.active_len() == 0 ==> e.holds_logs(
                    seq![Seq::<Entry>::empty()],
                )),
                Err(e) => e == Errors::FailedToOpenDataFile,
            },
            r is Ok ==> {
                let e = r->Ok_0;
                &&& forall|id: u32|
                    #[trigger] listing_names(dir_entries@, id) ==> id <= e.active_id() && (id
                        == e.active_id() || e.older_ids().contains(id))
                &&& forall|i: int|
                    0 <= i < e.older_ids().len() ==> listing_names(
                        dir_entries@,
                        #[trigger] e.older_ids()[i],
                    )
            },
            r is Ok ==> forall|logs: Seq<Seq<Entry>>|
                #[trigger] files_stop_clean(r->Ok_0.file_table(), logs) && ((exists|id: u32|
                    listing_names(dir_entries@, id)) || r->Ok_0.active_len() == 0) ==> r->Ok_0@
                    == replay_files(Map::<Seq<u8>, Seq<u8>>::empty(), logs),
    {
        if let Some(e) = check_options(&opts) {
            return Err(e);
        }
        let data_files = match load_data_files::<IO>(opts.dir_path.as_str(), dir_entries) {
            Ok(files) => files,
            Err(e) => {
                return Err(e);
            },
        };
        let ghost files = data_files@;
        let r = Self::open_with_files(opts, data_files);
        proof {
            if exists|id: u32| listing_names(dir_entries@, id) {
                let id = choose|id: u32| listing_names(dir_entries@, id);
                let k = choose|k: int| 0 <= k < files.len() && (#[trigger] files[k]).id() == id;
                assert(files.len() > 0);
            }
            if r is Ok {
                let e = r->Ok_0;
                let ids = files.map_values(|f: DataFile<IO>| f.id());
                if files.len() > 0 {
                    assert forall|id: u32| #[trigger] listing_names(dir_entries@, id) implies id
                        <= e.active_id() && (id == e.active_id() || e.older_ids().contains(id)) by {
                        let k = choose|k: int| 0 <= k < files.len() && (#[trigger] files[k]).id() == id;
                        assert(ids[k] == id);
                        if k < files.len() - 1 {
                            assert(files[k].id() < files[files.len() - 1].id());
                            assert(ids.drop_last()[k] == id);
                        }
                        if e.older_ids() == ids {
                            assert(e.older_ids()[k] == id);
                        } else if k < files.len() - 1 {
                            assert(e.older_ids()[k] == id);
                        }
                    }
                    assert forall|i: int| 0 <= i < e.older_ids().len() implies listing_names(
                        dir_entries@,
                        #[trigger] e.older_ids()[i],
                    ) by {
                        assert(e.older_ids()[i] == files[i].id());
                    }
                } else {
                    assert(e.older_ids().len() == 0);
                    assert forall|id: u32| #[trigger] listing_names(dir_entries@, id) implies id
                        <= e.active_id() && (id == e.active_id() || e.older_ids().contains(id)) by {
                        let k = choose|k: int| 0 <= k < files.len() && (#[trigger] files[k]).id() == id;
                    }
                }
            }
        }
        r
    }

    /// Opens the store over `data_files`, which must be numbered in strictly
    /// ascending order, and rebuilds the index from them; the last file becomes
    /// the active one. Where there are none, the data file numbered
    /// `INITIAL_FILE_ID` is created, takes the appends, and the store is empty.
    pub fn open_with_files(opts: Options, data_files: Vec<DataFile<IO>>) -> (r: Result<Engine<IO>>)
        ensures
            options_error(opts) is Some ==> r == Err::<Engine<IO>, Errors>(
                options_error(opts)->0,
            ),
            options_error(opts) is None && !(forall|i: int, j: int|
                0 <= i < j < data_files@.len() ==> (#[trigger] data_files@[i]).id() < (
                #[trigger] data_files@[j]).id()) ==> r == Err::<Engine<IO>, Errors>(
                Errors::DataDirectoryCorrupted,
            ),
            match r {
                Ok(e) => e.wf() && e.spec_options() == opts,
                Err(e) => e == Errors::DirPathIsEmpty || e == Errors::DataFileSizeTooSmall || e
                    == Errors::DataDirectoryCorrupted || e == Errors::InvalidLogRecordCrc || e
                    == Errors::FailedReadFromDataFile || e == Errors::FailedToSyncDataFile || e
                    == Errors::FailedToOpenDataFile,
            },
            forall|logs: Seq<Seq<Entry>>|
                data_files@.len() > 0 && #[trigger] table_matches(files_table(data_files@), logs)
                    ==> (r is Ok ==> r->Ok_0.holds_logs(logs)),
            r == Err::<Engine<IO>, Errors>(Errors::DataDirectoryCorrupted) ==> options_error(opts) is None
                && !(forall|i: int, j: int|
                0 <= i < j < data_files@.len() ==> (#[trigger] data_files@[i]).id() < (
                #[trigger] data_files@[j]).id()),
            forall|logs: Seq<Seq<Entry>>|
                options_error(opts) is None && (forall|i: int, j: int|
                    0 <= i < j < data_files@.len() ==> (#[trigger] data_files@[i]).id() < (
                    #[trigger] data_files@[j]).id()) && data_files@.len() > 0
                    && #[trigger] table_matches(files_table(data_files@), logs) ==> r is Ok || r
                    == Err::<Engine<IO>, Errors>(Errors::FailedReadFromDataFile),
            options_error(opts) is None ==> r != Err::<Engine<IO>, Errors>(Errors::DirPathIsEmpty)
                && r != Err::<Engine<IO>, Errors>(Errors::DataFileSizeTooSmall),
            data_files@.len() > 0 && r is Ok ==> {
                let e = r->Ok_0;
                let ids = data_files@.map_values(|f: DataFile<IO>| f.id());
                ||| e.active_id() == ids.last() && e.older_ids() == ids.drop_last()
                ||| e.active_id() == ids.last() + 1 && e.older_ids() == ids
            },
            data_files@.len() == 0 ==> match r {
                Ok(e) => e@ == Map::<Seq<u8>, Seq<u8>>::empty() && e.active_id() == INITIAL_FILE_ID
                    && e.older_ids() == Seq::<u32>::empty() && (e.active_len() == 0 ==> e.holds_logs(
                    seq![Seq::<Entry>::empty()],
                )),
                Err(e) => e == Errors::DirPathIsEmpty || e == Errors::DataFileSizeTooSmall || e
                    == Errors::FailedToOpenDataFile,
            },
            forall|logs: Seq<Seq<Entry>>|
                data_files@.len() > 0 && #[trigger] table_matches(files_table(data_files@), logs)
                    ==> (r is Ok ==> r->Ok_0.file_table() == files_table(data_files@)
                    && r->Ok_0.active_id() == data_files@.last().id()),
            forall|logs: Seq<Seq<Entry>>|
                options_error(opts) is None && (forall|i: int, j: int|
                    0 <= i < j < data_files@.len() ==> (#[trigger] data_files@[i]).id() < (
                    #[trigger] data_files@[j]).id()) && data_files@.len() > 0
                    && #[trigger] files_stop_clean(files_table(data_files@), logs) ==> (r is Ok
                    ==> r->Ok_0@ == replay_files(Map::<Seq<u8>, Seq<u8>>::empty(), logs)) && (r is Ok
                    || r == Err::<Engine<IO>, Errors>(Errors::FailedReadFromDataFile) || r == Err::<
                    Engine<IO>,
                    Errors,
                >(Errors::FailedToSyncDataFile) || r == Err::<Engine<IO>, Errors>(
                    Errors::FailedToOpenDataFile,
                )),
            forall|logs: Seq<Seq<Entry>>|
                options_error(opts) is None && (forall|i: int, j: int|
                    0 <= i < j < data_files@.len() ==> (#[trigger] data_files@[i]).id() < (
                    #[trigger] data_files@[j]).id()) && #[trigger] files_stop_damaged(
                    files_table(data_files@),
                    logs,
                ) ==> r == Err::<Engine<IO>, Errors>(Errors::InvalidLogRecordCrc) || r == Err::<
                    Engine<IO>,
                    Errors,
                >(Errors::FailedReadFromDataFile),
            r is Ok ==> forall|logs: Seq<Seq<Entry>>|
                #[trigger] files_stop_clean(r->Ok_0.file_table(), logs) && (data_files@.len() > 0
                    || r->Ok_0.active_len() == 0) ==> r->Ok_0@ == replay_files(
                    Map::<Seq<u8>, Seq<u8>>::empty(),
                    logs,
                ),
    {
        if let Some(e) = check_options(&opts) {
            return Err(e);
        }
        let mut file_ids: Vec<u32> = Vec::new();
        let mut i: usize = 0;
        while i < data_files.len()
            invariant
                options_error(opts) is None,
                i <= data_files@.len(),
                file_ids@.len() == i,
                forall|j: int| 0 <= j < i ==> file_ids@[j] == (#[trigger] data_files@[j]).id(),
                forall|a: int, b: int| 0 <= a < b < i ==> (#[trigger] data_files@[a]).id() < (
                #[trigger] data_files@[b]).id(),
            decreases data_files@.len() - i,
        {
            let id = data_files[i].get_file_id();
            if i > 0 && file_ids[i - 1] >= id {
                proof {
                    assert(data_files@[i - 1].id() >= data_files@[i as int].id());
                }
                return Err(Errors::DataDirectoryCorrupted);
            }
            proof {
                assert forall|a: int, b: int| 0 <= a < b < i + 1 implies (#[trigger] data_files@[a]).id()
                    < (#[trigger] data_files@[b]).id() by {
                    if b == i && a < i - 1 {
                        assert(data_files@[a].id() < data_files@[i - 1].id());
                    }
                }
            }
            file_ids.push(id);
            i = i + 1;
        }
        let mut older_files = data_files;
        let index = new_indexer(opts.index_type);
        if older_files.len() == 0 {
            // a fresh directory: its first data file takes the appends, and there is
            // nothing to recover
            let mut active_file = match DataFile::new(opts.dir_path.as_str(), INITIAL_FILE_ID) {
                Ok(f) => f,
                Err(e) => {
                    return Err(e);
                },
            };
            let size = active_file.file_size();
            active_file.set_write_off(size);
            let engine = Engine {
                options: opts,
                active_file,
                older_files,
                index,
                file_ids,
                live: Ghost(Map::empty()),
            };
            proof {
                assert(engine.live@.dom() =~= engine.index.positions().dom());
                assert(engine.older_ids() =~= Seq::<u32>::empty());
                engine.lemma_file_table();
                assert forall|l: Seq<Seq<Entry>>|
                    #[trigger] files_stop_clean(engine.file_table(), l) && engine.active_len() == 0
                    implies engine.live@ == replay_files(Map::<Seq<u8>, Seq<u8>>::empty(), l) by {
                    assert(engine.file_table()[0].1 =~= Seq::<u8>::empty());
                    assert(stops_clean(engine.file_table()[0].1, l[0]));
                    lemma_log_empty_of_empty(l[0]);
                    assert(l.drop_first() =~= Seq::<Seq<Entry>>::empty());
                    assert(replay_files(Map::<Seq<u8>, Seq<u8>>::empty(), l) == replay_files(
                        replay(Map::<Seq<u8>, Seq<u8>>::empty(), l[0]),
                        l.drop_first(),
                    ));
                }
                if engine.active_len() == 0 {
                    let logs = seq![Seq::<Entry>::empty()];
                    engine.lemma_file_table();
                    assert(engine.active_file.content() =~= log_bytes(Seq::<Entry>::empty()));
                    assert(table_matches(engine.file_table(), logs));
                    assert(logs.drop_first() =~= Seq::<Seq<Entry>>::empty());
                    assert(replay_files(Map::<Seq<u8>, Seq<u8>>::empty(), logs) == replay_files(
                        replay(Map::<Seq<u8>, Seq<u8>>::empty(), logs[0]),
                        logs.drop_first(),
                    ));
                    assert(replay(Map::<Seq<u8>, Seq<u8>>::empty(), logs[0]) == Map::<
                        Seq<u8>,
                        Seq<u8>,
                    >::empty());
                }
            }
            return Ok(engine);
        }
        let active_file = match older_files.pop() {
            Some(f) => f,
            None => {
                return Err(Errors::FailedToOpenDataFile);
            },
        };
        let mut engine = Engine {
            options: opts,
            active_file,
            older_files,
            index,
            file_ids,
            live: Ghost(Map::empty()),
        };
        proof {
            engine.lemma_file_table();
            assert(engine.file_table() =~= files_table(data_files@));
            assert(engine.older_ids() =~= data_files@.map_values(|f: DataFile<IO>| f.id()).drop_last());
        }
        match engine.load_index_from_data_files() {
            Ok(()) => {},
            Err(e) => {
                return Err(e);
            },
        }
        proof {
            let ids = data_files@.map_values(|f: DataFile<IO>| f.id());
            assert(ids.drop_last().push(ids.last()) =~= ids);
        }
        Ok(engine)
    }

    /// Appends `record` to the active data file, first rolling over to a new
    /// file where the record would take the active one past `data_file_size`;
    /// returns where the record was put.
    fn append_log_record(&mut self, record: &LogRecord) -> (r: Result<LogRecordPos>)
        requires
            old(self).files_wf(),
            fits_record(record.key@.len(), record.value@.len()),
        ensures
            final(self).files_wf(),
            final(self).index == old(self).index,
            final(self).live == old(self).live,
            final(self).options == old(self).options,
            final(self).file_ids == old(self).file_ids,
            forall|pos: LogRecordPos, t: LogRecordType, k: Seq<u8>, v: Seq<u8>|
                #[trigger] table_holds(old(self).file_table(), pos, t, k, v) ==> table_holds(
                    final(self).file_table(),
                    pos,
                    t,
                    k,
                    v,
                ),
            old(self).active_len() + record.spec_bytes().len() > old(self).options.data_file_size
                && old(self).active_id() == u32::MAX ==> r == Err::<LogRecordPos, Errors>(
                Errors::FailedToOpenDataFile,
            ),
            match r {
                Ok(pos) => {
                    let rolled = old(self).active_len() + record.spec_bytes().len()
                        > old(self).options.data_file_size;
                    &&& pos == if rolled {
                        LogRecordPos { file_id: (old(self).active_id() + 1) as u32, offset: 0 }
                    } else {
                        LogRecordPos {
                            file_id: old(self).active_id(),
                            offset: old(self).active_len() as u64,
                        }
                    }
                    &&& final(self).file_table() == table_after_append(
                        old(self).file_table(),
                        rolled,
                        record.spec_bytes(),
                    )
                    &&& table_holds(
                        final(self).file_table(),
                        pos,
                        record.rec_type,
                        record.key@,
                        record.value@,
                    )
                    &&& final(self).active_id() == if rolled {
                        old(self).active_id() + 1
                    } else {
                        old(self).active_id() as int
                    }
                    &&& final(self).older_ids() == if rolled {
                        old(self).older_ids().push(old(self).active_id())
                    } else {
                        old(self).older_ids()
                    }
                },
                Err(e) => e == Errors::FailedToWriteToDataFile || e == Errors::FailedToSyncDataFile
                    || e == Errors::FailedToOpenDataFile,
            },
    {
        let enc_record = record.encode();
        let record_len = enc_record.len() as u64;
        let write_off = self.active_file.get_write_off();
        if write_off > u64::MAX - record_len || write_off + record_len
            > self.options.data_file_size {
            let ghost pre = *self;
            match self.rotate_active_file() {
                Ok(()) => {},
                Err(e) => {
                    return Err(e);
                },
            }
            proof {
                pre.lemma_file_table();
                self.lemma_file_table();
                assert(self.file_table()[pre.older_files@.len() + 1int] == (
                    (pre.active_id() + 1) as u32,
                    Seq::<u8>::empty(),
                ));
            }
        }
        proof {
            // a fresh file starts empty; otherwise the record fits below `data_file_size`
            self.lemma_file_table();
            assert(self.active_file.spec_write_off() + record_len <= u64::MAX);
        }
        let ghost before = *self;
        proof {
            before.lemma_file_table();
            old(self).lemma_file_table();
        }
        let offset = self.active_file.write(enc_record.as_slice())?;
        proof {
            before.lemma_file_table();
            self.lemma_file_table();
            let n = before.older_files@.len() as int;
            assert forall|i: int| 0 <= i < before.file_table().len() implies (#[trigger] self.file_table()[i]).0
                == before.file_table()[i].0 && before.file_table()[i].1.is_prefix_of(
                self.file_table()[i].1,
            ) by {
                if i == n {
                    assert(before.file_table()[i].1 =~= self.file_table()[i].1.subrange(
                        0,
                        before.file_table()[i].1.len() as int,
                    ));
                } else {
                    assert(before.file_table()[i].1 =~= self.file_table()[i].1.subrange(
                        0,
                        before.file_table()[i].1.len() as int,
                    ));
                }
            }
            lemma_table_grows(before.file_table(), self.file_table());
            let c = self.active_file.content();
            let b = record.spec_bytes();
            assert(c.subrange(offset as int, offset + b.len()) =~= b);
            assert(self.file_table()[n].0 == self.active_file.id());
            assert(self.older_ids() =~= before.older_ids());
            assert(self.file_table() =~= before.file_table().update(
                n,
                (before.active_id(), before.file_table()[n].1 + b),
            ));
            assert(self.file_table() =~= table_after_append(old(self).file_table(), old(self).active_len() + b.len() > old(self).options.data_file_size, b));
        }
        if self.options.sync_writes {
            self.active_file.sync()?;
        }
        Ok(LogRecordPos { file_id: self.active_file.get_file_id(), offset })
    }

    /// Stores `value` under `key`.
    pub fn put(&mut self, key: Vec<u8>, value: Vec<u8>) -> (r: Result<()>)
        requires
            old(self).wf(),
            fits_record(key@.len(), value@.len()),
        ensures
            final(self).wf(),
            final(self).spec_options() == old(self).spec_options(),
            key@.len() == 0 ==> r == Err::<(), Errors>(Errors::KeyIsEmpty) && final(self)@ == old(
                self,
            )@,
            key@.len() > 0 && old(self).active_len() + record_bytes(
                LogRecordType::NORMAL,
                key@,
                value@,
            ).len() > old(self).spec_options().data_file_size && old(self).active_id() == u32::MAX
                ==> r == Err::<(), Errors>(Errors::FailedToOpenDataFile),
            key@.len() == 0 ==> final(self).file_table() == old(self).file_table()
                && final(self).active_id() == old(self).active_id() && final(self).older_ids()
                == old(self).older_ids(),
            key@.len() > 0 && r is Ok ==> final(self).file_table() == table_after_append(
                old(self).file_table(),
                old(self).active_len() + record_bytes(LogRecordType::NORMAL, key@, value@).len()
                    > old(self).spec_options().data_file_size,
                record_bytes(LogRecordType::NORMAL, key@, value@),
            ),
            key@.len() > 0 ==> match r {
                Ok(()) => {
                    let rolled = old(self).active_len() + record_bytes(
                        LogRecordType::NORMAL,
                        key@,
                        value@,
                    ).len() > old(self).spec_options().data_file_size;
                    &&& final(self)@ == old(self)@.insert(key@, value@)
                    &&& final(self).active_id() == if rolled {
                        old(self).active_id() + 1
                    } else {
                        old(self).active_id() as int
                    }
                    &&& final(self).older_ids() == if rolled {
                        old(self).older_ids().push(old(self).active_id())
                    } else {
                        old(self).older_ids()
                    }
                },
                Err(e) => {
                    &&& e == Errors::FailedToWriteToDataFile || e == Errors::FailedToSyncDataFile
                        || e == Errors::FailedToOpenDataFile
                    &&& final(self)@ == old(self)@
                },
            },
            forall|logs: Seq<Seq<Entry>>|
                #[trigger] old(self).holds_logs(logs) && r is Ok ==> final(self).holds_logs(
                    logs_after_append(
                        logs,
                        old(self).active_len() + record_bytes(
                            LogRecordType::NORMAL,
                            key@,
                            value@,
                        ).len() > old(self).spec_options().data_file_size,
                        (LogRecordType::NORMAL, key@, value@),
                    ),
                ),
    {
        if key.len() == 0 {
            return Err(Errors::KeyIsEmpty);
        }
        let record = LogRecord { key, value, rec_type: LogRecordType::NORMAL };
        let ghost before = *self;
        let pos = self.append_log_record(&record)?;
        let ghost k = record.key@;
        let ghost v = record.value@;
        let ok = self.index.put(record.key, pos);
        if !ok {
            return Err(Errors::IndexUpdateFailed);
        }
        proof {
            self.live@ = self.live@.insert(k, v);
            let rolled = before.active_len() + record.spec_bytes().len() > before.options.data_file_size;
            let e = (LogRecordType::NORMAL, k, v);
            assert forall|logs: Seq<Seq<Entry>>| #[trigger] before.holds_logs(logs) implies self.holds_logs(
                logs_after_append(logs, rolled, e),
            ) by {
                before.lemma_file_table();
                lemma_append_keeps_logs(before.file_table(), logs, rolled, e);
                lemma_replay_append(Map::<Seq<u8>, Seq<u8>>::empty(), logs, rolled, e);
            }
            assert(self.index.positions().dom() =~= self.live@.dom());
            lemma_entries_hold_grow(before.file_table(), self.file_table(), before.index.positions(), before.live@);
            lemma_entries_hold_insert(self.file_table(), before.index.positions(), before.live@, k, pos, v);
        }
        Ok(())
    }

    /// The value stored under `key`.
    pub fn get(&self, key: Vec<u8>) -> (r: Result<Vec<u8>>)
        requires
            self.wf(),
        ensures
            key@.len() == 0 ==> r == Err::<Vec<u8>, Errors>(Errors::KeyIsEmpty),
            key@.len() > 0 && !self@.contains_key(key@) ==> r == Err::<Vec<u8>, Errors>(
                Errors::KeyNotFound,
            ),
            match r {
                Ok(v) => lookup(self@, key@) == Ok::<Seq<u8>, Errors>(v@),
                Err(e) => lookup(self@, key@) == Err::<Seq<u8>, Errors>(e) || (key@.len() > 0
                    && self@.contains_key(key@) && e == Errors::FailedReadFromDataFile),
            },
    {
        if key.len() == 0 {
            return Err(Errors::KeyIsEmpty);
        }
        let ghost k = key@;
        let pos = match self.index.get(key) {
            Some(p) => p,
            None => {
                return Err(Errors::KeyNotFound);
            },
        };
        let ghost v = self.live@[k];
        proof {
            assert(self.live@.contains_key(k));
            self.lemma_file_table();
        }
        let read = if pos.file_id == self.active_file.get_file_id() {
            proof {
                let i = choose|i: int|
                    0 <= i < self.file_table().len() && (#[trigger] self.file_table()[i]).0
                        == pos.file_id && record_at(
                        self.file_table()[i].1,
                        pos.offset as int,
                        LogRecordType::NORMAL,
                        k,
                        v,
                    );
                if i < self.older_files@.len() {
                    assert(self.older_files@[i].id() < self.active_file.id());
                }
                assert(record_at(self.active_file.content(), pos.offset as int, LogRecordType::NORMAL, k, v));
            }
            self.active_file.read_log_record(pos.offset)
        } else {
            let found = self.find_older_file(pos.file_id);
            let fi = match found {
                Some(fi) => fi,
                None => {
                    proof {
                        let j = choose|j: int|
                            0 <= j < self.file_table().len() && (#[trigger] self.file_table()[j]).0
                                == pos.file_id && record_at(
                                self.file_table()[j].1,
                                pos.offset as int,
                                LogRecordType::NORMAL,
                                k,
                                v,
                            );
                        assert(self.older_files@[j].id() == pos.file_id);
                    }
                    return Err(Errors::DataFileNotFound);
                },
            };
            proof {
                let j = choose|j: int|
                    0 <= j < self.file_table().len() && (#[trigger] self.file_table()[j]).0
                        == pos.file_id && record_at(
                        self.file_table()[j].1,
                        pos.offset as int,
                        LogRecordType::NORMAL,
                        k,
                        v,
                    );
                if j != fi {
                    if j < fi {
                        assert(self.older_files@[j].id() < self.older_files@[fi as int].id());
                    } else if j < self.older_files@.len() {
                        assert(self.older_files@[fi as int].id() < self.older_files@[j].id());
                    }
                }
                assert(record_at(self.older_files@[fi as int].content(), pos.offset as int, LogRecordType::NORMAL, k, v));
            }
            self.older_files[fi].read_log_record(pos.offset)
        };
        let read = match read {
            Ok(rr) => rr,
            Err(e) => {
                return Err(e);
            },
        };
        if read.record.rec_type == LogRecordType::DELETE {
            return Err(Errors::KeyNotFound);
        }
        Ok(read.record.value)
    }

    /// Removes `key`. Removing a key that is not there changes nothing and succeeds.
    pub fn delete(&mut self, key: Vec<u8>) -> (r: Result<()>)
        requires
            old(self).wf(),
            fits_record(key@.len(), 0),
        ensures
            final(self).wf(),
            final(self).spec_options() == old(self).spec_options(),
            key@.len() == 0 ==> r == Err::<(), Errors>(Errors::KeyIsEmpty) && final(self)@ == old(
                self,
            )@,
            key@.len() > 0 && !old(self)@.contains_key(key@) ==> r == Ok::<(), Errors>(())
                && final(self)@ == old(self)@,
            key@.len() > 0 && old(self)@.contains_key(key@) && old(self).active_len()
                + record_bytes(LogRecordType::DELETE, key@, Seq::<u8>::empty()).len() > old(
                self,
            ).spec_options().data_file_size && old(self).active_id() == u32::MAX ==> r == Err::<
                (),
                Errors,
            >(Errors::FailedToOpenDataFile),
            key@.len() > 0 && old(self)@.contains_key(key@) && r is Ok ==> final(self).file_table()
                == table_after_append(
                old(self).file_table(),
                old(self).active_len() + record_bytes(
                    LogRecordType::DELETE,
                    key@,
                    Seq::<u8>::empty(),
                ).len() > old(self).spec_options().data_file_size,
                record_bytes(LogRecordType::DELETE, key@, Seq::<u8>::empty()),
            ),
            key@.len() > 0 && !old(self)@.contains_key(key@) ==> final(self).file_table() == old(
                self,
            ).file_table(),
            key@.len() > 0 && old(self)@.contains_key(key@) ==> match r {
                Ok(()) => final(self)@ == old(self)@.remove(key@),
                Err(e) => {
                    &&& e == Errors::FailedToWriteToDataFile || e == Errors::FailedToSyncDataFile
                        || e == Errors::FailedToOpenDataFile
                    &&& final(self)@ == old(self)@
                },
            },
            forall|logs: Seq<Seq<Entry>>|
                #[trigger] old(self).holds_logs(logs) && r is Ok ==> final(self).holds_logs(
                    if old(self)@.contains_key(key@) {
                        logs_after_append(
                            logs,
                            old(self).active_len() + record_bytes(
                                LogRecordType::DELETE,
                                key@,
                                Seq::<u8>::empty(),
                            ).len() > old(self).spec_options().data_file_size,
                            (LogRecordType::DELETE, key@, Seq::<u8>::empty()),
                        )
                    } else {
                        logs
                    },
                ),
    {
        if key.len() == 0 {
            return Err(Errors::KeyIsEmpty);
        }
        let ghost k = key@;
        if self.index.get(slice_to_vec(key.as_slice())).is_none() {
            return Ok(());
        }
        let record = LogRecord { key: slice_to_vec(key.as_slice()), value: Vec::new(), rec_type: LogRecordType::DELETE };
        proof {
            assert(record.value@ =~= Seq::<u8>::empty());
        }
        let ghost before = *self;
        self.append_log_record(&record)?;
        self.index.delete(key);
        proof {
            self.live@ = self.live@.remove(k);
            let rolled = before.active_len() + record.spec_bytes().len() > before.options.data_file_size;
            let e = (LogRecordType::DELETE, k, Seq::<u8>::empty());
            assert(record.value@ =~= Seq::<u8>::empty());
            assert forall|logs: Seq<Seq<Entry>>| #[trigger] before.holds_logs(logs) implies self.holds_logs(
                logs_after_append(logs, rolled, e),
            ) by {
                before.lemma_file_table();
                lemma_append_keeps_logs(before.file_table(), logs, rolled, e);
                lemma_replay_append(Map::<Seq<u8>, Seq<u8>>::empty(), logs, rolled, e);
            }
            assert(self.index.positions().dom() =~= self.live@.dom());
            lemma_entries_hold_grow(before.file_table(), self.file_table(), before.index.positions(), before.live@);
            lemma_entries_hold_remove(self.file_table(), before.index.positions(), before.live@, k);
        }
        Ok(())
    }

    /// Gives back the data files, older files first and the active file last.
    pub fn close(self) -> (r: Vec<DataFile<IO>>)
        ensures
            files_table(r@) == self.file_table(),
            r@.len() == self.file_table().len(),
            forall|i: int|
                0 <= i < r@.len() ==> (#[trigger] r@[i]).id() == self.file_table()[i].0
                    && r@[i].content() == self.file_table()[i].1,
    {
        proof {
            self.lemma_file_table();
        }
        let mut files = self.older_files;
        files.push(self.active_file);
        proof {
            assert(files_table(files@) =~= self.file_table());
        }
        files
    }

    /// Where the older data file numbered `file_id` stands, if there is one.
    fn find_older_file(&self, file_id: u32) -> (r: Option<usize>)
        ensures
            match r {
                Some(i) => i < self.older_files@.len() && self.older_files@[i as int].id() == file_id,
                None => forall|j: int|
                    0 <= j < self.older_files@.len() ==> (#[trigger] self.older_files@[j]).id()
                        != file_id,
            },
    {
        let mut i: usize = 0;
        while i < self.older_files.len()
            invariant
                i <= self.older_files@.len(),
                forall|j: int| 0 <= j < i ==> (#[trigger] self.older_files@[j]).id() != file_id,
            decreases self.older_files@.len() - i,
        {
            if self.older_files[i].get_file_id() == file_id {
                return Some(i);
            }
            i = i + 1;
        }
        None
    }

    /// Closes the active data file and opens the next one, which then takes the appends.
    fn rotate_active_file(&mut self) -> (r: Result<()>)
        requires
            old(self).files_wf(),
        ensures
            final(self).files_wf(),
            final(self).index == old(self).index,
            final(self).live == old(self).live,
            final(self).options == old(self).options,
            final(self).file_ids == old(self).file_ids,
            forall|pos: LogRecordPos, t: LogRecordType, k: Seq<u8>, v: Seq<u8>|
                #[trigger] table_holds(old(self).file_table(), pos, t, k, v) ==> table_holds(
                    final(self).file_table(),
                    pos,
                    t,
                    k,
                    v,
                ),
            old(self).active_id() == u32::MAX ==> r == Err::<(), Errors>(
                Errors::FailedToOpenDataFile,
            ),
            match r {
                Ok(()) => {
                    &&& final(self).active_id() == old(self).active_id() + 1
                    &&& final(self).older_ids() == old(self).older_ids().push(old(self).active_id())
                    &&& final(self).file_table() == old(self).file_table().push(
                        ((old(self).active_id() + 1) as u32, Seq::<u8>::empty()),
                    )
                },
                Err(e) => {
                    &&& e == Errors::FailedToSyncDataFile || e == Errors::FailedToOpenDataFile
                    &&& final(self).file_table() == old(self).file_table()
                    &&& final(self).active_id() == old(self).active_id()
                    &&& final(self).older_ids() == old(self).older_ids()
                },
            },
    {
        let fid = self.active_file.get_file_id();
        if fid == u32::MAX {
            // no data file can be numbered past `u32::MAX`
            return Err(Errors::FailedToOpenDataFile);
        }
        self.active_file.sync()?;
        let mut new_file = DataFile::<IO>::new(self.options.dir_path.as_str(), fid + 1)?;
        if new_file.file_size() != 0 {
            // the next file must be fresh: appending behind bytes of unknown origin would
            // mix them into the store
            return Err(Errors::FailedToOpenDataFile);
        }
        proof {
            assert(new_file.content() =~= Seq::<u8>::empty());
        }
        let ghost before = *self;
        core::mem::swap(&mut self.active_file, &mut new_file);
        self.older_files.push(new_file);
        proof {
            before.lemma_file_table();
            self.lemma_file_table();
            assert forall|i: int| 0 <= i < before.file_table().len() implies (#[trigger] self.file_table()[i]).0
                == before.file_table()[i].0 && before.file_table()[i].1.is_prefix_of(
                self.file_table()[i].1,
            ) by {
                assert(self.older_files@[i] == if i < before.older_files@.len() {
                    before.older_files@[i]
                } else {
                    before.active_file
                });
                assert(before.file_table()[i].1 =~= self.file_table()[i].1.subrange(
                    0,
                    before.file_table()[i].1.len() as int,
                ));
            }
            lemma_table_grows(before.file_table(), self.file_table());
            assert(self.older_ids() =~= before.older_ids().push(before.active_id()));
            assert forall|i: int| 0 <= i < self.file_table().len() implies #[trigger] self.file_table()[i]
                == before.file_table().push(((before.active_id() + 1) as u32, Seq::<u8>::empty()))[i] by {
                if i < before.older_files@.len() {
                    assert(self.older_files@[i] == before.older_files@[i]);
                } else if i == before.older_files@.len() {
                    assert(self.older_files@[i] == before.active_file);
                }
            }
            assert(self.file_table() =~= before.file_table().push(
                ((before.active_id() + 1) as u32, Seq::<u8>::empty()),
            ));
        }
        Ok(())
    }
}

} // verus!
