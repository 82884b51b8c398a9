use vstd::prelude::*;
use crate::data::data_file::{
    blank_at, framed_at, lemma_header_prefix_unique, readable_sizes, record_at,
};
use crate::data::log_record::varint;
use crate::data::log_record::{LogRecordType, body_bytes, crc32_of, header_bytes, record_bytes, type_byte, u32_le};

verus! {

/// A record as the store reads it: its kind, key and value.
pub type Entry = (LogRecordType, Seq<u8>, Seq<u8>);

pub open spec fn entry_bytes(e: Entry) -> Seq<u8> {
    record_bytes(e.0, e.1, e.2)
}

pub open spec fn entry_readable(e: Entry) -> bool {
    readable_sizes(e.1.len(), e.2.len())
}

/// The bytes of a file that holds exactly the records `log`, one after the other.
pub open spec fn log_bytes(log: Seq<Entry>) -> Seq<u8>
    decreases log.len(),
{
    if log.len() == 0 {
        Seq::empty()
    } else {
        entry_bytes(log[0]) + log_bytes(log.drop_first())
    }
}

pub open spec fn log_readable(log: Seq<Entry>) -> bool {
    forall|i: int| 0 <= i < log.len() ==> entry_readable(#[trigger] log[i])
}

/// The live keys after one record is applied: a value stores, a tombstone removes.
pub open spec fn apply_entry(m: Map<Seq<u8>, Seq<u8>>, e: Entry) -> Map<Seq<u8>, Seq<u8>> {
    if e.0 == LogRecordType::NORMAL {
        m.insert(e.1, e.2)
    } else {
        m.remove(e.1)
    }
}

/// The live keys after the records `log` are applied in order.
pub open spec fn replay(m: Map<Seq<u8>, Seq<u8>>, log: Seq<Entry>) -> Map<Seq<u8>, Seq<u8>>
    decreases log.len(),
{
    if log.len() == 0 {
        m
    } else {
        replay(apply_entry(m, log[0]), log.drop_first())
    }
}

/// The live keys after the records of each file of `logs` are applied, file after file.
pub open spec fn replay_files(m: Map<Seq<u8>, Seq<u8>>, logs: Seq<Seq<Entry>>) -> Map<
    Seq<u8>,
    Seq<u8>,
>
    decreases logs.len(),
{
    if logs.len() == 0 {
        m
    } else {
        replay_files(replay(m, logs[0]), logs.drop_first())
    }
}

/// Whether the files `table`, pairs of number and bytes, hold exactly the records `logs`.
pub open spec fn table_matches(table: Seq<(u32, Seq<u8>)>, logs: Seq<Seq<Entry>>) -> bool {
    &&& table.len() == logs.len()
    &&& forall|i: int|
        0 <= i < table.len() ==> (#[trigger] table[i]).1 == log_bytes(logs[i]) && log_readable(
            logs[i],
        )
}

/// The logs after `e` is appended: to the last file's log, or, where the
/// store `rolled` over to a fresh file, as that file's only record.
pub open spec fn logs_after_append(logs: Seq<Seq<Entry>>, rolled: bool, e: Entry) -> Seq<
    Seq<Entry>,
> {
    if rolled {
        logs.push(seq![e])
    } else {
        logs.update(logs.len() - 1, logs.last().push(e))
    }
}

/// Appending a record to a log appends its bytes.
pub proof fn lemma_log_bytes_push(log: Seq<Entry>, e: Entry)
    ensures
        log_bytes(log.push(e)) == log_bytes(log) + entry_bytes(e),
    decreases log.len(),
{
    if log.len() == 0 {
        assert(log.push(e).drop_first() =~= Seq::<Entry>::empty());
        assert(log_bytes(log.push(e)) =~= entry_bytes(e) + log_bytes(Seq::<Entry>::empty()));
        assert(log_bytes(log) + entry_bytes(e) =~= entry_bytes(e));
    } else {
        assert(log.push(e).drop_first() =~= log.drop_first().push(e));
        lemma_log_bytes_push(log.drop_first(), e);
        assert(log_bytes(log.push(e)) =~= log_bytes(log) + entry_bytes(e));
    }
}

/// Replaying a record appended to a log applies it last.
pub proof fn lemma_replay_push(m: Map<Seq<u8>, Seq<u8>>, log: Seq<Entry>, e: Entry)
    ensures
        replay(m, log.push(e)) == apply_entry(replay(m, log), e),
    decreases log.len(),
{
    let p = log.push(e);
    assert(p[0] == if log.len() == 0 {
        e
    } else {
        log[0]
    });
    assert(replay(m, p) == replay(apply_entry(m, p[0]), p.drop_first()));
    if log.len() == 0 {
        assert(p.drop_first() =~= Seq::<Entry>::empty());
        assert(replay(apply_entry(m, e), Seq::<Entry>::empty()) == apply_entry(m, e));
        assert(replay(m, log) == m);
    } else {
        assert(p.drop_first() =~= log.drop_first().push(e));
        lemma_replay_push(apply_entry(m, log[0]), log.drop_first(), e);
        assert(replay(m, log) == replay(apply_entry(m, log[0]), log.drop_first()));
    }
}

/// Replaying the logs of files with one more file behind applies that file's log last.
pub proof fn lemma_replay_files_push(m: Map<Seq<u8>, Seq<u8>>, logs: Seq<Seq<Entry>>, log: Seq<Entry>)
    ensures
        replay_files(m, logs.push(log)) == replay(replay_files(m, logs), log),
    decreases logs.len(),
{
    let p = logs.push(log);
    assert(p[0] == if logs.len() == 0 {
        log
    } else {
        logs[0]
    });
    assert(replay_files(m, p) == replay_files(replay(m, p[0]), p.drop_first()));
    if logs.len() == 0 {
        assert(p.drop_first() =~= Seq::<Seq<Entry>>::empty());
        assert(replay_files(replay(m, log), Seq::<Seq<Entry>>::empty()) == replay(m, log));
        assert(replay_files(m, logs) == m);
    } else {
        assert(p.drop_first() =~= logs.drop_first().push(log));
        lemma_replay_files_push(replay(m, logs[0]), logs.drop_first(), log);
        assert(replay_files(m, logs) == replay_files(replay(m, logs[0]), logs.drop_first()));
    }
}

/// Appending a record, to the last file or to a fresh one, applies it last.
pub proof fn lemma_replay_append(m: Map<Seq<u8>, Seq<u8>>, logs: Seq<Seq<Entry>>, rolled: bool, e: Entry)
    requires
        logs.len() > 0,
    ensures
        replay_files(m, logs_after_append(logs, rolled, e)) == apply_entry(replay_files(m, logs), e),
{
    if rolled {
        lemma_replay_files_push(m, logs, seq![e]);
        let one = seq![e];
        assert(one.drop_first() =~= Seq::<Entry>::empty());
        let base = replay_files(m, logs);
        assert(replay(base, one) == replay(apply_entry(base, e), one.drop_first()));
        assert(replay(apply_entry(base, e), Seq::<Entry>::empty()) == apply_entry(base, e));
    } else {
        let init = logs.drop_last();
        assert(logs =~= init.push(logs.last()));
        assert(logs_after_append(logs, rolled, e) =~= init.push(logs.last().push(e)));
        lemma_replay_files_push(m, init, logs.last());
        lemma_replay_files_push(m, init, logs.last().push(e));
        lemma_replay_push(replay_files(m, init), logs.last(), e);
    }
}

/// The first record of a non-empty log stands at its start, and the rest follows it.
pub proof fn lemma_log_first(log: Seq<Entry>)
    requires
        log.len() > 0,
    ensures
        record_at(log_bytes(log), 0, log[0].0, log[0].1, log[0].2),
        log_bytes(log).subrange(entry_bytes(log[0]).len() as int, log_bytes(log).len() as int)
            == log_bytes(log.drop_first()),
        entry_bytes(log[0]).len() > 0,
{
    let b = entry_bytes(log[0]);
    let all = log_bytes(log);
    assert(all == b + log_bytes(log.drop_first()));
    assert(all.subrange(0, b.len() as int) =~= b);
    assert(all.subrange(b.len() as int, all.len() as int) =~= log_bytes(log.drop_first()));
    assert(b.len() > 0) by {
        assert(body_bytes(log[0].0, log[0].1, log[0].2).len() > 0);
    }
}

/// An empty log is exactly the log of no bytes.
pub proof fn lemma_log_empty(log: Seq<Entry>)
    requires
        log_bytes(log).len() == 0,
    ensures
        log.len() == 0,
{
    if log.len() > 0 {
        lemma_log_first(log);
    }
}

/// Whether `c` holds at `o` a damaged record: a header with all the bytes it
/// frames, that are not a valid record.
pub open spec fn damaged_at(c: Seq<u8>, o: int) -> bool {
    &&& exists|t: u8, ks: nat, vs: nat| #[trigger] framed_at(c, o, t, ks, vs)
    &&& forall|t: LogRecordType, k: Seq<u8>, v: Seq<u8>|
        #[trigger] record_at(c, o, t, k, v) ==> !readable_sizes(k.len(), v.len())
}

/// Whether `c` begins with the records `log`, one after the other.
pub open spec fn log_prefix(c: Seq<u8>, log: Seq<Entry>) -> bool {
    log_bytes(log).is_prefix_of(c) && log_readable(log)
}

/// Whether `c` holds the records `log` from its start and then ends, or looks blank.
pub open spec fn stops_clean(c: Seq<u8>, log: Seq<Entry>) -> bool {
    log_prefix(c, log) && blank_at(c, log_bytes(log).len() as int)
}

/// Whether `c` holds the records `log` from its start and then a damaged record.
pub open spec fn stops_damaged(c: Seq<u8>, log: Seq<Entry>) -> bool {
    log_prefix(c, log) && damaged_at(c, log_bytes(log).len() as int)
}

/// The first byte of a varint is zero only for zero.
pub proof fn lemma_varint_first_byte(n: nat)
    ensures
        varint(n).len() > 0,
        varint(n)[0] == 0 <==> n == 0,
{
    reveal_with_fuel(varint, 2);
}

/// Two valid records that stand at the same place are the same record.
pub proof fn lemma_record_unique(c: Seq<u8>, o: int, a: Entry, b: Entry)
    requires
        record_at(c, o, a.0, a.1, a.2),
        record_at(c, o, b.0, b.1, b.2),
        entry_readable(a),
        entry_readable(b),
    ensures
        a == b,
{
    let ra = entry_bytes(a);
    let rb = entry_bytes(b);
    let (ta, ka, va) = a;
    let (tb, kb, vb) = b;
    let s = c.subrange(o, c.len() as int);
    let ha = header_bytes(type_byte(ta), ka.len(), va.len());
    let hb = header_bytes(type_byte(tb), kb.len(), vb.len());
    assert(ra == ha + ka + va + u32_le(crc32_of(body_bytes(ta, ka, va))));
    assert(rb == hb + kb + vb + u32_le(crc32_of(body_bytes(tb, kb, vb))));
    assert(ha.is_prefix_of(s)) by {
        assert forall|j: int| 0 <= j < ha.len() implies ha[j] == s[j] by {
            assert(ra[j] == ha[j]);
            assert(c.subrange(o, o + ra.len())[j] == c[o + j]);
        }
        assert(ha =~= s.subrange(0, ha.len() as int));
    }
    assert(hb.is_prefix_of(s)) by {
        assert forall|j: int| 0 <= j < hb.len() implies hb[j] == s[j] by {
            assert(rb[j] == hb[j]);
            assert(c.subrange(o, o + rb.len())[j] == c[o + j]);
        }
        assert(hb =~= s.subrange(0, hb.len() as int));
    }
    lemma_header_prefix_unique(type_byte(ta), ka.len(), va.len(), type_byte(tb), kb.len(), vb.len(), s);
    assert(ha == hb);
    assert(ra.len() == rb.len());
    assert(ra =~= rb) by {
        assert forall|j: int| 0 <= j < ra.len() implies ra[j] == rb[j] by {
            assert(c.subrange(o, o + ra.len())[j] == c[o + j]);
            assert(c.subrange(o, o + rb.len())[j] == c[o + j]);
        }
    }
    let hl = ha.len() as int;
    let kl = ka.len() as int;
    let vl = va.len() as int;
    assert(ka =~= ra.subrange(hl, hl + kl));
    assert(kb =~= rb.subrange(hl, hl + kl));
    assert(va =~= ra.subrange(hl + kl, hl + kl + vl));
    assert(vb =~= rb.subrange(hl + kl, hl + kl + vl));
    assert(ta == tb);
}

/// A valid record does not look blank where it starts, nor is it damaged there.
pub proof fn lemma_record_not_stop(c: Seq<u8>, o: int, e: Entry)
    requires
        record_at(c, o, e.0, e.1, e.2),
        entry_readable(e),
    ensures
        !blank_at(c, o),
        !damaged_at(c, o),
{
    let r = entry_bytes(e);
    let h = header_bytes(type_byte(e.0), e.1.len(), e.2.len());
    assert(r == h + e.1 + e.2 + u32_le(crc32_of(body_bytes(e.0, e.1, e.2))));
    lemma_varint_first_byte(e.1.len());
    lemma_varint_first_byte(e.2.len());
    assert(r[1] == h[1] && h[1] == varint(e.1.len())[0]);
    assert(c.subrange(o, o + r.len())[1] == c[o + 1]);
    assert(c.subrange(o, o + r.len())[2] == c[o + 2]);
    if e.1.len() == 0 {
        reveal_with_fuel(varint, 1);
        assert(varint(0).len() == 1);
        assert(r[2] == h[2] && h[2] == varint(e.2.len())[0]);
    }
    assert(r.len() > 2) by {
        assert(h.len() >= 3);
    }
}

/// Bytes that hold records and then stop hold one log only.
pub proof fn lemma_stops_unique(c: Seq<u8>, a: Seq<Entry>, b: Seq<Entry>)
    requires
        stops_clean(c, a) || stops_damaged(c, a),
        stops_clean(c, b) || stops_damaged(c, b),
    ensures
        a == b,
    decreases a.len(),
{
    if a.len() > 0 {
        lemma_log_first(a);
        lemma_record_at_embed(c, 0, log_bytes(a), a[0]);
    }
    if b.len() > 0 {
        lemma_log_first(b);
        lemma_record_at_embed(c, 0, log_bytes(b), b[0]);
    }
    if a.len() == 0 && b.len() == 0 {
        assert(a =~= b);
    } else if a.len() == 0 {
        assert(log_bytes(a).len() == 0);
        assert(log_readable(b) && entry_readable(b[0]));
        lemma_record_not_stop(c, 0, b[0]);
    } else if b.len() == 0 {
        assert(log_bytes(b).len() == 0);
        assert(entry_readable(a[0]));
        lemma_record_not_stop(c, 0, a[0]);
    } else {
        assert(entry_readable(a[0]) && entry_readable(b[0]));
        lemma_record_unique(c, 0, a[0], b[0]);
        let e = entry_bytes(a[0]).len() as int;
        let c2 = c.subrange(e, c.len() as int);
        lemma_stops_shift(c, a, e);
        lemma_stops_shift(c, b, e);
        lemma_stops_unique(c2, a.drop_first(), b.drop_first());
        assert(a =~= seq![a[0]] + a.drop_first());
        assert(b =~= seq![b[0]] + b.drop_first());
    }
}

/// A record at the start of `s`, where `c` holds `s` at `o`, stands at `o` in `c`.
pub proof fn lemma_record_at_embed(c: Seq<u8>, o: int, s: Seq<u8>, e: Entry)
    requires
        0 <= o,
        o + s.len() <= c.len(),
        c.subrange(o, o + s.len()) == s,
        record_at(s, 0, e.0, e.1, e.2),
    ensures
        record_at(c, o, e.0, e.1, e.2),
{
    let r = entry_bytes(e);
    assert(c.subrange(o, o + r.len()) =~= s.subrange(0, r.len() as int));
}

/// Dropping the first record of bytes that hold records and then stop leaves
/// bytes that hold the rest and stop the same way.
proof fn lemma_stops_shift(c: Seq<u8>, a: Seq<Entry>, e: int)
    requires
        stops_clean(c, a) || stops_damaged(c, a),
        a.len() > 0,
        e == entry_bytes(a[0]).len(),
    ensures
        stops_clean(c, a) ==> stops_clean(c.subrange(e, c.len() as int), a.drop_first()),
        stops_damaged(c, a) ==> stops_damaged(c.subrange(e, c.len() as int), a.drop_first()),
{
    lemma_log_first(a);
    let c2 = c.subrange(e, c.len() as int);
    let lb = log_bytes(a);
    let lb2 = log_bytes(a.drop_first());
    let o = lb.len() as int;
    let o2 = lb2.len() as int;
    assert(o == e + o2);
    assert(lb2 =~= c2.subrange(0, o2)) by {
        assert forall|j: int| 0 <= j < o2 implies lb2[j] == c2[j] by {
            assert(lb.subrange(e, o)[j] == lb[e + j]);
            assert(c.subrange(0, o)[e + j] == c[e + j]);
        }
    }
    assert(log_readable(a.drop_first())) by {
        assert forall|j: int| 0 <= j < a.drop_first().len() implies entry_readable(
            #[trigger] a.drop_first()[j],
        ) by {
            assert(a.drop_first()[j] == a[j + 1]);
        }
    }
    if stops_clean(c, a) {
        if o2 + 1 < c2.len() {
            assert(c2[o2 + 1] == c[o + 1]);
        }
        if o2 + 2 < c2.len() {
            assert(c2[o2 + 2] == c[o + 2]);
        }
    }
    if stops_damaged(c, a) {
        let (t, ks, vs) = choose|t: u8, ks: nat, vs: nat| #[trigger] framed_at(c, o, t, ks, vs);
        let hb = header_bytes(t, ks, vs);
        assert(c2.subrange(o2, o2 + hb.len()) =~= c.subrange(o, o + hb.len()));
        assert(framed_at(c2, o2, t, ks, vs));
        assert forall|t2: LogRecordType, k: Seq<u8>, v: Seq<u8>|
            #[trigger] record_at(c2, o2, t2, k, v) implies !readable_sizes(k.len(), v.len()) by {
            let r = record_bytes(t2, k, v);
            assert(c.subrange(o, o + r.len()) =~= c2.subrange(o2, o2 + r.len()));
            assert(record_at(c, o, t2, k, v));
        }
    }
}

/// An empty file holds no records.
pub proof fn lemma_log_empty_of_empty(l: Seq<Entry>)
    requires
        stops_clean(Seq::<u8>::empty(), l),
    ensures
        l == Seq::<Entry>::empty(),
{
    lemma_log_empty(l);
    assert(l =~= Seq::<Entry>::empty());
}

/// The records that `c` holds from its start, where they are followed by an
/// end, a blank or a damaged record.
pub open spec fn file_log(c: Seq<u8>) -> Seq<Entry> {
    choose|l: Seq<Entry>| stops_clean(c, l) || stops_damaged(c, l)
}

/// The records each file of `table` holds from its start.
pub open spec fn table_logs(table: Seq<(u32, Seq<u8>)>) -> Seq<Seq<Entry>> {
    Seq::new(table.len(), |j: int| file_log(table[j].1))
}

/// Whether each file of `table` holds the records of `logs` and then ends or looks blank.
pub open spec fn files_stop_clean(table: Seq<(u32, Seq<u8>)>, logs: Seq<Seq<Entry>>) -> bool {
    &&& table.len() == logs.len()
    &&& forall|i: int| 0 <= i < table.len() ==> stops_clean((#[trigger] table[i]).1, logs[i])
}

/// Whether the files of `table` up to the last of `logs` hold those records
/// and end cleanly, but for the last of them, where a damaged record follows.
pub open spec fn files_stop_damaged(table: Seq<(u32, Seq<u8>)>, logs: Seq<Seq<Entry>>) -> bool {
    &&& 0 < logs.len() <= table.len()
    &&& forall|i: int| 0 <= i < logs.len() - 1 ==> stops_clean((#[trigger] table[i]).1, logs[i])
    &&& stops_damaged(table[logs.len() - 1].1, logs.last())
}

pub proof fn lemma_file_log(c: Seq<u8>, l: Seq<Entry>)
    requires
        stops_clean(c, l) || stops_damaged(c, l),
    ensures
        file_log(c) == l,
{
    lemma_stops_unique(c, l, file_log(c));
}

pub proof fn lemma_table_logs_clean(table: Seq<(u32, Seq<u8>)>, l: Seq<Seq<Entry>>)
    requires
        files_stop_clean(table, l),
    ensures
        table_logs(table) == l,
{
    assert forall|j: int| 0 <= j < l.len() implies table_logs(table)[j] == l[j] by {
        assert(stops_clean(table[j].1, l[j]));
        lemma_file_log(table[j].1, l[j]);
    }
    assert(table_logs(table) =~= l);
}

/// Files that hold exactly their records end cleanly.
pub proof fn lemma_matches_clean(table: Seq<(u32, Seq<u8>)>, l: Seq<Seq<Entry>>)
    requires
        table_matches(table, l),
    ensures
        files_stop_clean(table, l),
{
    assert forall|i: int| 0 <= i < table.len() implies stops_clean((#[trigger] table[i]).1, l[i]) by {
        assert(table[i].1 == log_bytes(l[i]));
        assert(log_bytes(l[i]) =~= table[i].1.subrange(0, log_bytes(l[i]).len() as int));
    }
}

} // verus!
