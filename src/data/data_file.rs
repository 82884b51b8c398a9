use vstd::prelude::*;
use vstd::slice::{slice_subrange, slice_to_vec};
use vstd::string::StringExecFns;
use crate::data::log_record::{
    LogRecord, LogRecordType, ReadLogRecord, body_bytes, crc32, crc32_of, fits_record,
    get_u32_le, header_bytes, header_len, lemma_varint_len_u32, max_log_record_header_size,
    put_length_delimiter, read_length_delimiter, record_bytes, type_byte, u32_le, varint,
};
use crate::errors::{Errors, Result};
use crate::fio::IOManager;

verus! {

/// Whether `content` holds, from `offset` on, the record of kind `t` with this key and value.
pub open spec fn record_at(
    content: Seq<u8>,
    offset: int,
    t: LogRecordType,
    key: Seq<u8>,
    value: Seq<u8>,
) -> bool {
    let b = record_bytes(t, key, value);
    &&& 0 <= offset
    &&& offset + b.len() <= content.len()
    &&& content.subrange(offset, offset + b.len()) == b
}

/// Whether a record with this header can be told apart from the blank end of a file.
pub open spec fn readable_sizes(key_len: nat, value_len: nat) -> bool {
    fits_record(key_len, value_len) && !(key_len == 0 && value_len == 0)
}

/// Whether `c` looks blank at `offset`: the two bytes after it, where the file
/// has them, are zero, so a header there would give two zero sizes.
pub open spec fn blank_at(c: Seq<u8>, offset: int) -> bool {
    &&& (offset + 1 >= c.len() || c[offset + 1] == 0)
    &&& (offset + 2 >= c.len() || c[offset + 2] == 0)
}

/// Whether `c` holds at `offset` a header of kind byte `t` and sizes `ks` and
/// `vs`, together with every byte that header frames: key, value and CRC.
pub open spec fn framed_at(c: Seq<u8>, offset: int, t: u8, ks: nat, vs: nat) -> bool {
    let hb = header_bytes(t, ks, vs);
    &&& t == 1 || t == 2
    &&& readable_sizes(ks, vs)
    &&& 0 <= offset
    &&& offset + hb.len() + ks + vs + 4 <= c.len()
    &&& c.subrange(offset, offset + hb.len()) == hb
}

/// One numbered, append-only data file.
pub struct DataFile<IO> {
    file_id: u32,
    write_off: u64,
    io_manager: IO,
}

impl<IO: IOManager> DataFile<IO> {
    /// The number of the file.
    pub closed spec fn id(&self) -> u32 {
        self.file_id
    }

    /// The offset at which the next record goes.
    pub closed spec fn spec_write_off(&self) -> u64 {
        self.write_off
    }

    /// The bytes the file holds.
    pub closed spec fn content(&self) -> Seq<u8> {
        self.io_manager.content()
    }

    /// Opens or creates the data file numbered `file_id` in `dir_path`.
    pub fn new(dir_path: &str, file_id: u32) -> (r: Result<DataFile<IO>>)
        ensures
            match r {
                Ok(f) => f.id() == file_id && f.spec_write_off() == 0,
                Err(e) => e == Errors::FailedToOpenDataFile,
            },
    {
        let file_name = get_data_file_name(file_id);
        let io_manager = IO::open(dir_path, file_name.as_str())?;
        Ok(DataFile { file_id, write_off: 0, io_manager })
    }

    /// The data file numbered `file_id` that `io_manager` gives access to.
    pub fn with_io(file_id: u32, io_manager: IO) -> (r: DataFile<IO>)
        ensures
            r.id() == file_id,
            r.spec_write_off() == 0,
            r.content() == io_manager.content(),
    {
        DataFile { file_id, write_off: 0, io_manager }
    }

    /// The file underneath.
    pub fn io_manager(&self) -> (r: &IO)
        ensures
            r.content() == self.content(),
    {
        &self.io_manager
    }

    pub fn get_write_off(&self) -> (r: u64)
        ensures
            r == self.spec_write_off(),
    {
        self.write_off
    }

    pub fn set_write_off(&mut self, offset: u64)
        ensures
            final(self).spec_write_off() == offset,
            final(self).id() == old(self).id(),
            final(self).content() == old(self).content(),
    {
        self.write_off = offset;
    }

    pub fn get_file_id(&self) -> (r: u32)
        ensures
            r == self.id(),
    {
        self.file_id
    }

    /// The length of the file in bytes.
    pub fn file_size(&self) -> (r: u64)
        ensures
            r == self.content().len(),
    {
        self.io_manager.size()
    }

    /// Appends `buf` and returns the offset at which it starts.
    pub fn write(&mut self, buf: &[u8]) -> (r: Result<u64>)
        requires
            old(self).spec_write_off() + buf@.len() <= u64::MAX,
        ensures
            final(self).id() == old(self).id(),
            match r {
                Ok(start) => {
                    &&& start == old(self).spec_write_off()
                    &&& final(self).spec_write_off() == old(self).spec_write_off() + buf@.len()
                    &&& final(self).content() == old(self).content() + buf@
                },
                Err(e) => {
                    &&& e == Errors::FailedToWriteToDataFile
                    &&& final(self).spec_write_off() == old(self).spec_write_off()
                    &&& final(self).content() == old(self).content()
                },
            },
    {
        let n = self.io_manager.write(buf)?;
        let start = self.write_off;
        self.write_off = start + n as u64;
        Ok(start)
    }

    /// Flushes the file to durable storage.
    pub fn sync(&self) -> (r: Result<()>)
        ensures
            r is Err ==> r->Err_0 == Errors::FailedToSyncDataFile,
    {
        self.io_manager.sync()
    }

    /// Reads the record that starts at `offset`. A record that is intact there
    /// is read back as it was written, unless the file cannot be read; what is
    /// read back always stands there byte for byte. Past the end of the file,
    /// or where the rest of the file is blank or cut short, the answer is
    /// `ReadDataFileEOF`; where the bytes are damaged, `InvalidLogRecordCrc`.
    #[verifier::rlimit(50)]
    pub fn read_log_record(&self, offset: u64) -> (r: Result<ReadLogRecord>)
        ensures
            match r {
                Ok(rr) => {
                    &&& readable_sizes(rr.record.key@.len(), rr.record.value@.len())
                    &&& rr.size == rr.record.spec_bytes().len()
                    &&& record_at(
                        self.content(),
                        offset as int,
                        rr.record.rec_type,
                        rr.record.key@,
                        rr.record.value@,
                    )
                },
                Err(e) => e == Errors::ReadDataFileEOF || e == Errors::InvalidLogRecordCrc || e
                    == Errors::FailedReadFromDataFile,
            },
            forall|t: LogRecordType, k: Seq<u8>, v: Seq<u8>|
                #[trigger] record_at(self.content(), offset as int, t, k, v) && readable_sizes(
                    k.len(),
                    v.len(),
                ) ==> r == Err::<ReadLogRecord, Errors>(Errors::FailedReadFromDataFile) || (
                r is Ok && r->Ok_0.record.rec_type == t && r->Ok_0.record.key@ == k
                    && r->Ok_0.record.value@ == v),
            offset >= self.content().len() ==> r == Err::<ReadLogRecord, Errors>(
                Errors::ReadDataFileEOF,
            ) || r == Err::<ReadLogRecord, Errors>(Errors::FailedReadFromDataFile),
            blank_at(self.content(), offset as int) ==> r == Err::<ReadLogRecord, Errors>(
                Errors::ReadDataFileEOF,
            ) || r == Err::<ReadLogRecord, Errors>(Errors::FailedReadFromDataFile),
            forall|t: u8, ks: nat, vs: nat|
                #[trigger] framed_at(self.content(), offset as int, t, ks, vs) ==> r is Ok || r
                    == Err::<ReadLogRecord, Errors>(Errors::InvalidLogRecordCrc) || r == Err::<
                    ReadLogRecord,
                    Errors,
                >(Errors::FailedReadFromDataFile),
    {
        let hsize = max_log_record_header_size();
        let mut header = zeroed(hsize);
        let n = self.io_manager.read(&mut header, offset)?;
        proof {
            let c = self.content();
            assert forall|t: LogRecordType, k: Seq<u8>, v: Seq<u8>|
                #[trigger] record_at(c, offset as int, t, k, v) && readable_sizes(
                    k.len(),
                    v.len(),
                ) implies header_bytes(type_byte(t), k.len(), v.len()).len() <= n
                && header_bytes(type_byte(t), k.len(), v.len()).is_prefix_of(header@) by {
                let hb = header_bytes(type_byte(t), k.len(), v.len());
                lemma_varint_len_u32(k.len());
                lemma_varint_len_u32(v.len());
                lemma_varint_len_u32(u32::MAX as nat);
                assert(record_bytes(t, k, v) == hb + k + v + u32_le(
                    crc32_of(body_bytes(t, k, v)),
                ));
                assert forall|j: int| 0 <= j < hb.len() implies header@[j] == hb[j] by {
                    assert(hb[j] == record_bytes(t, k, v)[j]);
                    assert(c.subrange(offset as int, offset + record_bytes(t, k, v).len())[j]
                        == c[offset + j]);
                }
                assert(hb =~= header@.subrange(0, hb.len() as int));
            }
            assert forall|t: u8, ks: nat, vs: nat| #[trigger] framed_at(c, offset as int, t, ks, vs)
                implies header_bytes(t, ks, vs).len() <= n && header_bytes(t, ks, vs).is_prefix_of(
                header@,
            ) by {
                let hb = header_bytes(t, ks, vs);
                lemma_varint_len_u32(ks);
                lemma_varint_len_u32(vs);
                lemma_varint_len_u32(u32::MAX as nat);
                assert forall|j: int| 0 <= j < hb.len() implies header@[j] == hb[j] by {
                    assert(c.subrange(offset as int, offset + hb.len())[j] == c[offset + j]);
                }
                assert(hb =~= header@.subrange(0, hb.len() as int));
            }
            if blank_at(c, offset as int) && offset < c.len() {
                assert(header@[1] == 0);
                assert(header@[2] == 0);
            }
        }
        let (t, ks, vs, hl) = decode_header(header.as_slice(), n)?;
        let ghost c = self.content();
        let ghost hb = header_bytes(t, ks as nat, vs as nat);
        proof {
            assert forall|j: int| 0 <= j < hl implies c[offset + j] == hb[j] by {
                assert(header@.subrange(0, hl as int)[j] == header@[j]);
            }
        }
        let kv_len = ks + vs + 4;
        if offset > u64::MAX - (hl + kv_len) as u64 {
            proof {
                assert forall|t0: u8, ks0: nat, vs0: nat| !#[trigger] framed_at(c, offset as int, t0, ks0, vs0) by {
                    if framed_at(c, offset as int, t0, ks0, vs0) {
                        assert(header_bytes(t0, ks0, vs0).is_prefix_of(header@));
                    }
                }
            }
            return Err(Errors::ReadDataFileEOF);
        }
        let mut kv = zeroed(kv_len);
        let m = self.io_manager.read(&mut kv, offset + hl as u64)?;
        if m < kv_len {
            proof {
                assert forall|t0: u8, ks0: nat, vs0: nat| !#[trigger] framed_at(c, offset as int, t0, ks0, vs0) by {
                    if framed_at(c, offset as int, t0, ks0, vs0) {
                        assert(header_bytes(t0, ks0, vs0).is_prefix_of(header@));
                    }
                }
            }
            return Err(Errors::ReadDataFileEOF);
        }
        let hdr = slice_subrange(header.as_slice(), 0, hl);
        proof {
            assert(hdr@ == hb);
            assert forall|t0: LogRecordType, k0: Seq<u8>, v0: Seq<u8>|
                #[trigger] record_at(c, offset as int, t0, k0, v0) && readable_sizes(
                    k0.len(),
                    v0.len(),
                ) implies hdr@ + kv@ == record_bytes(t0, k0, v0) by {
                assert(header_bytes(type_byte(t0), k0.len(), v0.len()).is_prefix_of(header@));
                lemma_parts_of_record_at(c, offset as int, hb, kv@, t0, k0, v0);
            }
        }
        let record = decode_body(hdr, kv.as_slice(), t, ks, vs);
        let record = match record {
            Ok(rec) => rec,
            Err(e) => {
                return Err(e);
            },
        };
        proof {
            lemma_record_at_of_parts(c, offset as int, hb, kv@, record.rec_type, record.key@, record.value@);
        }
        Ok(ReadLogRecord { record, size: hl + kv_len })
    }
}

/// Where a record stands at `off`, a header and the bytes after it that
/// match the file there and together are as long as the record make it up.
proof fn lemma_parts_of_record_at(
    c: Seq<u8>,
    off: int,
    hb: Seq<u8>,
    kv: Seq<u8>,
    t: LogRecordType,
    k: Seq<u8>,
    v: Seq<u8>,
)
    requires
        record_at(c, off, t, k, v),
        hb.len() + kv.len() == record_bytes(t, k, v).len(),
        forall|j: int| 0 <= j < hb.len() ==> c[off + j] == #[trigger] hb[j],
        forall|j: int| 0 <= j < kv.len() ==> #[trigger] kv[j] == c[off + hb.len() + j],
    ensures
        hb + kv == record_bytes(t, k, v),
{
    let rb = record_bytes(t, k, v);
    assert forall|j: int| 0 <= j < rb.len() implies (hb + kv)[j] == rb[j] by {
        assert(c.subrange(off, off + rb.len())[j] == c[off + j]);
        if j >= hb.len() {
            assert(kv[j - hb.len()] == c[off + hb.len() + (j - hb.len())]);
        }
    }
    assert(hb + kv =~= rb);
}

/// A header and the bytes after it that match the file at `off` and together
/// make up a record put that record there.
proof fn lemma_record_at_of_parts(
    c: Seq<u8>,
    off: int,
    hb: Seq<u8>,
    kv: Seq<u8>,
    t: LogRecordType,
    k: Seq<u8>,
    v: Seq<u8>,
)
    requires
        0 <= off,
        off + hb.len() + kv.len() <= c.len(),
        hb + kv == record_bytes(t, k, v),
        forall|j: int| 0 <= j < hb.len() ==> c[off + j] == #[trigger] hb[j],
        forall|j: int| 0 <= j < kv.len() ==> #[trigger] kv[j] == c[off + hb.len() + j],
    ensures
        record_at(c, off, t, k, v),
{
    let rb = record_bytes(t, k, v);
    assert forall|j: int| 0 <= j < rb.len() implies c.subrange(off, off + rb.len())[j] == rb[j] by {
        if j >= hb.len() {
            assert(kv[j - hb.len()] == c[off + hb.len() + (j - hb.len())]);
        }
    }
    assert(c.subrange(off, off + rb.len()) =~= rb);
}

/// Rebuilds a record from its header `hdr`, of kind `t` and sizes `ks` and
/// `vs`, and the `ks + vs + 4` bytes `kv` that follow it: the key, the value and
/// the CRC. Fails where the CRC does not match.
pub fn decode_body(hdr: &[u8], kv: &[u8], t: u8, ks: usize, vs: usize) -> (r: Result<LogRecord>)
    requires
        t == 1 || t == 2,
        readable_sizes(ks as nat, vs as nat),
        hdr@ == header_bytes(t, ks as nat, vs as nat),
        kv@.len() == ks + vs + 4,
    ensures
        match r {
            Ok(rec) => {
                &&& type_byte(rec.rec_type) == t
                &&& rec.key@ == kv@.subrange(0, ks as int)
                &&& rec.value@ == kv@.subrange(ks as int, ks + vs)
                &&& hdr@ + kv@ == rec.spec_bytes()
            },
            Err(e) => e == Errors::InvalidLogRecordCrc,
        },
        forall|t0: LogRecordType, k0: Seq<u8>, v0: Seq<u8>|
            hdr@ + kv@ == #[trigger] record_bytes(t0, k0, v0) ==> r is Ok && r->Ok_0.rec_type == t0
                && r->Ok_0.key@ == k0 && r->Ok_0.value@ == v0,
{
    let key = slice_to_vec(slice_subrange(kv, 0, ks));
    let value = slice_to_vec(slice_subrange(kv, ks, ks + vs));
    let stored = get_u32_le(slice_subrange(kv, ks + vs, ks + vs + 4));
    let mut body: Vec<u8> = slice_to_vec(hdr);
    body.extend_from_slice(key.as_slice());
    body.extend_from_slice(value.as_slice());
    let crc = crc32(body.as_slice());
    let rec_type = LogRecordType::from_u8(t);
    proof {
        assert(kv@ =~= key@ + value@ + u32_le(stored));
        assert(body@ =~= body_bytes(rec_type, key@, value@));
        assert forall|t0: LogRecordType, k0: Seq<u8>, v0: Seq<u8>|
            hdr@ + kv@ == #[trigger] record_bytes(t0, k0, v0) implies rec_type == t0 && key@ == k0
            && value@ == v0 && crc == stored by {
            lemma_record_bytes_split(t0, k0, v0, hdr@, kv@, t, ks as nat, vs as nat);
            assert(key@ =~= k0);
            assert(value@ =~= v0);
            assert(body_bytes(t0, k0, v0) =~= body_bytes(rec_type, key@, value@));
            assert(u32_le(stored) =~= kv@.subrange(ks + vs, ks + vs + 4));
            lemma_u32_le_injective(stored, crc32_of(body_bytes(t0, k0, v0)));
        }
    }
    if crc != stored {
        return Err(Errors::InvalidLogRecordCrc);
    }
    proof {
        assert(hdr@ + kv@ =~= record_bytes(rec_type, key@, value@));
    }
    Ok(LogRecord { key, value, rec_type })
}

/// Where the bytes of a record are split after its header, the header fixes
/// the kind and the sizes, and the rest is key, value and CRC.
proof fn lemma_record_bytes_split(
    t: LogRecordType,
    k: Seq<u8>,
    v: Seq<u8>,
    hdr: Seq<u8>,
    kv: Seq<u8>,
    t1: u8,
    ks: nat,
    vs: nat,
)
    requires
        hdr + kv == record_bytes(t, k, v),
        hdr == header_bytes(t1, ks, vs),
        kv.len() == ks + vs + 4,
    ensures
        t1 == type_byte(t),
        ks == k.len(),
        vs == v.len(),
        hdr == header_bytes(type_byte(t), k.len(), v.len()),
        kv.subrange(0, k.len() as int) == k,
        kv.subrange(k.len() as int, k.len() + v.len() as int) == v,
        kv.subrange(k.len() + v.len() as int, k.len() + v.len() + 4int) == u32_le(
            crc32_of(body_bytes(t, k, v)),
        ),
{
    let h0 = header_bytes(type_byte(t), k.len(), v.len());
    let rb = record_bytes(t, k, v);
    assert(rb == h0 + k + v + u32_le(crc32_of(body_bytes(t, k, v))));
    // both headers are prefixes of the same bytes; the varints fix their lengths
    lemma_header_prefix_unique(t1, ks, vs, type_byte(t), k.len(), v.len(), rb);
    assert(hdr == h0);
    assert(kv =~= rb.subrange(h0.len() as int, rb.len() as int));
    assert(kv.subrange(0, k.len() as int) =~= k);
    assert(kv.subrange(k.len() as int, k.len() + v.len() as int) =~= v);
    assert(kv.subrange(k.len() + v.len() as int, k.len() + v.len() + 4int) =~= u32_le(
        crc32_of(body_bytes(t, k, v)),
    ));
}

/// Two headers that both begin the same bytes are the same header.
pub(crate) proof fn lemma_header_prefix_unique(t1: u8, a1: nat, b1: nat, t2: u8, a2: nat, b2: nat, s: Seq<u8>)
    requires
        header_bytes(t1, a1, b1).is_prefix_of(s),
        header_bytes(t2, a2, b2).is_prefix_of(s),
    ensures
        t1 == t2,
        a1 == a2,
        b1 == b2,
{
    let h1 = header_bytes(t1, a1, b1);
    let h2 = header_bytes(t2, a2, b2);
    assert(h1[0] == s[0] && h2[0] == s[0]);
    let s1 = s.subrange(1, s.len() as int);
    assert(varint(a1).is_prefix_of(s1)) by {
        assert forall|j: int| 0 <= j < varint(a1).len() implies varint(a1)[j] == s1[j] by {
            assert(h1[1 + j] == varint(a1)[j]);
        }
        assert(varint(a1) =~= s1.subrange(0, varint(a1).len() as int));
    }
    assert(varint(a2).is_prefix_of(s1)) by {
        assert forall|j: int| 0 <= j < varint(a2).len() implies varint(a2)[j] == s1[j] by {
            assert(h2[1 + j] == varint(a2)[j]);
        }
        assert(varint(a2) =~= s1.subrange(0, varint(a2).len() as int));
    }
    lemma_varint_prefix_unique(a1, a2, s1);
    let l = varint(a1).len() as int;
    let s2 = s.subrange(1 + l, s.len() as int);
    assert(varint(b1).is_prefix_of(s2)) by {
        assert forall|j: int| 0 <= j < varint(b1).len() implies varint(b1)[j] == s2[j] by {
            assert(h1[1 + l + j] == varint(b1)[j]);
        }
        assert(varint(b1) =~= s2.subrange(0, varint(b1).len() as int));
    }
    assert(varint(b2).is_prefix_of(s2)) by {
        assert forall|j: int| 0 <= j < varint(b2).len() implies varint(b2)[j] == s2[j] by {
            assert(h2[1 + l + j] == varint(b2)[j]);
        }
        assert(varint(b2) =~= s2.subrange(0, varint(b2).len() as int));
    }
    lemma_varint_prefix_unique(b1, b2, s2);
}

/// No two numbers have varints that both begin the same bytes.
proof fn lemma_varint_prefix_unique(a: nat, b: nat, s: Seq<u8>)
    requires
        varint(a).is_prefix_of(s),
        varint(b).is_prefix_of(s),
    ensures
        a == b,
    decreases a,
{
    assert(varint(a)[0] == s[0] && varint(b)[0] == s[0]);
    if a >= 128 && b >= 128 {
        let s1 = s.subrange(1, s.len() as int);
        assert(varint(a / 128).is_prefix_of(s1)) by {
            assert forall|j: int| 0 <= j < varint(a / 128).len() implies varint(a / 128)[j]
                == s1[j] by {
                assert(varint(a)[1 + j] == varint(a / 128)[j]);
            }
            assert(varint(a / 128) =~= s1.subrange(0, varint(a / 128).len() as int));
        }
        assert(varint(b / 128).is_prefix_of(s1)) by {
            assert forall|j: int| 0 <= j < varint(b / 128).len() implies varint(b / 128)[j]
                == s1[j] by {
                assert(varint(b)[1 + j] == varint(b / 128)[j]);
            }
            assert(varint(b / 128) =~= s1.subrange(0, varint(b / 128).len() as int));
        }
        lemma_varint_prefix_unique(a / 128, b / 128, s1);
    }
}

/// Two `u32`s with the same four bytes are equal.
proof fn lemma_u32_le_injective(a: u32, b: u32)
    requires
        u32_le(a) == u32_le(b),
    ensures
        a == b,
{
    assert(u32_le(a)[0] == u32_le(b)[0] && u32_le(a)[1] == u32_le(b)[1] && u32_le(a)[2] == u32_le(
        b,
    )[2] && u32_le(a)[3] == u32_le(b)[3]);
    assert(a == b) by (bit_vector)
        requires
            (a & 0xff) as u8 == (b & 0xff) as u8,
            ((a >> 8u32) & 0xff) as u8 == ((b >> 8u32) & 0xff) as u8,
            ((a >> 16u32) & 0xff) as u8 == ((b >> 16u32) & 0xff) as u8,
            ((a >> 24u32) & 0xff) as u8 == ((b >> 24u32) & 0xff) as u8,
    ;
}

/// `n` zero bytes.
fn zeroed(n: usize) -> (r: Vec<u8>)
    ensures
        r@.len() == n,
        forall|i: int| 0 <= i < n ==> r@[i] == 0,
{
    let mut r: Vec<u8> = Vec::new();
    while r.len() < n
        invariant
            r@.len() <= n,
            forall|i: int| 0 <= i < r@.len() ==> r@[i] == 0,
        decreases n - r@.len(),
    {
        r.push(0);
    }
    r
}

/// Whether two byte strings are equal.
pub(crate) fn same_bytes(a: &[u8], b: &[u8]) -> (r: bool)
    ensures
        r == (a@ == b@),
{
    if a.len() != b.len() {
        return false;
    }
    let mut i: usize = 0;
    while i < a.len()
        invariant
            a@.len() == b@.len(),
            i <= a@.len(),
            forall|j: int| 0 <= j < i ==> a@[j] == b@[j],
        decreases a@.len() - i,
    {
        if a[i] != b[i] {
            return false;
        }
        i = i + 1;
    }
    assert(a@ =~= b@);
    true
}

/// Reads the header of a record from the first `n` bytes of `h`, which were
/// read from the file; the rest of `h` is zero. Returns the kind byte, the key
/// and value sizes, and the length of the header. A header that is not the
/// shortest encoding of its sizes, or that names no kind, counts as damaged.
pub fn decode_header(h: &[u8], n: usize) -> (r: Result<(u8, usize, usize, usize)>)
    requires
        h@.len() == 11,
        n <= 11,
        forall|i: int| n <= i < 11 ==> h@[i] == 0,
    ensures
        match r {
            Ok((t, ks, vs, hl)) => {
                &&& t == 1 || t == 2
                &&& readable_sizes(ks as nat, vs as nat)
                &&& hl == header_bytes(t, ks as nat, vs as nat).len()
                &&& hl <= n
                &&& h@.subrange(0, hl as int) == header_bytes(t, ks as nat, vs as nat)
            },
            Err(e) => e == Errors::ReadDataFileEOF || e == Errors::InvalidLogRecordCrc,
        },
        forall|t: u8, ks: nat, vs: nat|
            (t == 1 || t == 2) && readable_sizes(ks, vs) && #[trigger] header_bytes(
                t,
                ks,
                vs,
            ).len() <= n && header_bytes(t, ks, vs).is_prefix_of(h@) ==> r == Ok::<
                (u8, usize, usize, usize),
                Errors,
            >((t, ks as usize, vs as usize, header_bytes(t, ks, vs).len() as usize)),
        n == 0 ==> r == Err::<(u8, usize, usize, usize), Errors>(Errors::ReadDataFileEOF),
        h@[1] == 0 && h@[2] == 0 ==> r == Err::<(u8, usize, usize, usize), Errors>(
            Errors::ReadDataFileEOF,
        ),
{
    let hsize: usize = 11;
    let t = h[0];
    proof {
        lemma_varint_len_u32(u32::MAX as nat);
        assert forall|t0: u8, ks0: nat, vs0: nat|
            (t0 == 1 || t0 == 2) && readable_sizes(ks0, vs0) && #[trigger] header_bytes(
                t0,
                ks0,
                vs0,
            ).len() <= n && header_bytes(t0, ks0, vs0).is_prefix_of(h@) implies t == t0
            && varint(ks0).is_prefix_of(h@.subrange(1, 11)) by {
            let hb = header_bytes(t0, ks0, vs0);
            assert(hb[0] == t0);
            assert(h@.subrange(0, hb.len() as int)[0] == h@[0]);
            assert forall|j: int| 0 <= j < varint(ks0).len() implies varint(ks0)[j] == h@.subrange(
                1,
                11,
            )[j] by {
                assert(hb[1 + j] == varint(ks0)[j]);
                assert(h@.subrange(0, hb.len() as int)[1 + j] == h@[1 + j]);
            }
            assert(varint(ks0) =~= h@.subrange(1, 11).subrange(0, varint(ks0).len() as int));
        }
        if h@[1] == 0 {
            assert(varint(0).is_prefix_of(h@.subrange(1, 11))) by {
                reveal_with_fuel(varint, 1);
                assert(varint(0) =~= h@.subrange(1, 11).subrange(0, 1));
            }
        }
    }
    let ks = match read_length_delimiter(slice_subrange(h, 1, hsize)) {
        Some(k) => k,
        None => {
            return Err(Errors::InvalidLogRecordCrc);
        },
    };
    if ks > u32::MAX as usize {
        return Err(Errors::InvalidLogRecordCrc);
    }
    let klen = prost::length_delimiter_len(ks);
    proof {
        lemma_varint_len_u32(ks as nat);
        assert forall|t0: u8, ks0: nat, vs0: nat|
            (t0 == 1 || t0 == 2) && readable_sizes(ks0, vs0) && #[trigger] header_bytes(
                t0,
                ks0,
                vs0,
            ).len() <= n && header_bytes(t0, ks0, vs0).is_prefix_of(h@) implies ks0 == ks
            && varint(vs0).is_prefix_of(h@.subrange(1 + klen, 11)) by {
            assert(varint((ks0 as usize) as nat).is_prefix_of(h@.subrange(1, 11)));
            let hb = header_bytes(t0, ks0, vs0);
            lemma_varint_len_u32(vs0);
            assert forall|j: int| 0 <= j < varint(vs0).len() implies varint(vs0)[j] == h@.subrange(
                1 + klen,
                11,
            )[j] by {
                assert(hb[1 + klen + j] == varint(vs0)[j]);
                assert(h@.subrange(0, hb.len() as int)[1 + klen + j] == h@[1 + klen + j]);
            }
            assert(varint(vs0) =~= h@.subrange(1 + klen, 11).subrange(
                0,
                varint(vs0).len() as int,
            ));
        }
        if ks == 0 && h@[2] == 0 {
            reveal_with_fuel(varint, 1);
            assert(varint(0).is_prefix_of(h@.subrange(1 + klen, 11))) by {
                reveal_with_fuel(varint, 1);
                assert(varint(0) =~= h@.subrange(1 + klen, 11).subrange(0, 1));
            }
        }
    }
    let vs = match read_length_delimiter(slice_subrange(h, 1 + klen, hsize)) {
        Some(v) => v,
        None => {
            return Err(Errors::InvalidLogRecordCrc);
        },
    };
    if vs > u32::MAX as usize {
        return Err(Errors::InvalidLogRecordCrc);
    }
    if ks == 0 && vs == 0 {
        return Err(Errors::ReadDataFileEOF);
    }
    if vs > isize::MAX as usize - 16 || ks > isize::MAX as usize - 16 - vs {
        return Err(Errors::InvalidLogRecordCrc);
    }
    let hl = header_len(ks, vs);
    if n < hl {
        return Err(Errors::ReadDataFileEOF);
    }
    if t != 1 && t != 2 {
        return Err(Errors::InvalidLogRecordCrc);
    }
    let mut expected: Vec<u8> = Vec::new();
    expected.push(t);
    put_length_delimiter(ks, &mut expected);
    put_length_delimiter(vs, &mut expected);
    proof {
        assert(expected@ =~= header_bytes(t, ks as nat, vs as nat));
    }
    if !same_bytes(expected.as_slice(), slice_subrange(h, 0, hl)) {
        return Err(Errors::InvalidLogRecordCrc);
    }
    Ok((t, ks, vs, hl))
}

/// The name of the data file numbered `file_id`: the number in nine or more
/// decimal digits, then `.data`.
pub fn get_data_file_name(file_id: u32) -> (r: String)
    ensures
        r@ == data_file_name(file_id as nat),
{
    let mut name = nine_digits(file_id);
    proof {
        reveal_strlit(".data");
    }
    name.append(".data");
    name
}

/// The character of the decimal digit `d`.
pub open spec fn digit_char(d: nat) -> char {
    (48 + d) as char
}

/// The decimal digits of `n`, without leading zeros.
pub open spec fn decimal(n: nat) -> Seq<char>
    decreases n,
{
    if n < 10 {
        seq![digit_char(n)]
    } else {
        decimal(n / 10).push(digit_char(n % 10))
    }
}

/// `s`, with zeros put in front until it is `width` long.
pub open spec fn zero_padded(s: Seq<char>, width: nat) -> Seq<char> {
    if s.len() >= width {
        s
    } else {
        Seq::new((width - s.len()) as nat, |i: int| '0') + s
    }
}

/// The name of the data file numbered `id`.
pub open spec fn data_file_name(id: nat) -> Seq<char> {
    zero_padded(decimal(id), 9) + seq!['.', 'd', 'a', 't', 'a']
}

/// Relies on std's `format!` with `{:09}`: the decimal digits of `id`, padded
/// with zeros to nine, a longer number printed whole.
#[verifier::external_body]
fn nine_digits(id: u32) -> (r: String)
    ensures
        r@ == zero_padded(decimal(id as nat), 9),
{
    format!("{:09}", id)
}

} // verus!
