use vstd::prelude::*;

verus! {

/// The kind of a record on disk.
#[derive(Clone, Copy, Debug, PartialEq, Eq, Structural)]
pub enum LogRecordType {
    /// A value written by `put`.
    NORMAL,
    /// A tombstone written by `delete`.
    DELETE,
}

/// One record as it is written to a data file.
pub struct LogRecord {
    pub key: Vec<u8>,
    pub value: Vec<u8>,
    pub rec_type: LogRecordType,
}

/// Where the latest record of a key lies: a data file and a byte offset in it.
#[derive(Clone, Copy, Debug, PartialEq, Eq, Structural)]
pub struct LogRecordPos {
    pub file_id: u32,
    pub offset: u64,
}

/// A record read back from a data file, with the number of bytes it takes there.
pub struct ReadLogRecord {
    pub record: LogRecord,
    pub size: usize,
}

/// The unsigned LEB128 encoding of `n`: seven bits per byte, low bits first,
/// the high bit set on every byte but the last.
pub open spec fn varint(n: nat) -> Seq<u8>
    decreases n,
{
    if n < 128 {
        seq![n as u8]
    } else {
        seq![(n % 128 + 128) as u8] + varint(n / 128)
    }
}

/// The byte that tags a record's kind.
pub open spec fn type_byte(t: LogRecordType) -> u8 {
    match t {
        LogRecordType::NORMAL => 1,
        LogRecordType::DELETE => 2,
    }
}

/// The header of a record: its kind, then the key size and the value size as varints.
pub open spec fn header_bytes(t: u8, key_len: nat, value_len: nat) -> Seq<u8> {
    seq![t] + varint(key_len) + varint(value_len)
}

/// Everything of a record that its checksum covers.
pub open spec fn body_bytes(t: LogRecordType, key: Seq<u8>, value: Seq<u8>) -> Seq<u8> {
    header_bytes(type_byte(t), key.len(), value.len()) + key + value
}

/// The four bytes of `x`, least significant first.
pub open spec fn u32_le(x: u32) -> Seq<u8> {
    seq![
        (x & 0xff) as u8,
        ((x >> 8u32) & 0xff) as u8,
        ((x >> 16u32) & 0xff) as u8,
        ((x >> 24u32) & 0xff) as u8,
    ]
}

/// The IEEE CRC-32 of a byte string.
pub uninterp spec fn crc32_of(data: Seq<u8>) -> u32;

/// A whole record as it stands on disk: the body, then the CRC-32 of the body.
pub open spec fn record_bytes(t: LogRecordType, key: Seq<u8>, value: Seq<u8>) -> Seq<u8> {
    body_bytes(t, key, value) + u32_le(crc32_of(body_bytes(t, key, value)))
}

/// Whether a record with these key and value sizes can be encoded: each size fits
/// in a `u32`, and the encoded record fits in memory.
pub open spec fn fits_record(key_len: nat, value_len: nat) -> bool {
    key_len <= u32::MAX && value_len <= u32::MAX && key_len + value_len + 16 <= isize::MAX
}

/// Whether a record with these key and value sizes can be encoded; see `fits_record`.
pub fn record_fits(key_len: usize, value_len: usize) -> (r: bool)
    ensures
        r == fits_record(key_len as nat, value_len as nat),
{
    key_len <= u32::MAX as usize && value_len <= u32::MAX as usize && value_len <= isize::MAX
        as usize - 16 && key_len <= isize::MAX as usize - 16 - value_len
}

/// The largest header of a record whose key and value sizes fit in a `u32`.
pub open spec fn spec_max_header_size() -> nat {
    1 + 2 * varint(u32::MAX as nat).len()
}

impl LogRecord {
    pub open spec fn spec_bytes(&self) -> Seq<u8> {
        record_bytes(self.rec_type, self.key@, self.value@)
    }

    pub open spec fn spec_body(&self) -> Seq<u8> {
        body_bytes(self.rec_type, self.key@, self.value@)
    }

    /// The bytes that represent this record on disk.
    pub fn encode(&self) -> (r: Vec<u8>)
        requires
            fits_record(self.key.len() as nat, self.value.len() as nat),
        ensures
            r@ == self.spec_bytes(),
    {
        let mut buf = self.encode_body();
        let crc = crc32(buf.as_slice());
        put_u32_le(&mut buf, crc);
        buf
    }

    /// The CRC-32 that guards this record.
    pub fn get_crc(&self) -> (r: u32)
        requires
            fits_record(self.key.len() as nat, self.value.len() as nat),
        ensures
            r == crc32_of(self.spec_body()),
    {
        let buf = self.encode_body();
        crc32(buf.as_slice())
    }

    fn encode_body(&self) -> (r: Vec<u8>)
        requires
            fits_record(self.key.len() as nat, self.value.len() as nat),
        ensures
            r@ == self.spec_body(),
    {
        let mut buf: Vec<u8> = Vec::new();
        buf.push(self.rec_type.to_u8());
        proof {
            lemma_varint_len_u32(self.key.len() as nat);
            lemma_varint_len_u32(self.value.len() as nat);
        }
        put_length_delimiter(self.key.len(), &mut buf);
        put_length_delimiter(self.value.len(), &mut buf);
        buf.extend_from_slice(self.key.as_slice());
        buf.extend_from_slice(self.value.as_slice());
        proof {
            assert(buf@ =~= self.spec_body());
        }
        buf
    }
}

impl LogRecordType {
    /// The kind tagged by `v`.
    pub fn from_u8(v: u8) -> (r: LogRecordType)
        requires
            v == 1 || v == 2,
        ensures
            type_byte(r) == v,
    {
        if v == 1 {
            LogRecordType::NORMAL
        } else {
            LogRecordType::DELETE
        }
    }

    /// The byte that tags this kind.
    pub fn to_u8(&self) -> (r: u8)
        ensures
            r == type_byte(*self),
    {
        match self {
            LogRecordType::NORMAL => 1,
            LogRecordType::DELETE => 2,
        }
    }
}

/// A varint of a value that fits in a `u32` takes one to five bytes.
pub proof fn lemma_varint_len_u32(n: nat)
    requires
        n <= u32::MAX,
    ensures
        1 <= varint(n).len() <= 5,
        varint(u32::MAX as nat).len() == 5,
{
    reveal_with_fuel(varint, 6);
}

/// The longest header that a record can have: one type byte and two varints of `u32` sizes.
pub fn max_log_record_header_size() -> (r: usize)
    ensures
        r == spec_max_header_size(),
        r == 11,
{
    proof {
        lemma_varint_len_u32(u32::MAX as nat);
    }
    1 + prost::length_delimiter_len(u32::MAX as usize) * 2
}

/// The length of the header of a record with these key and value sizes.
pub fn header_len(key_size: usize, value_size: usize) -> (r: usize)
    requires
        key_size <= u32::MAX,
        value_size <= u32::MAX,
    ensures
        r == header_bytes(0, key_size as nat, value_size as nat).len(),
        r <= spec_max_header_size(),
{
    proof {
        lemma_varint_len_u32(key_size as nat);
        lemma_varint_len_u32(value_size as nat);
        lemma_varint_len_u32(u32::MAX as nat);
    }
    1 + prost::length_delimiter_len(key_size) + prost::length_delimiter_len(value_size)
}

/// Appends the four bytes of `x`, least significant first.
pub fn put_u32_le(buf: &mut Vec<u8>, x: u32)
    ensures
        final(buf)@ == old(buf)@ + u32_le(x),
{
    let b0 = (x & 0xff) as u8;
    let b1 = ((x >> 8u32) & 0xff) as u8;
    let b2 = ((x >> 16u32) & 0xff) as u8;
    let b3 = ((x >> 24u32) & 0xff) as u8;
    buf.push(b0);
    buf.push(b1);
    buf.push(b2);
    buf.push(b3);
    proof {
        assert(final(buf)@ =~= old(buf)@ + u32_le(x));
    }
}

/// The `u32` whose four bytes, least significant first, are `b`.
pub fn get_u32_le(b: &[u8]) -> (r: u32)
    requires
        b@.len() == 4,
    ensures
        u32_le(r) == b@,
{
    let x0 = b[0];
    let x1 = b[1];
    let x2 = b[2];
    let x3 = b[3];
    let r = (x0 as u32) | ((x1 as u32) << 8u32) | ((x2 as u32) << 16u32) | ((x3 as u32) << 24u32);
    assert((r & 0xff) as u8 == x0 && ((r >> 8u32) & 0xff) as u8 == x1 && ((r >> 16u32) & 0xff) as u8
        == x2 && ((r >> 24u32) & 0xff) as u8 == x3) by (bit_vector)
        requires
            r == (x0 as u32) | ((x1 as u32) << 8u32) | ((x2 as u32) << 16u32) | ((x3 as u32)
                << 24u32),
    ;
    assert(u32_le(r) =~= b@);
    r
}

pub assume_specification[ prost::length_delimiter_len ](length: usize) -> (r: usize)
    ensures
        r == varint(length as nat).len(),
;

/// Relies on prost::encode_length_delimiter: on a `Vec` it appends the varint of
/// `n`, and fails only where the vector would grow past `isize::MAX` bytes.
#[verifier::external_body]
pub(crate) fn put_length_delimiter(n: usize, buf: &mut Vec<u8>) -> (r: bool)
    ensures
        r == (old(buf)@.len() + varint(n as nat).len() <= isize::MAX),
        r ==> final(buf)@ == old(buf)@ + varint(n as nat),
        !r ==> final(buf)@ == old(buf)@,
{
    prost::encode_length_delimiter(n, buf).is_ok()
}

/// Relies on prost::decode_length_delimiter: bytes that begin with the varint of
/// `n` decode to `n`.
#[verifier::external_body]
pub(crate) fn read_length_delimiter(bytes: &[u8]) -> (r: Option<usize>)
    ensures
        forall|n: usize| #[trigger] varint(n as nat).is_prefix_of(bytes@) ==> r == Some(n),
{
    prost::decode_length_delimiter(bytes).ok()
}

/// Relies on crc32fast::hash: the IEEE CRC-32 of the bytes, which depends on them alone.
#[verifier::external_body]
pub(crate) fn crc32(data: &[u8]) -> (r: u32)
    ensures
        r == crc32_of(data@),
{
    crc32fast::hash(data)
}

} // verus!
