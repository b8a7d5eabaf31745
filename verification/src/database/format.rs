//! Layout of one record of the database file.
//!
//! A record is a 12-byte header (timestamp, key size, value size, each a
//! little-endian `u32`) followed by the UTF-8 bytes of the key and then those
//! of the value.
use vstd::prelude::*;
use vstd::string::StringSliceAdditionalSpecFns;
use vstd::utf8::*;

verus! {

/// Size of a record header: timestamp, key size and value size, 4 bytes each.
pub const HEADER_SIZE: usize = 12;

/// Where the last record of a key stands in the database file; the in-memory
/// index keeps one per key.
#[derive(Debug, Clone, Copy, PartialEq, Eq, Structural)]
pub struct KeyEntry {
    pub timestamp: u32,
    pub position: u64,
    pub total_size: u32,
}

/// What is wrong with a database file that cannot be read back.
#[derive(Debug, Clone, Copy, PartialEq, Eq, Structural)]
pub enum FormatError {
    /// A header was cut short: only this many of its bytes were there.
    Header(usize),
    /// A key is not valid UTF-8.
    InvalidKey,
}

/// The four little-endian bytes of `x`.
pub open spec fn u32_le_bytes(x: u32) -> Seq<u8> {
    seq![
        (x % 0x100) as u8,
        ((x / 0x100) % 0x100) as u8,
        ((x / 0x1_0000) % 0x100) as u8,
        ((x / 0x100_0000) % 0x100) as u8,
    ]
}

/// The `u32` whose little-endian bytes are the first four of `b`.
pub open spec fn u32_from_le(b: Seq<u8>) -> u32 {
    (b[0] + b[1] * 0x100 + b[2] * 0x1_0000 + b[3] * 0x100_0000) as u32
}

/// The bytes of the header of a record.
pub open spec fn header_bytes(timestamp: u32, key_size: u32, val_size: u32) -> Seq<u8> {
    u32_le_bytes(timestamp) + u32_le_bytes(key_size) + u32_le_bytes(val_size)
}

/// The three fields that the first 12 bytes of `data` hold.
pub open spec fn header_fields(data: Seq<u8>) -> (u32, u32, u32) {
    (
        u32_from_le(data.subrange(0, 4)),
        u32_from_le(data.subrange(4, 8)),
        u32_from_le(data.subrange(8, 12)),
    )
}

proof fn lemma_u32_le_roundtrip(x: u32)
    ensures
        u32_le_bytes(x).len() == 4,
        u32_from_le(u32_le_bytes(x)) == x,
{
    let b = u32_le_bytes(x);
    assert(b[0] + b[1] * 0x100 + b[2] * 0x1_0000 + b[3] * 0x100_0000 == x) by {
        assert((x % 0x100) as u8 + ((x / 0x100) % 0x100) as u8 * 0x100 + ((x / 0x1_0000) % 0x100) as u8
            * 0x1_0000 + ((x / 0x100_0000) % 0x100) as u8 * 0x100_0000 == x) by (bit_vector);
    }
}

proof fn lemma_le_u32_roundtrip(b: Seq<u8>)
    requires
        b.len() == 4,
    ensures
        u32_le_bytes(u32_from_le(b)) == b,
{
    let (b0, b1, b2, b3) = (b[0], b[1], b[2], b[3]);
    let x = u32_from_le(b);
    assert(b0 + b1 * 0x100 + b2 * 0x1_0000 + b3 * 0x100_0000 <= u32::MAX) by (bit_vector);
    assert(x == b0 + b1 * 0x100 + b2 * 0x1_0000 + b3 * 0x100_0000);
    assert({
        let y: u32 = (b0 + b1 * 0x100 + b2 * 0x1_0000 + b3 * 0x100_0000) as u32;
        &&& (y % 0x100) as u8 == b0
        &&& ((y / 0x100) % 0x100) as u8 == b1
        &&& ((y / 0x1_0000) % 0x100) as u8 == b2
        &&& ((y / 0x100_0000) % 0x100) as u8 == b3
    }) by (bit_vector);
    assert(u32_le_bytes(x) =~= b);
}

/// The bytes of a header, one by one: the timestamp's four bytes from the
/// least significant on, then the key size's, then the value size's.
pub proof fn lemma_header_layout(timestamp: u32, key_size: u32, val_size: u32)
    ensures
        header_bytes(timestamp, key_size, val_size).len() == HEADER_SIZE,
        header_bytes(timestamp, key_size, val_size)[0] == timestamp % 0x100,
        header_bytes(timestamp, key_size, val_size)[1] == (timestamp / 0x100) % 0x100,
        header_bytes(timestamp, key_size, val_size)[2] == (timestamp / 0x1_0000) % 0x100,
        header_bytes(timestamp, key_size, val_size)[3] == (timestamp / 0x100_0000) % 0x100,
        header_bytes(timestamp, key_size, val_size)[4] == key_size % 0x100,
        header_bytes(timestamp, key_size, val_size)[5] == (key_size / 0x100) % 0x100,
        header_bytes(timestamp, key_size, val_size)[6] == (key_size / 0x1_0000) % 0x100,
        header_bytes(timestamp, key_size, val_size)[7] == (key_size / 0x100_0000) % 0x100,
        header_bytes(timestamp, key_size, val_size)[8] == val_size % 0x100,
        header_bytes(timestamp, key_size, val_size)[9] == (val_size / 0x100) % 0x100,
        header_bytes(timestamp, key_size, val_size)[10] == (val_size / 0x1_0000) % 0x100,
        header_bytes(timestamp, key_size, val_size)[11] == (val_size / 0x100_0000) % 0x100,
{
}

/// What the fields of a header are, from its bytes alone: each field is the
/// little-endian number of its own four bytes (0..4, 4..8, 8..12), whatever
/// the other bytes hold.
pub proof fn lemma_header_fields_layout(data: Seq<u8>)
    requires
        data.len() >= HEADER_SIZE,
    ensures
        header_fields(data).0 == data[0] + data[1] * 0x100 + data[2] * 0x1_0000 + data[3] * 0x100_0000,
        header_fields(data).1 == data[4] + data[5] * 0x100 + data[6] * 0x1_0000 + data[7] * 0x100_0000,
        header_fields(data).2 == data[8] + data[9] * 0x100 + data[10] * 0x1_0000 + data[11] * 0x100_0000,
{
    let (b0, b1, b2, b3) = (data[0], data[1], data[2], data[3]);
    let (b4, b5, b6, b7) = (data[4], data[5], data[6], data[7]);
    let (b8, b9, b10, b11) = (data[8], data[9], data[10], data[11]);
    assert(b0 + b1 * 0x100 + b2 * 0x1_0000 + b3 * 0x100_0000 <= u32::MAX) by (bit_vector);
    assert(b4 + b5 * 0x100 + b6 * 0x1_0000 + b7 * 0x100_0000 <= u32::MAX) by (bit_vector);
    assert(b8 + b9 * 0x100 + b10 * 0x1_0000 + b11 * 0x100_0000 <= u32::MAX) by (bit_vector);
    let s0 = data.subrange(0, 4);
    let s1 = data.subrange(4, 8);
    let s2 = data.subrange(8, 12);
    assert(s0[0] == b0 && s0[1] == b1 && s0[2] == b2 && s0[3] == b3);
    assert(s1[0] == b4 && s1[1] == b5 && s1[2] == b6 && s1[3] == b7);
    assert(s2[0] == b8 && s2[1] == b9 && s2[2] == b10 && s2[3] == b11);
}

/// A header decodes to the fields it was encoded from, and is 12 bytes long.
pub proof fn lemma_header_roundtrip(timestamp: u32, key_size: u32, val_size: u32)
    ensures
        header_bytes(timestamp, key_size, val_size).len() == HEADER_SIZE,
        header_fields(header_bytes(timestamp, key_size, val_size)) == (timestamp, key_size, val_size),
{
    lemma_u32_le_roundtrip(timestamp);
    lemma_u32_le_roundtrip(key_size);
    lemma_u32_le_roundtrip(val_size);
    let h = header_bytes(timestamp, key_size, val_size);
    assert(h.subrange(0, 4) =~= u32_le_bytes(timestamp));
    assert(h.subrange(4, 8) =~= u32_le_bytes(key_size));
    assert(h.subrange(8, 12) =~= u32_le_bytes(val_size));
}

/// Any 12 bytes are the header of the fields they decode to: decoding loses
/// nothing.
pub proof fn lemma_header_bytes_roundtrip(data: Seq<u8>)
    requires
        data.len() == HEADER_SIZE,
    ensures
        header_bytes(header_fields(data).0, header_fields(data).1, header_fields(data).2) == data,
{
    lemma_le_u32_roundtrip(data.subrange(0, 4));
    lemma_le_u32_roundtrip(data.subrange(4, 8));
    lemma_le_u32_roundtrip(data.subrange(8, 12));
    assert(data =~= data.subrange(0, 4) + data.subrange(4, 8) + data.subrange(8, 12));
}

#[verifier::external_type_specification]
#[verifier::external_body]
pub struct ExEncodeError(bincode::error::EncodeError);

#[verifier::external_type_specification]
#[verifier::external_body]
pub struct ExDecodeError(bincode::error::DecodeError);

/// Calls `bincode::serde::encode_to_vec` on the tuple of the three header
/// fields, with bincode's standard configuration switched to fixed-size
/// integers.  That configuration is little-endian and writes each `u32` as
/// its four bytes; the serde tuple writes its elements one after the other
/// into a `Vec`, whose writer never fails.  The contract claims exactly that.
#[verifier::external_body]
fn bincode_encode_header(timestamp: u32, key_size: u32, val_size: u32) -> (r: Result<Vec<u8>, bincode::error::EncodeError>)
    ensures
        r is Ok,
        r->Ok_0@ == header_bytes(timestamp, key_size, val_size),
{
    let config = bincode::config::standard().with_fixed_int_encoding();
    bincode::serde::encode_to_vec((timestamp, key_size, val_size), config)
}

/// Calls `bincode::serde::borrow_decode_from_slice` for a tuple of three
/// `u32`, with the configuration of `bincode_encode_header`.  Each `u32`
/// takes the next four bytes, little-endian; the call fails exactly when
/// fewer than 12 bytes are given, and otherwise reports 12 bytes read.
#[verifier::external_body]
fn bincode_decode_header(data: &[u8]) -> (r: Result<((u32, u32, u32), usize), bincode::error::DecodeError>)
    ensures
        r is Ok <==> data@.len() >= 12,
        r is Ok ==> r->Ok_0.0 == header_fields(data@) && r->Ok_0.1 == 12,
{
    let config = bincode::config::standard().with_fixed_int_encoding();
    bincode::serde::borrow_decode_from_slice(data, config)
}

/// Encodes a record header: timestamp, key size and value size, each stored
/// as exactly four little-endian bytes.
pub fn encode_header(timestamp: u32, key_size: u32, val_size: u32) -> (encoded: Vec<u8>)
    ensures
        encoded@ == header_bytes(timestamp, key_size, val_size),
        encoded@.len() == HEADER_SIZE,
        encoded@[0] == timestamp % 0x100,
        encoded@[1] == (timestamp / 0x100) % 0x100,
        encoded@[2] == (timestamp / 0x1_0000) % 0x100,
        encoded@[3] == (timestamp / 0x100_0000) % 0x100,
        encoded@[4] == key_size % 0x100,
        encoded@[5] == (key_size / 0x100) % 0x100,
        encoded@[6] == (key_size / 0x1_0000) % 0x100,
        encoded@[7] == (key_size / 0x100_0000) % 0x100,
        encoded@[8] == val_size % 0x100,
        encoded@[9] == (val_size / 0x100) % 0x100,
        encoded@[10] == (val_size / 0x1_0000) % 0x100,
        encoded@[11] == (val_size / 0x100_0000) % 0x100,
{
    proof {
        lemma_header_layout(timestamp, key_size, val_size);
    }
    match bincode_encode_header(timestamp, key_size, val_size) {
        Ok(bytes) => bytes,
        Err(_) => {
            proof {
                assert(false);
            }
            Vec::new()
        },
    }
}

/// Decodes the header at the start of `data`: `(timestamp, key_size, val_size)`.
/// Bytes after the first 12 are not read.
pub fn decode_header(data: &[u8]) -> (fields: (u32, u32, u32))
    requires
        data@.len() >= HEADER_SIZE,
    ensures
        fields == header_fields(data@),
        fields.0 == data@[0] + data@[1] * 0x100 + data@[2] * 0x1_0000 + data@[3] * 0x100_0000,
        fields.1 == data@[4] + data@[5] * 0x100 + data@[6] * 0x1_0000 + data@[7] * 0x100_0000,
        fields.2 == data@[8] + data@[9] * 0x100 + data@[10] * 0x1_0000 + data@[11] * 0x100_0000,
{
    proof {
        lemma_header_fields_layout(data@);
    }
    match bincode_decode_header(data) {
        Ok((fields, _read)) => fields,
        Err(_) => {
            proof {
                assert(false);
            }
            (0, 0, 0)
        },
    }
}

/// The bytes of the record that stores `key` and `val` with `timestamp`.
pub open spec fn record_bytes(timestamp: u32, key: Seq<char>, val: Seq<char>) -> Seq<u8> {
    header_bytes(timestamp, encode_utf8(key).len() as u32, encode_utf8(val).len() as u32)
        + encode_utf8(key) + encode_utf8(val)
}

/// Whether `key` and `val` are short enough for their UTF-8 sizes to fit a
/// header field.
pub open spec fn fits_record(key: Seq<char>, val: Seq<char>) -> bool {
    &&& encode_utf8(key).len() <= u32::MAX
    &&& encode_utf8(val).len() <= u32::MAX
}

/// Where the key of the record at the start of `data` ends: the header and the
/// key size that it gives.
pub open spec fn record_key_end(data: Seq<u8>) -> int {
    HEADER_SIZE + header_fields(data).1
}

/// Where the record at the start of `data` ends, as its header gives it.
pub open spec fn record_end(data: Seq<u8>) -> int {
    HEADER_SIZE + header_fields(data).1 + header_fields(data).2
}

/// The key bytes of the record at the start of `data`.
pub open spec fn record_key_bytes(data: Seq<u8>) -> Seq<u8> {
    data.subrange(HEADER_SIZE as int, record_key_end(data))
}

/// The value bytes of the record at the start of `data`.
pub open spec fn record_val_bytes(data: Seq<u8>) -> Seq<u8> {
    data.subrange(record_key_end(data), record_end(data))
}

/// Whether `data` starts with a whole record whose key and value are UTF-8.
pub open spec fn is_decodable_record(data: Seq<u8>) -> bool {
    &&& data.len() >= HEADER_SIZE
    &&& record_end(data) <= data.len()
    &&& valid_utf8(record_key_bytes(data))
    &&& valid_utf8(record_val_bytes(data))
}

/// Timestamp, key and value of the record at the start of `data`.
pub open spec fn record_fields(data: Seq<u8>) -> (u32, Seq<char>, Seq<char>) {
    (header_fields(data).0, decode_utf8(record_key_bytes(data)), decode_utf8(record_val_bytes(data)))
}

/// The layout of a record, from its parts: the header of the timestamp and
/// the UTF-8 sizes of key and value, then the key's UTF-8 bytes as they are,
/// then the value's.
pub proof fn lemma_record_layout(timestamp: u32, key: Seq<char>, val: Seq<char>)
    ensures
        record_bytes(timestamp, key, val).len() == HEADER_SIZE + encode_utf8(key).len() + encode_utf8(
            val,
        ).len(),
        record_bytes(timestamp, key, val).subrange(0, HEADER_SIZE as int) == header_bytes(
            timestamp,
            encode_utf8(key).len() as u32,
            encode_utf8(val).len() as u32,
        ),
        record_bytes(timestamp, key, val).subrange(
            HEADER_SIZE as int,
            HEADER_SIZE + encode_utf8(key).len(),
        ) == encode_utf8(key),
        record_bytes(timestamp, key, val).subrange(
            HEADER_SIZE + encode_utf8(key).len(),
            HEADER_SIZE + encode_utf8(key).len() + encode_utf8(val).len(),
        ) == encode_utf8(val),
{
    let k = encode_utf8(key);
    let v = encode_utf8(val);
    let r = record_bytes(timestamp, key, val);
    lemma_header_layout(timestamp, k.len() as u32, v.len() as u32);
    assert(r.subrange(0, 12) =~= header_bytes(timestamp, k.len() as u32, v.len() as u32));
    assert(r.subrange(12, 12 + k.len() as int) =~= k);
    assert(r.subrange(12 + k.len() as int, 12 + k.len() + v.len() as int) =~= v);
}

/// Where a record's parts are, read from its bytes alone: the key and value
/// sizes are the little-endian numbers of bytes 4..8 and 8..12, the key is the
/// bytes right after the header and the value the bytes right after the key,
/// and the decoded timestamp, key and value are those bytes' numbers and
/// UTF-8 texts.
pub proof fn lemma_record_fields_layout(data: Seq<u8>)
    requires
        data.len() >= HEADER_SIZE,
    ensures
        ({
            let key_size = data[4] + data[5] * 0x100 + data[6] * 0x1_0000 + data[7] * 0x100_0000;
            let val_size = data[8] + data[9] * 0x100 + data[10] * 0x1_0000 + data[11] * 0x100_0000;
            &&& record_end(data) == HEADER_SIZE + key_size + val_size
            &&& record_key_bytes(data) == data.subrange(HEADER_SIZE as int, HEADER_SIZE + key_size)
            &&& record_val_bytes(data) == data.subrange(
                HEADER_SIZE + key_size,
                HEADER_SIZE + key_size + val_size,
            )
            &&& record_fields(data).0 == data[0] + data[1] * 0x100 + data[2] * 0x1_0000 + data[3]
                * 0x100_0000
            &&& record_fields(data).1 == decode_utf8(
                data.subrange(HEADER_SIZE as int, HEADER_SIZE + key_size),
            )
            &&& record_fields(data).2 == decode_utf8(
                data.subrange(HEADER_SIZE + key_size, HEADER_SIZE + key_size + val_size),
            )
        }),
{
    lemma_header_fields_layout(data);
}

/// A record decodes to the timestamp, key and value it was encoded from,
/// whatever bytes follow it; its length is the header's plus the UTF-8 sizes
/// of key and value.
pub proof fn lemma_kv_roundtrip(timestamp: u32, key: Seq<char>, val: Seq<char>, rest: Seq<u8>)
    requires
        fits_record(key, val),
    ensures
        record_bytes(timestamp, key, val).len() == HEADER_SIZE + encode_utf8(key).len()
            + encode_utf8(val).len(),
        is_decodable_record(record_bytes(timestamp, key, val) + rest),
        record_end(record_bytes(timestamp, key, val) + rest) == record_bytes(timestamp, key, val).len(),
        record_fields(record_bytes(timestamp, key, val) + rest) == (timestamp, key, val),
{
    let k = encode_utf8(key);
    let v = encode_utf8(val);
    let h = header_bytes(timestamp, k.len() as u32, v.len() as u32);
    let data = record_bytes(timestamp, key, val) + rest;
    lemma_header_roundtrip(timestamp, k.len() as u32, v.len() as u32);
    assert(data.subrange(0, 12) =~= h);
    assert(header_fields(data) == header_fields(h)) by {
        assert(data.subrange(0, 4) =~= h.subrange(0, 4));
        assert(data.subrange(4, 8) =~= h.subrange(4, 8));
        assert(data.subrange(8, 12) =~= h.subrange(8, 12));
    }
    assert(record_key_bytes(data) =~= k);
    assert(record_val_bytes(data) =~= v);
    encode_utf8_valid_utf8(key);
    encode_utf8_valid_utf8(val);
    encode_utf8_decode_utf8(key);
    encode_utf8_decode_utf8(val);
}

#[verifier::external_type_specification]
#[verifier::external_body]
pub struct ExUtf8Error(std::str::Utf8Error);

/// Calls `std::str::from_utf8`, which, as its documentation says, views the
/// bytes as a `str` when they are valid UTF-8 and fails otherwise.
#[verifier::external_body]
pub(crate) fn str_from_utf8(bytes: &[u8]) -> (r: Result<&str, std::str::Utf8Error>)
    ensures
        r is Ok <==> valid_utf8(bytes@),
        r is Ok ==> r->Ok_0.spec_bytes() == bytes@,
{
    std::str::from_utf8(bytes)
}

/// Encodes a record: the header, then the UTF-8 bytes of `key`, then those of
/// `val`.  Returns the record's length together with its bytes.
pub fn encode_kv(timestamp: u32, key: &str, val: &str) -> (res: (usize, Vec<u8>))
    requires
        fits_record(key@, val@),
    ensures
        res.1@ == record_bytes(timestamp, key@, val@),
        res.0 == res.1@.len(),
        res.0 == HEADER_SIZE + encode_utf8(key@).len() + encode_utf8(val@).len(),
        res.1@.subrange(0, HEADER_SIZE as int) == header_bytes(
            timestamp,
            encode_utf8(key@).len() as u32,
            encode_utf8(val@).len() as u32,
        ),
        res.1@.subrange(HEADER_SIZE as int, HEADER_SIZE + key.spec_bytes().len()) == key.spec_bytes(),
        res.1@.subrange(HEADER_SIZE + key.spec_bytes().len(), res.0 as int) == val.spec_bytes(),
{
    let key_size = key.len();
    let val_size = val.len();
    let mut encoded: Vec<u8> = encode_header(timestamp, key_size as u32, val_size as u32);
    let ghost header = encoded@;
    encoded.extend_from_slice(key.as_bytes());
    let ghost with_key = encoded@;
    assert(with_key =~= header + encode_utf8(key@));
    encoded.extend_from_slice(val.as_bytes());
    assert(encoded@ =~= with_key + encode_utf8(val@));
    let total_size = encoded.len();
    (total_size, encoded)
}

/// Decodes the record at the start of `data` into its timestamp, key and value.
/// Bytes after the record are not read.
pub fn decode_kv(data: &[u8]) -> (res: (u32, String, String))
    requires
        is_decodable_record(data@),
    ensures
        (res.0, res.1@, res.2@) == record_fields(data@),
        res.0 == header_fields(data@).0,
        res.1@ == decode_utf8(data@.subrange(HEADER_SIZE as int, HEADER_SIZE + header_fields(data@).1)),
        res.2@ == decode_utf8(
            data@.subrange(
                HEADER_SIZE + header_fields(data@).1,
                HEADER_SIZE + header_fields(data@).1 + header_fields(data@).2,
            ),
        ),
{
    let (timestamp, key_size, val_size) = decode_header(data);
    let key_size = key_size as usize;
    let val_size = val_size as usize;
    let key_start = HEADER_SIZE;
    assert(data@.len() == data.len());
    let key_end = key_size + key_start;
    let val_start = key_end;
    let val_end = val_start + val_size;
    let key_bytes = &data[key_start..key_end];
    let val_bytes = &data[val_start..val_end];
    let key = match str_from_utf8(key_bytes) {
        Ok(s) => {
            proof {
                encode_utf8_decode_utf8(s@);
            }
            s.to_owned()
        },
        Err(_) => {
            proof {
                assert(false);
            }
            String::new()
        },
    };
    let val = match str_from_utf8(val_bytes) {
        Ok(s) => {
            proof {
                encode_utf8_decode_utf8(s@);
            }
            s.to_owned()
        },
        Err(_) => {
            proof {
                assert(false);
            }
            String::new()
        },
    };
    (timestamp, key, val)
}

/// Tells whether `decode_kv` accepts `data`: a whole record at its start, with
/// a UTF-8 key and value.
pub fn is_record(data: &[u8]) -> (ok: bool)
    ensures
        ok == is_decodable_record(data@),
{
    if data.len() < HEADER_SIZE {
        return false;
    }
    let (_timestamp, key_size, val_size) = decode_header(data);
    let key_size = key_size as usize;
    let val_size = val_size as usize;
    if key_size > data.len() - HEADER_SIZE || val_size > data.len() - HEADER_SIZE - key_size {
        return false;
    }
    let key_end = HEADER_SIZE + key_size;
    let val_end = key_end + val_size;
    let key_ok = str_from_utf8(&data[HEADER_SIZE..key_end]).is_ok();
    let val_ok = str_from_utf8(&data[key_end..val_end]).is_ok();
    key_ok && val_ok
}

} // verus!
