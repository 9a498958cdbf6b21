//! The on-disk record format.
//!
//! ```text
//! record := header(12 bytes) || key_bytes || value_bytes
//! header := timestamp:u32-LE || key_len:u32-LE || value_len:u32-LE
//! ```

use crate::text::{bytes_of, text_of};
use vstd::prelude::*;
use vstd::slice::slice_subrange;
use vstd::utf8::*;

verus! {

/// The origin from which a `KeyEntry` counts its offset: the start of the
/// log.
pub const DEFAULT_WHENCE: usize = 0;

/// Number of bytes in a record header.
pub const HEADER_SIZE: usize = 12;

/// Where the latest record of a key lies in the log.
#[derive(Clone, Copy, Debug, PartialEq, Eq, Structural)]
pub struct KeyEntry {
    /// Seconds since the epoch at which the record was written.
    pub timestamp: u32,
    /// Offset in the log of the first byte of the record's header.
    pub pos: u64,
    /// Length of the whole record: header, key and value.
    pub total_size: u32,
}

impl KeyEntry {
    /// Creates a new KeyEntry.
    pub fn new(timestamp: u32, pos: u64, total_size: u32) -> (entry: Self)
        ensures
            entry == (KeyEntry { timestamp, pos, total_size }),
    {
        Self { timestamp, pos, total_size }
    }
}

/// The four bytes of `x`, least significant first.
pub open spec fn le_bytes(x: u32) -> Seq<u8> {
    seq![
        (x % 256) as u8,
        ((x / 256) % 256) as u8,
        ((x / 65536) % 256) as u8,
        (x / 16777216) as u8,
    ]
}

/// The number whose little-endian bytes are the first four of `b`.
pub open spec fn le_value(b: Seq<u8>) -> int
    recommends
        b.len() >= 4,
{
    b[0] + 256 * b[1] + 65536 * b[2] + 16777216 * b[3]
}

/// The header of a record with the given fields.
pub open spec fn header_bytes(timestamp: u32, key_size: u32, value_size: u32) -> Seq<u8> {
    le_bytes(timestamp) + le_bytes(key_size) + le_bytes(value_size)
}

/// The fields `(timestamp, key_size, value_size)` that the first twelve
/// bytes of `header` encode.
pub open spec fn header_fields(header: Seq<u8>) -> (u32, u32, u32)
    recommends
        header.len() >= HEADER_SIZE,
{
    (
        le_value(header.subrange(0, 4)) as u32,
        le_value(header.subrange(4, 8)) as u32,
        le_value(header.subrange(8, 12)) as u32,
    )
}

/// `le_value` undoes `le_bytes`.
pub proof fn lemma_le_round_trip(x: u32)
    ensures
        le_bytes(x).len() == 4,
        le_value(le_bytes(x)) == x,
{
}

/// `le_bytes` undoes `le_value`: four bytes are the little-endian bytes of
/// the number they stand for, which fits 32 bits.
pub proof fn lemma_le_bytes_of_value(b: Seq<u8>)
    requires
        b.len() == 4,
    ensures
        0 <= le_value(b) <= u32::MAX,
        le_bytes(le_value(b) as u32) == b,
{
    let x = le_value(b);
    let b0 = b[0] as int;
    let b1 = b[1] as int;
    let b2 = b[2] as int;
    let b3 = b[3] as int;
    assert(x == b0 + 256 * (b1 + 256 * (b2 + 256 * b3)));
    assert(x % 256 == b0 && x / 256 == b1 + 256 * (b2 + 256 * b3));
    assert((x / 256) % 256 == b1 && x / 65536 == b2 + 256 * b3);
    assert((x / 65536) % 256 == b2 && x / 16777216 == b3);
    assert(le_bytes(x as u32) =~= b);
}

/// Decoding the header of given fields gives the fields back, whatever
/// follows the header.
pub proof fn lemma_header_round_trip(timestamp: u32, key_size: u32, value_size: u32, rest: Seq<u8>)
    ensures
        header_bytes(timestamp, key_size, value_size).len() == HEADER_SIZE,
        header_fields(header_bytes(timestamp, key_size, value_size) + rest) == (
            timestamp,
            key_size,
            value_size,
        ),
{
    let h = header_bytes(timestamp, key_size, value_size);
    lemma_le_round_trip(timestamp);
    lemma_le_round_trip(key_size);
    lemma_le_round_trip(value_size);
    assert((h + rest).subrange(0, 4) =~= le_bytes(timestamp));
    assert((h + rest).subrange(4, 8) =~= le_bytes(key_size));
    assert((h + rest).subrange(8, 12) =~= le_bytes(value_size));
}

fn put_le(header: &mut [u8; 12], at: usize, x: u32)
    requires
        at + 4 <= 12,
    ensures
        final(header)@ == old(header)@.subrange(0, at as int) + le_bytes(x) + old(header)@.subrange(
            at + 4,
            12,
        ),
{
    header[at] = (x % 256) as u8;
    header[at + 1] = ((x / 256) % 256) as u8;
    header[at + 2] = ((x / 65536) % 256) as u8;
    header[at + 3] = (x / 16777216) as u8;
    assert(header@ =~= old(header)@.subrange(0, at as int) + le_bytes(x) + old(header)@.subrange(
        at + 4,
        12,
    ));
}

fn get_le(bytes: &[u8], at: usize) -> (x: u32)
    requires
        at + 4 <= bytes.len(),
    ensures
        x == le_value(bytes@.subrange(at as int, at + 4)),
{
    let b0: u32 = bytes[at] as u32;
    let b1: u32 = bytes[at + 1] as u32;
    let b2: u32 = bytes[at + 2] as u32;
    let b3: u32 = bytes[at + 3] as u32;
    b0 + 256 * b1 + 65536 * b2 + 16777216 * b3
}

/// Encodes the three header fields, each as four little-endian bytes.
pub fn encode_header(timestamp: u32, key_size: u32, value_size: u32) -> (header: [u8; 12])
    ensures
        header@ == header_bytes(timestamp, key_size, value_size),
{
    let mut header = [0u8; 12];
    put_le(&mut header, 0, timestamp);
    put_le(&mut header, 4, key_size);
    put_le(&mut header, 8, value_size);
    assert(header@ =~= header_bytes(timestamp, key_size, value_size));
    header
}

/// Decodes the three header fields from the first twelve bytes of `header`,
/// which must be there.
pub fn decode_header(header: &[u8]) -> (fields: (u32, u32, u32))
    requires
        header.len() >= HEADER_SIZE,
    ensures
        fields == header_fields(header@),
{
    let timestamp = get_le(header, 0);
    let key_size = get_le(header, 4);
    let value_size = get_le(header, 8);
    (timestamp, key_size, value_size)
}

/// Why a buffer is not a record.
#[derive(Clone, Copy, Debug, PartialEq, Eq, Structural)]
pub enum DecodeError {
    /// The buffer ends before the header, or before the key and value that
    /// the header announces.
    Truncated,
    /// The key's bytes are not well-formed UTF-8.
    InvalidKey,
    /// The value's bytes are not well-formed UTF-8.
    InvalidValue,
}

/// Whether a key and a value fit the format: each length must fit the
/// 32-bit field that carries it.
pub open spec fn encodable(key: Seq<char>, value: Seq<char>) -> bool {
    &&& encode_utf8(key).len() <= u32::MAX
    &&& encode_utf8(value).len() <= u32::MAX
}

/// The number of bytes of the record of `key` and `value`.
pub open spec fn record_size(key: Seq<char>, value: Seq<char>) -> nat {
    HEADER_SIZE as nat + encode_utf8(key).len() + encode_utf8(value).len()
}

/// The bytes of the record of `timestamp`, `key` and `value`: the header,
/// then the key, then the value.
pub open spec fn record_bytes(timestamp: u32, key: Seq<char>, value: Seq<char>) -> Seq<u8> {
    header_bytes(timestamp, encode_utf8(key).len() as u32, encode_utf8(value).len() as u32)
        + encode_utf8(key) + encode_utf8(value)
}

/// The number of bytes that the record at the start of `data` announces in
/// its header, the header included.
pub open spec fn announced_size(data: Seq<u8>) -> int
    recommends
        data.len() >= HEADER_SIZE,
{
    HEADER_SIZE + header_fields(data).1 + header_fields(data).2
}

/// What the record at the start of `data` holds, or why there is none.
/// Bytes after the record are ignored.
pub open spec fn decoded(data: Seq<u8>) -> Result<(u32, Seq<char>, Seq<char>), DecodeError> {
    if data.len() < HEADER_SIZE || data.len() < announced_size(data) {
        Err(DecodeError::Truncated)
    } else {
        let (timestamp, key_size, value_size) = header_fields(data);
        let key = data.subrange(HEADER_SIZE as int, HEADER_SIZE + key_size);
        let value = data.subrange(HEADER_SIZE + key_size, HEADER_SIZE + key_size + value_size);
        if !valid_utf8(key) {
            Err(DecodeError::InvalidKey)
        } else if !valid_utf8(value) {
            Err(DecodeError::InvalidValue)
        } else {
            Ok((timestamp, decode_utf8(key), decode_utf8(value)))
        }
    }
}

fn append(data: &mut Vec<u8>, bytes: &[u8])
    ensures
        final(data)@ == old(data)@ + bytes@,
{
    data.extend_from_slice(bytes);
    assert(data@ =~= old(data)@ + bytes@);
}

/// Encodes one record. Returns its size together with its bytes, which
/// decode to what was given.
///
/// Key and value must each fit the 32-bit length field, and the record a
/// buffer.
pub fn encode_kv(timestamp: u32, key: String, value: String) -> (record: (usize, Vec<u8>))
    requires
        encodable(key@, value@),
        record_size(key@, value@) <= isize::MAX,
    ensures
        record.1@ == record_bytes(timestamp, key@, value@),
        record.0 == record_size(key@, value@),
        record.0 == record.1@.len(),
        decoded(record.1@) == Ok::<_, DecodeError>((timestamp, key@, value@)),
{
    proof {
        law_round_trip(timestamp, key@, value@);
    }
    let key_bytes = bytes_of(&key);
    let value_bytes = bytes_of(&value);
    let header = encode_header(timestamp, key_bytes.len() as u32, value_bytes.len() as u32);
    let mut data = Vec::with_capacity(HEADER_SIZE + key_bytes.len() + value_bytes.len());
    append(&mut data, header.as_slice());
    append(&mut data, key_bytes);
    append(&mut data, value_bytes);
    (data.len(), data)
}

/// Decodes the record at the start of `data` into its timestamp, key and
/// value. Fails where the buffer ends before the record does, and where key
/// or value is not UTF-8 text.
pub fn decode_kv(data: &[u8]) -> (record: Result<(u32, String, String), DecodeError>)
    ensures
        match record {
            Ok((timestamp, key, value)) => decoded(data@) == Ok::<_, DecodeError>(
                (timestamp, key@, value@),
            ),
            Err(e) => decoded(data@) == Err::<(u32, Seq<char>, Seq<char>), _>(e),
        },
{
    if data.len() < HEADER_SIZE {
        return Err(DecodeError::Truncated);
    }
    let (timestamp, key_size, value_size) = decode_header(data);
    let rest: u64 = (data.len() - HEADER_SIZE) as u64;
    if rest < key_size as u64 + value_size as u64 {
        return Err(DecodeError::Truncated);
    }
    let key_start = HEADER_SIZE;
    let key_end = key_start + key_size as usize;
    let value_start = key_end;
    let value_end = value_start + value_size as usize;
    let key = match text_of(slice_subrange(data, key_start, key_end)) {
        Some(key) => key,
        None => { return Err(DecodeError::InvalidKey); },
    };
    let value = match text_of(slice_subrange(data, value_start, value_end)) {
        Some(value) => value,
        None => { return Err(DecodeError::InvalidValue); },
    };
    Ok((timestamp, key, value))
}

/// A record is as long as its header, key and value together.
pub proof fn lemma_record_len(timestamp: u32, key: Seq<char>, value: Seq<char>)
    ensures
        record_bytes(timestamp, key, value).len() == record_size(key, value),
{
    lemma_le_round_trip(timestamp);
    lemma_le_round_trip(encode_utf8(key).len() as u32);
    lemma_le_round_trip(encode_utf8(value).len() as u32);
}

/// Decoding gives back what encoding was given, and a record is as long as
/// its header, key and value together. Bytes that follow the record do not
/// matter.
pub proof fn lemma_decode_encode(timestamp: u32, key: Seq<char>, value: Seq<char>, rest: Seq<u8>)
    requires
        encodable(key, value),
    ensures
        record_bytes(timestamp, key, value).len() == record_size(key, value),
        announced_size(record_bytes(timestamp, key, value) + rest) == record_size(key, value),
        decoded(record_bytes(timestamp, key, value) + rest) == Ok::<_, DecodeError>(
            (timestamp, key, value),
        ),
{
    let k = encode_utf8(key);
    let v = encode_utf8(value);
    let header = header_bytes(timestamp, k.len() as u32, v.len() as u32);
    let data = record_bytes(timestamp, key, value) + rest;
    lemma_header_round_trip(timestamp, k.len() as u32, v.len() as u32, k + v + rest);
    assert(data =~= header + (k + v + rest));
    assert(data.subrange(HEADER_SIZE as int, HEADER_SIZE + k.len()) =~= k);
    assert(data.subrange(HEADER_SIZE + k.len(), HEADER_SIZE + k.len() + v.len()) =~= v);
    encode_utf8_valid_utf8(key);
    encode_utf8_valid_utf8(value);
    encode_utf8_decode_utf8(key);
    encode_utf8_decode_utf8(value);
}

/// What decodes is a record: the bytes that decoding went through are the
/// encoding of what it found.
pub proof fn lemma_encode_decoded(data: Seq<u8>)
    requires
        decoded(data) is Ok,
    ensures
        HEADER_SIZE <= announced_size(data) <= data.len(),
        encodable(decoded(data)->Ok_0.1, decoded(data)->Ok_0.2),
        announced_size(data) == record_size(decoded(data)->Ok_0.1, decoded(data)->Ok_0.2),
        data.take(announced_size(data)) == record_bytes(
            decoded(data)->Ok_0.0,
            decoded(data)->Ok_0.1,
            decoded(data)->Ok_0.2,
        ),
{
    let (timestamp, key_size, value_size) = header_fields(data);
    let key = data.subrange(HEADER_SIZE as int, HEADER_SIZE + key_size);
    let value = data.subrange(HEADER_SIZE + key_size, HEADER_SIZE + key_size + value_size);
    decode_utf8_encode_utf8(key);
    decode_utf8_encode_utf8(value);
    lemma_le_bytes_of_value(data.subrange(0, 4));
    lemma_le_bytes_of_value(data.subrange(4, 8));
    lemma_le_bytes_of_value(data.subrange(8, 12));
    let header = header_bytes(timestamp, key_size, value_size);
    assert(header =~= data.subrange(0, 12));
    assert(data.take(announced_size(data)) =~= header + key + value);
}

/// Round trip: every record that fits the format decodes to the timestamp,
/// key and value it was encoded from, and its size is that of the header
/// plus the byte lengths of key and value.
pub proof fn law_round_trip(timestamp: u32, key: Seq<char>, value: Seq<char>)
    requires
        encodable(key, value),
    ensures
        decoded(record_bytes(timestamp, key, value)) == Ok::<_, DecodeError>(
            (timestamp, key, value),
        ),
        record_bytes(timestamp, key, value).len() == HEADER_SIZE + encode_utf8(key).len()
            + encode_utf8(value).len(),
{
    lemma_decode_encode(timestamp, key, value, Seq::empty());
    assert(record_bytes(timestamp, key, value) + Seq::<u8>::empty() =~= record_bytes(
        timestamp,
        key,
        value,
    ));
}

} // verus!
