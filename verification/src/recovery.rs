//! Rebuilding the key directory from the log.
//!
//! The log is a plain concatenation of records. A replay walks it from the
//! first byte, record by record, and lets each record overwrite what the
//! directory held for its key. It ends where no complete record follows.

use crate::format::{
    announced_size, decode_kv, decoded, header_fields, lemma_decode_encode,
    lemma_encode_decoded, lemma_record_len, record_bytes, record_size, DecodeError, KeyEntry,
    HEADER_SIZE,
};
use vstd::hash_map::StringHashMap;
use vstd::prelude::*;
use vstd::slice::slice_subrange;

verus! {

/// The key directory as a mathematical map, from a key to the place of its
/// latest record.
pub type Directory = Map<Seq<char>, KeyEntry>;

/// Where a replay of the log arrives.
pub struct Replay {
    /// The directory after the last record that was applied.
    pub dir: Directory,
    /// The offset at which the replay ended: the end of the last record
    /// that was applied.
    pub end: int,
    /// Whether the replay ended at a record that is all there and yet
    /// cannot be taken into the directory.
    pub corrupt: bool,
}

/// The entry that the directory gets for a record of `size` bytes at `pos`.
pub open spec fn entry_at(timestamp: u32, pos: int, size: int) -> KeyEntry {
    KeyEntry { timestamp, pos: pos as u64, total_size: size as u32 }
}

/// Replays `log` from offset `pos` on, starting from the directory `dir`.
///
/// A record that the log ends in the middle of ends the replay quietly. A
/// record that is complete but whose key or value is not text, or whose
/// size does not fit a directory entry, ends it as corrupt.
pub open spec fn replay_from(log: Seq<u8>, pos: int, dir: Directory) -> Replay
    decreases log.len() - pos,
{
    if pos < 0 || pos > log.len() {
        Replay { dir, end: pos, corrupt: false }
    } else {
        match decoded(log.skip(pos)) {
            Err(DecodeError::Truncated) => Replay { dir, end: pos, corrupt: false },
            Err(_) => Replay { dir, end: pos, corrupt: true },
            Ok((timestamp, key, value)) => {
                let size = announced_size(log.skip(pos));
                if size > u32::MAX {
                    Replay { dir, end: pos, corrupt: true }
                } else {
                    replay_from(log, pos + size, dir.insert(key, entry_at(timestamp, pos, size)))
                }
            },
        }
    }
}

/// Replays the whole of `log` into an empty directory.
pub open spec fn replay(log: Seq<u8>) -> Replay {
    replay_from(log, 0, Map::empty())
}

/// The bytes of the log that `entry` points at.
pub open spec fn stored_at(log: Seq<u8>, entry: KeyEntry) -> Seq<u8> {
    log.subrange(entry.pos as int, entry.pos + entry.total_size)
}

/// Whether `entry` points at a record of `key` in `log`: the bytes it
/// points at lie in the log and are exactly one record, which decodes to
/// the entry's timestamp and to `key`.
pub open spec fn locates(log: Seq<u8>, entry: KeyEntry, key: Seq<char>) -> bool {
    &&& entry.pos + entry.total_size <= log.len()
    &&& entry.total_size == announced_size(stored_at(log, entry))
    &&& match decoded(stored_at(log, entry)) {
        Ok((timestamp, k, _)) => timestamp == entry.timestamp && k == key,
        Err(_) => false,
    }
}

/// Whether every entry of `dir` points at a record of its key that ends at
/// or before `limit`.
pub open spec fn all_located(log: Seq<u8>, dir: Directory, limit: int) -> bool {
    forall|key: Seq<char>| #[trigger]
        dir.contains_key(key) ==> locates(log, dir[key], key) && dir[key].pos
            + dir[key].total_size <= limit
}

/// Decoding reads no further than the record: cutting the buffer anywhere
/// behind the record changes nothing.
pub proof fn lemma_decoded_prefix(data: Seq<u8>, n: int)
    requires
        HEADER_SIZE <= data.len(),
        announced_size(data) <= n <= data.len(),
    ensures
        announced_size(data.take(n)) == announced_size(data),
        decoded(data.take(n)) == decoded(data),
{
    let short = data.take(n);
    assert(short.subrange(0, 4) =~= data.subrange(0, 4));
    assert(short.subrange(4, 8) =~= data.subrange(4, 8));
    assert(short.subrange(8, 12) =~= data.subrange(8, 12));
    let (timestamp, key_size, value_size) = header_fields(data);
    assert(short.subrange(HEADER_SIZE as int, HEADER_SIZE + key_size) =~= data.subrange(
        HEADER_SIZE as int,
        HEADER_SIZE + key_size,
    ));
    assert(short.subrange(HEADER_SIZE + key_size, HEADER_SIZE + key_size + value_size)
        =~= data.subrange(HEADER_SIZE + key_size, HEADER_SIZE + key_size + value_size));
}

/// A replay ends at or behind the offset it starts from, and inside the log.
pub proof fn lemma_replay_end(log: Seq<u8>, pos: int, dir: Directory)
    requires
        0 <= pos <= log.len(),
    ensures
        pos <= replay_from(log, pos, dir).end <= log.len(),
    decreases log.len() - pos,
{
    let data = log.skip(pos);
    if decoded(data) is Ok && announced_size(data) <= u32::MAX {
        lemma_encode_decoded(data);
        let (timestamp, key, value) = decoded(data)->Ok_0;
        let size = announced_size(data);
        lemma_replay_end(log, pos + size, dir.insert(key, entry_at(timestamp, pos, size)));
    }
}

/// A replay keeps the directory pointing at records: if every entry it
/// starts from points at a record of its key before the starting offset,
/// every entry it ends with points at one before the offset where it ends.
pub proof fn lemma_replay_located(log: Seq<u8>, pos: int, dir: Directory)
    requires
        0 <= pos <= log.len() <= u64::MAX,
        all_located(log, dir, pos),
    ensures
        all_located(log, replay_from(log, pos, dir).dir, replay_from(log, pos, dir).end),
    decreases log.len() - pos,
{
    let data = log.skip(pos);
    if decoded(data) is Ok && announced_size(data) <= u32::MAX {
        lemma_encode_decoded(data);
        let (timestamp, key, value) = decoded(data)->Ok_0;
        let size = announced_size(data);
        let entry = entry_at(timestamp, pos, size);
        let next = dir.insert(key, entry);
        assert(stored_at(log, entry) =~= data.take(size));
        lemma_decoded_prefix(data, size);
        assert(all_located(log, next, pos + size));
        lemma_replay_located(log, pos + size, next);
    }
}

/// Scans `log` and builds the directory of its records. Returns the
/// directory with the offset at which the scan ended, or the offset of the
/// record at which the log is corrupt.
pub fn recover(log: &[u8]) -> (outcome: Result<(StringHashMap<KeyEntry>, u64), u64>)
    ensures
        match outcome {
            Ok((dir, end)) => {
                &&& !replay(log@).corrupt
                &&& dir@ == replay(log@).dir
                &&& end == replay(log@).end
            },
            Err(offset) => replay(log@).corrupt && offset == replay(log@).end,
        },
{
    let mut dir: StringHashMap<KeyEntry> = StringHashMap::new();
    let mut pos: usize = 0;
    loop
        invariant
            pos <= log.len(),
            replay(log@) == replay_from(log@, pos as int, dir@),
        decreases log.len() - pos,
    {
        let data = slice_subrange(log, pos, log.len());
        match decode_kv(data) {
            Err(DecodeError::Truncated) => {
                return Ok((dir, pos as u64));
            },
            Err(_) => {
                return Err(pos as u64);
            },
            Ok((timestamp, key, value)) => {
                proof {
                    lemma_encode_decoded(data@);
                }
                let size = HEADER_SIZE + key.as_str().len() + value.as_str().len();
                if size > u32::MAX as usize {
                    return Err(pos as u64);
                }
                dir.insert(key, KeyEntry::new(timestamp, pos as u64, size as u32));
                pos = pos + size;
            },
        }
    }
}

/// One record of the log, as the values it was encoded from.
pub struct Record {
    /// Seconds since the epoch at which the record was written.
    pub timestamp: u32,
    /// The key that the record writes.
    pub key: Seq<char>,
    /// The value that it gives the key.
    pub value: Seq<char>,
}

impl Record {
    /// The record's bytes in the log.
    pub open spec fn bytes(self) -> Seq<u8> {
        record_bytes(self.timestamp, self.key, self.value)
    }

    /// The number of those bytes.
    pub open spec fn size(self) -> nat {
        record_size(self.key, self.value)
    }

    /// Whether a directory entry can hold the record's size.
    pub open spec fn storable(self) -> bool {
        self.size() <= u32::MAX
    }
}

/// The log that holds `records` in their order and nothing else.
pub open spec fn log_of(records: Seq<Record>) -> Seq<u8>
    decreases records.len(),
{
    if records.len() == 0 {
        Seq::empty()
    } else {
        log_of(records.drop_last()) + records.last().bytes()
    }
}

/// The directory of a log that holds `records`: each key points at the
/// last record written for it.
pub open spec fn directory_of(records: Seq<Record>) -> Directory
    decreases records.len(),
{
    if records.len() == 0 {
        Map::empty()
    } else {
        let earlier = records.drop_last();
        let last = records.last();
        directory_of(earlier).insert(
            last.key,
            entry_at(last.timestamp, log_of(earlier).len() as int, last.size() as int),
        )
    }
}

/// Whether a log can hold `records`: each fits a directory entry, and the
/// log's length fits 64 bits.
pub open spec fn storable(records: Seq<Record>) -> bool {
    &&& forall|i: int| 0 <= i < records.len() ==> #[trigger] records[i].storable()
    &&& log_of(records).len() <= u64::MAX
}

/// The keys that `records` write.
pub open spec fn keys_of(records: Seq<Record>) -> Set<Seq<char>> {
    Set::new(
        |key: Seq<char>|
            exists|i: int| 0 <= i < records.len() && (#[trigger] records[i]).key == key,
    )
}

/// A record that has lost bytes at its end is no record: decoding finds it
/// truncated.
pub proof fn lemma_partial_record(record: Record, cut: int)
    requires
        record.storable(),
        0 <= cut < record.size(),
    ensures
        decoded(record.bytes().take(cut)) == Err::<(u32, Seq<char>, Seq<char>), _>(
            DecodeError::Truncated,
        ),
{
    let whole = record.bytes();
    let partial = whole.take(cut);
    lemma_decode_encode(record.timestamp, record.key, record.value, Seq::empty());
    assert(whole + Seq::<u8>::empty() =~= whole);
    if cut >= HEADER_SIZE {
        assert(partial.subrange(0, 4) =~= whole.subrange(0, 4));
        assert(partial.subrange(4, 8) =~= whole.subrange(4, 8));
        assert(partial.subrange(8, 12) =~= whole.subrange(8, 12));
        assert(announced_size(partial) == announced_size(whole));
    }
}

/// The directory of `records` holds the keys that they write, and no
/// other.
pub proof fn lemma_directory_keys(records: Seq<Record>)
    ensures
        directory_of(records).dom() == keys_of(records),
    decreases records.len(),
{
    if records.len() == 0 {
        assert(directory_of(records).dom() =~= keys_of(records));
    } else {
        let earlier = records.drop_last();
        let last = records.last();
        lemma_directory_keys(earlier);
        assert forall|key: Seq<char>| keys_of(records).contains(key) implies directory_of(
            records,
        ).dom().contains(key) by {
            let i = choose|i: int| 0 <= i < records.len() && (#[trigger] records[i]).key == key;
            if i < records.len() - 1 {
                assert(earlier[i].key == key);
                assert(keys_of(earlier).contains(key));
            }
        }
        assert forall|key: Seq<char>| directory_of(records).dom().contains(key) implies keys_of(
            records,
        ).contains(key) by {
            if key == last.key {
                assert(records[records.len() - 1].key == key);
            } else {
                assert(keys_of(earlier).contains(key));
                let i = choose|i: int|
                    0 <= i < earlier.len() && (#[trigger] earlier[i]).key == key;
                assert(records[i].key == key);
            }
        }
        assert(directory_of(records).dom() =~= keys_of(records));
    }
}

/// The directory points each key at its last write: the entry of a key is
/// the place of the last record that writes the key, with that record's
/// timestamp and size.
pub proof fn law_directory_holds_last_write(records: Seq<Record>, i: int)
    requires
        0 <= i < records.len(),
        forall|j: int| i < j < records.len() ==> (#[trigger] records[j]).key != records[i].key,
    ensures
        directory_of(records).contains_key(records[i].key),
        directory_of(records)[records[i].key] == entry_at(
            records[i].timestamp,
            log_of(records.take(i)).len() as int,
            records[i].size() as int,
        ),
    decreases records.len(),
{
    let earlier = records.drop_last();
    if i == records.len() - 1 {
        assert(records.take(i) =~= earlier);
    } else {
        assert(earlier[i] == records[i]);
        assert forall|j: int| i < j < earlier.len() implies (#[trigger] earlier[j]).key
            != earlier[i].key by {
            assert(earlier[j] == records[j]);
        }
        law_directory_holds_last_write(earlier, i);
        assert(earlier.take(i) =~= records.take(i));
        assert(records[records.len() - 1].key != records[i].key);
    }
}

/// Records that a log can hold can be held without the last of them.
pub proof fn lemma_storable_earlier(records: Seq<Record>)
    requires
        storable(records),
        records.len() > 0,
    ensures
        storable(records.drop_last()),
        records.last().storable(),
        log_of(records).len() == log_of(records.drop_last()).len() + records.last().size(),
{
    let earlier = records.drop_last();
    let last = records.last();
    lemma_record_len(last.timestamp, last.key, last.value);
    assert(records[records.len() - 1].storable());
    assert forall|i: int| 0 <= i < earlier.len() implies #[trigger] earlier[i].storable() by {
        assert(earlier[i] == records[i]);
        assert(records[i].storable());
    }
}

/// A replay of a log that starts with `records` arrives behind them with
/// the directory of `records`, whatever follows them in the log.
pub proof fn lemma_replay_records(records: Seq<Record>, rest: Seq<u8>)
    requires
        storable(records),
    ensures
        replay(log_of(records) + rest) == replay_from(
            log_of(records) + rest,
            log_of(records).len() as int,
            directory_of(records),
        ),
    decreases records.len(),
{
    let log = log_of(records) + rest;
    if records.len() == 0 {
        assert(log_of(records).len() == 0);
    } else {
        let earlier = records.drop_last();
        let last = records.last();
        let tail = last.bytes() + rest;
        let pos = log_of(earlier).len() as int;
        lemma_storable_earlier(records);
        assert(log =~= log_of(earlier) + tail);
        lemma_replay_records(earlier, tail);
        assert(log.skip(pos) =~= tail);
        lemma_decode_encode(last.timestamp, last.key, last.value, rest);
        assert(replay_from(log, pos, directory_of(earlier)) == replay_from(
            log,
            pos + last.size(),
            directory_of(records),
        ));
    }
}

/// The directory is a function of the records in the log: replaying a log
/// that holds `records`, and behind them nothing or the beginning of one
/// more record, gives the directory of `records` and ends behind them.
pub proof fn lemma_replay_whole(records: Seq<Record>, partial: Record, cut: int)
    requires
        storable(records),
        partial.storable(),
        0 <= cut < partial.size(),
    ensures
        replay(log_of(records) + partial.bytes().take(cut)) == (Replay {
            dir: directory_of(records),
            end: log_of(records).len() as int,
            corrupt: false,
        }),
{
    let rest = partial.bytes().take(cut);
    let log = log_of(records) + rest;
    let pos = log_of(records).len() as int;
    lemma_replay_records(records, rest);
    lemma_partial_record(partial, cut);
    assert(log.skip(pos) =~= rest);
}

/// Replaying a log that holds `records` and nothing else gives their
/// directory, ends at the end of the log, and finds nothing corrupt.
pub proof fn lemma_replay_log_of(records: Seq<Record>)
    requires
        storable(records),
    ensures
        replay(log_of(records)) == (Replay {
            dir: directory_of(records),
            end: log_of(records).len() as int,
            corrupt: false,
        }),
{
    let log = log_of(records);
    lemma_replay_records(records, Seq::empty());
    assert(log + Seq::<u8>::empty() =~= log);
    assert(log.skip(log.len() as int) =~= Seq::<u8>::empty());
}

/// What a replay went through can be replayed alone: on the log cut where
/// the replay ended, a replay gives the same directory, ends at the same
/// offset, and finds nothing corrupt.
pub proof fn lemma_replay_kept(log: Seq<u8>, pos: int, dir: Directory)
    requires
        0 <= pos <= log.len(),
    ensures
        replay_from(log.take(replay_from(log, pos, dir).end), pos, dir) == (Replay {
            dir: replay_from(log, pos, dir).dir,
            end: replay_from(log, pos, dir).end,
            corrupt: false,
        }),
    decreases log.len() - pos,
{
    let whole = replay_from(log, pos, dir);
    let data = log.skip(pos);
    let kept = log.take(whole.end);
    lemma_replay_end(log, pos, dir);
    if decoded(data) is Ok && announced_size(data) <= u32::MAX {
        lemma_encode_decoded(data);
        let (timestamp, key, value) = decoded(data)->Ok_0;
        let size = announced_size(data);
        let next = dir.insert(key, entry_at(timestamp, pos, size));
        lemma_replay_end(log, pos + size, next);
        lemma_replay_kept(log, pos + size, next);
        assert(kept.skip(pos) =~= data.take(whole.end - pos));
        lemma_decoded_prefix(data, whole.end - pos);
        assert(replay_from(kept, pos, dir) == replay_from(kept, pos + size, next));
    } else {
        assert(kept.skip(pos) =~= Seq::<u8>::empty());
    }
}

} // verus!
