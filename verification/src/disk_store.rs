//! The log store: the key directory over an append-only log.
//!
//! The store itself touches no file. It is told what the log holds when it
//! is opened, hands out the bytes of each record that is to be appended,
//! and takes the record into its directory once the caller has made the
//! append durable. A lookup gives the place of a record, and the bytes read
//! from that place are decoded here.

use crate::clock::current_timestamp;
use crate::format::{
    announced_size, decode_kv, decoded, encode_kv, law_round_trip, lemma_decode_encode,
    lemma_encode_decoded, lemma_record_len, record_bytes, record_size, KeyEntry, HEADER_SIZE,
};
use crate::recovery::{
    all_located, directory_of, entry_at, keys_of, lemma_directory_keys, lemma_replay_end,
    lemma_replay_kept, lemma_replay_located, lemma_replay_log_of, lemma_replay_whole, locates,
    log_of, recover, replay, storable, stored_at, Directory, Record,
};
use crate::text::bytes_of;
use vstd::hash_map::StringHashMap;
use vstd::prelude::*;

verus! {

/// Why the store refuses an operation.
#[derive(Clone, Copy, Debug, PartialEq, Eq, Structural)]
pub enum StoreError {
    /// The store has been closed.
    Closed,
    /// The log holds bytes that are not the record that is expected there.
    Corrupt {
        /// Where in the log that record should begin.
        offset: u64,
    },
    /// The record does not fit: its size exceeds what a directory entry
    /// or a buffer can hold, or the log would outgrow its offsets.
    TooLarge,
    /// The clock tells a time that does not fit a record's timestamp.
    Clock,
}

/// What a store stands for: the log as far as the store knows it, the
/// directory, and whether the store has been closed. The write cursor is
/// the length of the log.
pub struct LogState {
    /// The bytes of the log.
    pub log: Seq<u8>,
    /// The key directory.
    pub dir: Directory,
    /// Whether the store has been closed.
    pub closed: bool,
}

impl LogState {
    /// Every entry of the directory points at a record of its key in the
    /// log, and the log's offsets fit 64 bits.
    pub open spec fn wf(self) -> bool {
        &&& self.log.len() <= u64::MAX
        &&& all_located(self.log, self.dir, self.log.len() as int)
    }

    /// The store that a replay of `log` leaves: its log ends with the last
    /// record that the replay applied.
    pub open spec fn recovered(log: Seq<u8>) -> LogState {
        LogState { log: log.take(replay(log).end), dir: replay(log).dir, closed: false }
    }

    /// The store that opening `log` gives: the directory of the replay, and
    /// the whole log, so that the write cursor stands at its end.
    pub open spec fn opened(log: Seq<u8>) -> LogState {
        LogState { log, dir: replay(log).dir, closed: false }
    }

    /// Whether the record of `key` and `value` can be appended: its size
    /// fits a directory entry and a buffer, and the log's length stays
    /// within 64 bits.
    pub open spec fn fits(self, key: Seq<char>, value: Seq<char>) -> bool {
        &&& record_size(key, value) <= u32::MAX
        &&& record_size(key, value) <= isize::MAX
        &&& self.log.len() + record_size(key, value) <= u64::MAX
    }

    /// The store after the record of `timestamp`, `key` and `value` was
    /// appended: the log grows by the record, and the directory points
    /// `key` at it.
    pub open spec fn put(self, timestamp: u32, key: Seq<char>, value: Seq<char>) -> LogState {
        LogState {
            log: self.log + record_bytes(timestamp, key, value),
            dir: self.dir.insert(
                key,
                entry_at(timestamp, self.log.len() as int, record_size(key, value) as int),
            ),
            closed: self.closed,
        }
    }

    /// Why the record of `key` and `value` cannot be written, if it cannot.
    pub open spec fn refusal(self, key: Seq<char>, value: Seq<char>) -> Option<StoreError> {
        if self.closed {
            Some(StoreError::Closed)
        } else if !self.fits(key, value) {
            Some(StoreError::TooLarge)
        } else {
            None
        }
    }

    /// The store after it was closed.
    pub open spec fn shut(self) -> LogState {
        LogState { log: self.log, dir: self.dir, closed: true }
    }

    /// The value that the log holds for `key`: that of the record that the
    /// directory points at.
    pub open spec fn value_of(self, key: Seq<char>) -> Option<Seq<char>> {
        if self.dir.contains_key(key) {
            match decoded(stored_at(self.log, self.dir[key])) {
                Ok((_, _, value)) => Some(value),
                Err(_) => None,
            }
        } else {
            None
        }
    }
}

/// Whether `data` is exactly one record, of the size that `entry` gives.
pub open spec fn is_record_of(data: Seq<u8>, entry: KeyEntry) -> bool {
    &&& data.len() == entry.total_size
    &&& decoded(data) is Ok
    &&& announced_size(data) == data.len()
}

/// Entries that point at records before `end` point at the same records
/// in the log cut at `end`.
pub proof fn lemma_located_in_prefix(log: Seq<u8>, dir: Directory, end: int)
    requires
        0 <= end <= log.len(),
        all_located(log, dir, end),
    ensures
        all_located(log.take(end), dir, end),
{
    assert forall|key: Seq<char>| #[trigger] dir.contains_key(key) implies locates(
        log.take(end),
        dir[key],
        key,
    ) by {
        assert(stored_at(log.take(end), dir[key]) =~= stored_at(log, dir[key]));
    }
}

/// An entry that points at a record in `log` points at the same record in
/// any log that goes on behind `log`.
pub proof fn lemma_locates_extended(log: Seq<u8>, more: Seq<u8>, entry: KeyEntry, key: Seq<char>)
    requires
        locates(log, entry, key),
    ensures
        locates(log + more, entry, key),
{
    assert(stored_at(log + more, entry) =~= stored_at(log, entry));
}

/// The entry made for a record that was appended to `log` points at it.
pub proof fn lemma_locates_appended(log: Seq<u8>, timestamp: u32, key: Seq<char>, value: Seq<char>)
    requires
        record_size(key, value) <= u32::MAX,
        log.len() + record_size(key, value) <= u64::MAX,
    ensures
        locates(
            log + record_bytes(timestamp, key, value),
            entry_at(timestamp, log.len() as int, record_size(key, value) as int),
            key,
        ),
{
    let record = record_bytes(timestamp, key, value);
    let entry = entry_at(timestamp, log.len() as int, record_size(key, value) as int);
    lemma_decode_encode(timestamp, key, value, Seq::empty());
    assert(record + Seq::<u8>::empty() =~= record);
    assert(stored_at(log + record, entry) =~= record);
}

/// Appending a record that fits keeps the store well formed: the entries
/// it had still point at their records, and the new entry points at the
/// new record.
pub proof fn lemma_put_wf(state: LogState, timestamp: u32, key: Seq<char>, value: Seq<char>)
    requires
        state.wf(),
        state.fits(key, value),
    ensures
        state.put(timestamp, key, value).wf(),
{
    let next = state.put(timestamp, key, value);
    let record = record_bytes(timestamp, key, value);
    lemma_decode_encode(timestamp, key, value, Seq::empty());
    assert forall|k: Seq<char>| #[trigger] next.dir.contains_key(k) implies locates(
        next.log,
        next.dir[k],
        k,
    ) && next.dir[k].pos + next.dir[k].total_size <= next.log.len() by {
        if k == key {
            lemma_locates_appended(state.log, timestamp, key, value);
        } else {
            lemma_locates_extended(state.log, record, state.dir[k], k);
        }
    }
}

/// A record that is encoded and waits to be appended to the log.
pub struct PendingWrite {
    timestamp: u32,
    key: String,
    data: Vec<u8>,
    value: Ghost<Seq<char>>,
}

impl PendingWrite {
    #[verifier::type_invariant]
    spec fn inv(&self) -> bool {
        &&& record_size(self.key@, self.value@) <= u32::MAX
        &&& self.data@ == record_bytes(self.timestamp, self.key@, self.value@)
    }

    fn new(timestamp: u32, key: String, value: String) -> (record: Self)
        requires
            record_size(key@, value@) <= u32::MAX,
            record_size(key@, value@) <= isize::MAX,
        ensures
            record.timestamp() == timestamp,
            record.key() == key@,
            record.value() == value@,
    {
        let ghost text = value@;
        let (_, data) = encode_kv(timestamp, key.clone(), value);
        PendingWrite { timestamp, key, data, value: Ghost(text) }
    }

    /// The timestamp of the record.
    pub closed spec fn timestamp(&self) -> u32 {
        self.timestamp
    }

    /// The key of the record.
    pub closed spec fn key(&self) -> Seq<char> {
        self.key@
    }

    /// The value of the record.
    pub closed spec fn value(&self) -> Seq<char> {
        self.value@
    }

    /// The bytes to append to the log.
    pub fn bytes(&self) -> (bytes: &[u8])
        ensures
            bytes@ == record_bytes(self.timestamp(), self.key(), self.value()),
            bytes@.len() == record_size(self.key(), self.value()),
            record_size(self.key(), self.value()) <= u32::MAX,
    {
        proof {
            use_type_invariant(self);
            law_round_trip(self.timestamp, self.key@, self.value@);
        }
        self.data.as_slice()
    }
}

/// The key directory of one log, with the write cursor.
pub struct DiskStore {
    write_pos: u64,
    key_dir: StringHashMap<KeyEntry>,
    closed: bool,
    log: Ghost<Seq<u8>>,
}

impl View for DiskStore {
    type V = LogState;

    closed spec fn view(&self) -> LogState {
        LogState { log: self.log@, dir: self.key_dir@, closed: self.closed }
    }
}

impl DiskStore {
    #[verifier::type_invariant]
    spec fn inv(&self) -> bool {
        &&& self@.wf()
        &&& self.write_pos == self.log@.len()
    }

    /// Opens a store on a log that holds `log`: replays the log into the
    /// directory and puts the write cursor at the end of the log, behind
    /// whatever incomplete record the log may end in.
    pub fn new(log: &[u8]) -> (opened: Result<DiskStore, StoreError>)
        ensures
            match opened {
                Ok(store) => !replay(log@).corrupt && store@ == LogState::opened(log@)
                    && store@.wf(),
                Err(e) => replay(log@).corrupt && e == (StoreError::Corrupt {
                    offset: replay(log@).end as u64,
                }),
            },
    {
        let end = log.len();
        match recover(log) {
            Ok((key_dir, _)) => {
                proof {
                    lemma_replay_end(log@, 0, Map::empty());
                    lemma_replay_located(log@, 0, Map::empty());
                }
                Ok(
                    DiskStore {
                        write_pos: end as u64,
                        key_dir,
                        closed: false,
                        log: Ghost(log@),
                    },
                )
            },
            Err(offset) => Err(StoreError::Corrupt { offset }),
        }
    }

    /// Rebuilds the directory by replaying `log` from its first byte. What
    /// the directory held before is dropped. The write cursor is left at
    /// the end of the last complete record.
    ///
    /// A log that is corrupt leaves the store as it was.
    pub fn init_key_dir(&mut self, log: &[u8]) -> (done: Result<(), StoreError>)
        ensures
            match done {
                Ok(()) => {
                    &&& !old(self)@.closed
                    &&& !replay(log@).corrupt
                    &&& final(self)@ == LogState::recovered(log@)
                    &&& final(self)@.wf()
                },
                Err(e) => {
                    &&& final(self)@ == old(self)@
                    &&& if old(self)@.closed {
                        e == StoreError::Closed
                    } else {
                        replay(log@).corrupt && e == (StoreError::Corrupt {
                            offset: replay(log@).end as u64,
                        })
                    }
                },
            },
    {
        if self.closed {
            return Err(StoreError::Closed);
        }
        match recover(log) {
            Ok((key_dir, end)) => {
                proof {
                    assert(log@.len() == log.len());
                    lemma_replay_end(log@, 0, Map::empty());
                    lemma_replay_located(log@, 0, Map::empty());
                    lemma_located_in_prefix(log@, key_dir@, end as int);
                }
                *self = DiskStore {
                    write_pos: end,
                    key_dir,
                    closed: false,
                    log: Ghost(log@.take(end as int)),
                };
                Ok(())
            },
            Err(offset) => Err(StoreError::Corrupt { offset }),
        }
    }

    fn check_fit(&self, key: &String, value: &String) -> (fit: Result<(), StoreError>)
        ensures
            match fit {
                Ok(()) => self@.refusal(key@, value@) is None,
                Err(e) => self@.refusal(key@, value@) == Some(e),
            },
    {
        proof {
            use_type_invariant(self);
        }
        if self.closed {
            return Err(StoreError::Closed);
        }
        let key_size = bytes_of(key).len();
        let value_size = bytes_of(value).len();
        if key_size > u32::MAX as usize || value_size > u32::MAX as usize {
            return Err(StoreError::TooLarge);
        }
        let size: u64 = HEADER_SIZE as u64 + key_size as u64 + value_size as u64;
        if size > u32::MAX as u64 || size > isize::MAX as u64 || self.write_pos > u64::MAX - size {
            return Err(StoreError::TooLarge);
        }
        Ok(())
    }

    /// Encodes the record that sets `key` to `value` at the time
    /// `timestamp`, for the caller to append to the log. The store itself
    /// does not change before `write`.
    pub fn set_at(&self, timestamp: u32, key: String, value: String) -> (staged: Result<
        PendingWrite,
        StoreError,
    >)
        ensures
            match staged {
                Ok(record) => {
                    &&& self@.refusal(key@, value@) is None
                    &&& record.timestamp() == timestamp
                    &&& record.key() == key@
                    &&& record.value() == value@
                },
                Err(e) => self@.refusal(key@, value@) == Some(e),
            },
    {
        match self.check_fit(&key, &value) {
            Err(e) => Err(e),
            Ok(()) => Ok(PendingWrite::new(timestamp, key, value)),
        }
    }

    /// Encodes the record that sets `key` to `value` now, for the caller to
    /// append to the log. The store itself does not change before `write`.
    ///
    /// Fails as `set_at` does, and with `Clock` where the present time has
    /// no timestamp.
    pub fn set(&self, key: String, value: String) -> (staged: Result<PendingWrite, StoreError>)
        ensures
            match staged {
                Ok(record) => {
                    &&& self@.refusal(key@, value@) is None
                    &&& record.key() == key@
                    &&& record.value() == value@
                },
                Err(e) => self@.refusal(key@, value@) == Some(e) || (self@.refusal(key@, value@)
                    is None && e == StoreError::Clock),
            },
    {
        match self.check_fit(&key, &value) {
            Err(e) => Err(e),
            Ok(()) => match current_timestamp() {
                None => Err(StoreError::Clock),
                Some(timestamp) => Ok(PendingWrite::new(timestamp, key, value)),
            },
        }
    }

    /// Takes a record into the directory once it stands in the log: to be
    /// called when, and only when, the record's bytes have been appended
    /// to the log durably. The directory then points the record's key at
    /// it, and the write cursor moves behind it.
    ///
    /// A refused record leaves the store as it was.
    pub fn write(&mut self, record: PendingWrite) -> (done: Result<(), StoreError>)
        ensures
            match done {
                Ok(()) => {
                    &&& old(self)@.refusal(record.key(), record.value()) is None
                    &&& final(self)@ == old(self)@.put(
                        record.timestamp(),
                        record.key(),
                        record.value(),
                    )
                    &&& final(self)@.wf()
                },
                Err(e) => {
                    &&& final(self)@ == old(self)@
                    &&& old(self)@.refusal(record.key(), record.value()) == Some(e)
                },
            },
    {
        proof {
            use_type_invariant(&*self);
            use_type_invariant(&record);
            law_round_trip(record.timestamp, record.key@, record.value@);
        }
        if self.closed {
            return Err(StoreError::Closed);
        }
        let size = record.data.len();
        if size > isize::MAX as usize || self.write_pos > u64::MAX - size as u64 {
            return Err(StoreError::TooLarge);
        }
        let entry = KeyEntry::new(record.timestamp, self.write_pos, size as u32);
        let ghost before = self@;
        let mut key_dir = StringHashMap::new();
        std::mem::swap(&mut self.key_dir, &mut key_dir);
        key_dir.insert(record.key, entry);
        proof {
            lemma_put_wf(before, record.timestamp(), record.key(), record.value());
        }
        *self = DiskStore {
            write_pos: self.write_pos + size as u64,
            key_dir,
            closed: false,
            log: Ghost(self.log@ + record.data@),
        };
        Ok(())
    }

    /// Looks `key` up in the directory: the place of its latest record, or
    /// `None` for a key that has no record. The caller reads
    /// `total_size` bytes at `pos` and hands them to `value`.
    pub fn get(&self, key: &str) -> (found: Result<Option<KeyEntry>, StoreError>)
        ensures
            match found {
                Ok(Some(entry)) => {
                    &&& !self@.closed
                    &&& self@.dir.contains_key(key@)
                    &&& entry == self@.dir[key@]
                    &&& locates(self@.log, entry, key@)
                },
                Ok(None) => !self@.closed && !self@.dir.contains_key(key@),
                Err(e) => self@.closed && e == StoreError::Closed,
            },
    {
        proof {
            use_type_invariant(self);
        }
        if self.closed {
            return Err(StoreError::Closed);
        }
        match self.key_dir.get(key) {
            Some(entry) => Ok(Some(*entry)),
            None => Ok(None),
        }
    }

    /// Decodes what was read from the log at `entry` and returns the value
    /// of the record. The bytes must be exactly one record, as long as the
    /// entry says; anything else means that the log is not what the
    /// directory was built from.
    pub fn value(&self, entry: &KeyEntry, data: &[u8]) -> (value: Result<String, StoreError>)
        ensures
            match value {
                Ok(text) => {
                    &&& !self@.closed
                    &&& is_record_of(data@, *entry)
                    &&& text@ == decoded(data@)->Ok_0.2
                },
                Err(e) => if self@.closed {
                    e == StoreError::Closed
                } else {
                    !is_record_of(data@, *entry) && e == (StoreError::Corrupt { offset: entry.pos })
                },
            },
    {
        if self.closed {
            return Err(StoreError::Closed);
        }
        if data.len() != entry.total_size as usize {
            return Err(StoreError::Corrupt { offset: entry.pos });
        }
        match decode_kv(data) {
            Err(_) => Err(StoreError::Corrupt { offset: entry.pos }),
            Ok((_, key, value)) => {
                proof {
                    lemma_encode_decoded(data@);
                }
                if HEADER_SIZE + key.as_str().len() + value.as_str().len() != data.len() {
                    Err(StoreError::Corrupt { offset: entry.pos })
                } else {
                    Ok(value)
                }
            },
        }
    }

    /// Closes the store. Every later operation is refused, a second
    /// `close` too.
    pub fn close(&mut self) -> (done: Result<(), StoreError>)
        ensures
            match done {
                Ok(()) => !old(self)@.closed && final(self)@ == old(self)@.shut(),
                Err(e) => old(self)@.closed && e == StoreError::Closed && final(self)@ == old(
                    self,
                )@,
            },
    {
        proof {
            use_type_invariant(&*self);
        }
        if self.closed {
            return Err(StoreError::Closed);
        }
        self.closed = true;
        Ok(())
    }

    /// The offset at which the next record will be appended: the length of
    /// the log.
    pub fn write_pos(&self) -> (pos: u64)
        ensures
            pos == self@.log.len(),
    {
        proof {
            use_type_invariant(self);
        }
        self.write_pos
    }

    /// Whether the store has been closed.
    pub fn is_closed(&self) -> (closed: bool)
        ensures
            closed == self@.closed,
    {
        self.closed
    }

    /// The number of keys in the directory.
    pub fn len(&self) -> (n: usize)
        ensures
            n == self@.dir.len(),
    {
        self.key_dir.len()
    }
}

/// Last write wins. After two writes to one key the directory holds one
/// entry for the key, with the timestamp and the place of the second
/// record, and the value found through it is the second value.
pub proof fn law_last_write_wins(
    state: LogState,
    key: Seq<char>,
    first_time: u32,
    first: Seq<char>,
    second_time: u32,
    second: Seq<char>,
)
    requires
        state.wf(),
        state.fits(key, first),
        state.put(first_time, key, first).fits(key, second),
    ensures
        ({
            let once = state.put(first_time, key, first);
            let twice = once.put(second_time, key, second);
            &&& twice.wf()
            &&& twice.dir.dom() == state.dir.dom().insert(key)
            &&& twice.dir[key] == entry_at(
                second_time,
                (state.log.len() + record_size(key, first)) as int,
                record_size(key, second) as int,
            )
            &&& twice.value_of(key) == Some(second)
        }),
{
    let once = state.put(first_time, key, first);
    let twice = once.put(second_time, key, second);
    lemma_put_wf(state, first_time, key, first);
    lemma_put_wf(once, second_time, key, second);
    lemma_record_len(first_time, key, first);
    lemma_value_after_put(once, second_time, key, second);
    assert(twice.dir.dom() =~= state.dir.dom().insert(key));
}

/// The value found for a key right after a write to it is the value
/// written.
pub proof fn lemma_value_after_put(
    state: LogState,
    timestamp: u32,
    key: Seq<char>,
    value: Seq<char>,
)
    requires
        state.fits(key, value),
    ensures
        state.put(timestamp, key, value).value_of(key) == Some(value),
{
    let next = state.put(timestamp, key, value);
    let record = record_bytes(timestamp, key, value);
    law_round_trip(timestamp, key, value);
    assert(stored_at(next.log, next.dir[key]) =~= record);
}

/// Reading back. In a well-formed store the bytes that the log holds at the
/// entry of a key are exactly one record of the entry's size: the record of
/// the entry's timestamp, the key, and the value that the store holds for
/// the key. `value` accepts those bytes and returns that value.
pub proof fn law_stored_record_is_read(state: LogState, key: Seq<char>)
    requires
        state.wf(),
        state.dir.contains_key(key),
    ensures
        state.value_of(key) is Some,
        is_record_of(stored_at(state.log, state.dir[key]), state.dir[key]),
        stored_at(state.log, state.dir[key]) == record_bytes(
            state.dir[key].timestamp,
            key,
            state.value_of(key)->0,
        ),
{
    let data = stored_at(state.log, state.dir[key]);
    lemma_encode_decoded(data);
    assert(data.take(announced_size(data)) =~= data);
}

/// Durability across reopening. On a log of whole records, a store that
/// has written a record and was closed leaves a log from which a new store
/// comes up with the same directory, and finds the written value for the
/// written key.
pub proof fn law_durable_across_reopen(
    records: Seq<Record>,
    timestamp: u32,
    key: Seq<char>,
    value: Seq<char>,
)
    requires
        storable(records),
        LogState::opened(log_of(records)).fits(key, value),
    ensures
        ({
            let written = LogState::opened(log_of(records)).put(timestamp, key, value).shut();
            let reopened = LogState::opened(written.log);
            &&& !replay(written.log).corrupt
            &&& !reopened.closed
            &&& reopened.dir == written.dir
            &&& reopened.log == written.log
            &&& reopened.value_of(key) == Some(value)
        }),
{
    let before = LogState::opened(log_of(records));
    let written = before.put(timestamp, key, value).shut();
    let record = Record { timestamp, key, value };
    let all = records.push(record);
    assert(all.drop_last() =~= records);
    assert(all.last() == record);
    lemma_record_len(timestamp, key, value);
    assert(storable(all)) by {
        assert forall|i: int| 0 <= i < all.len() implies #[trigger] all[i].storable() by {
            if i < records.len() {
                assert(all[i] == records[i]);
                assert(records[i].storable());
            }
        }
    }
    lemma_replay_log_of(records);
    lemma_replay_log_of(all);
    lemma_value_after_put(before, timestamp, key, value);
}

/// A miss is no error. A key that no record of the log writes has no entry
/// in the directory of the opened store, and no value.
pub proof fn law_unwritten_key_is_missing(records: Seq<Record>, key: Seq<char>)
    requires
        storable(records),
        forall|i: int| 0 <= i < records.len() ==> (#[trigger] records[i]).key != key,
    ensures
        !LogState::opened(log_of(records)).dir.contains_key(key),
        LogState::opened(log_of(records)).value_of(key) is None,
{
    lemma_replay_log_of(records);
    lemma_directory_keys(records);
    assert(!keys_of(records).contains(key));
}

/// Recovery tolerates truncation. A log of whole records that ends in the
/// beginning of one more record opens without complaint: the directory is
/// that of the whole records and holds their keys and no other, and the
/// write cursor stands at the end of the log, behind the partial record.
pub proof fn law_recovery_tolerates_truncation(records: Seq<Record>, partial: Record, cut: int)
    requires
        storable(records),
        partial.storable(),
        0 <= cut < partial.size(),
    ensures
        ({
            let log = log_of(records) + partial.bytes().take(cut);
            let store = LogState::opened(log);
            &&& !replay(log).corrupt
            &&& replay(log).end == log_of(records).len()
            &&& store.dir == directory_of(records)
            &&& store.dir.dom() == keys_of(records)
            &&& store.log.len() == log_of(records).len() + cut
        }),
{
    lemma_replay_whole(records, partial, cut);
    lemma_directory_keys(records);
    lemma_record_len(partial.timestamp, partial.key, partial.value);
}

/// Recovery is idempotent. Replaying the log that a recovery kept gives
/// the store that the recovery gave.
pub proof fn law_recovery_idempotent(log: Seq<u8>)
    ensures
        LogState::recovered(LogState::recovered(log).log) == LogState::recovered(log),
{
    let once = LogState::recovered(log);
    lemma_replay_end(log, 0, Map::empty());
    lemma_replay_kept(log, 0, Map::empty());
    assert(once.log.take(replay(log).end) =~= once.log);
}

} // verus!
