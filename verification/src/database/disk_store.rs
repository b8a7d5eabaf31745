//! The in-memory index of the disk-backed store, and the decisions taken while
//! a database file is scanned to rebuild it.
//!
//! The index maps each key to the place of its last record in the file.
use dashmap::DashMap;
use vstd::prelude::*;

use crate::database::format::{
    fits_record, header_fields, is_decodable_record, lemma_kv_roundtrip, record_bytes,
    record_fields, str_from_utf8, FormatError, KeyEntry, HEADER_SIZE,
};
use vstd::string::StringSliceAdditionalSpecFns;
use vstd::utf8::*;

verus! {

#[verifier::external_type_specification]
#[verifier::external_body]
#[verifier::reject_recursive_types(K)]
#[verifier::reject_recursive_types(V)]
#[verifier::reject_recursive_types(S)]
pub struct ExDashMap<K, V, S>(DashMap<K, V, S>);

/// What a `DashMap` of the index holds: each key, by its characters, with its
/// entry.
pub uninterp spec fn dashmap_entries(m: DashMap<String, KeyEntry>) -> Map<Seq<char>, KeyEntry>;

/// Calls `DashMap::new`, which makes an empty map.
#[verifier::external_body]
fn dashmap_new() -> (created: DashMap<String, KeyEntry>)
    ensures
        dashmap_entries(created).is_empty(),
{
    DashMap::new()
}

/// Calls `DashMap::insert`, which puts `entry` under `key` and replaces what
/// was there; the entry it hands back is dropped.
#[verifier::external_body]
fn dashmap_insert(m: &mut DashMap<String, KeyEntry>, key: String, entry: KeyEntry)
    ensures
        dashmap_entries(*final(m)) == dashmap_entries(*old(m)).insert(key@, entry),
{
    m.insert(key, entry);
}

/// Calls `DashMap::get`, which finds the entry under `key`, and copies the
/// entry out of the guard it returns.
#[verifier::external_body]
fn dashmap_get(m: &DashMap<String, KeyEntry>, key: &str) -> (found: Option<KeyEntry>)
    ensures
        found is Some <==> dashmap_entries(*m).contains_key(key@),
        found is Some ==> found->Some_0 == dashmap_entries(*m)[key@],
{
    m.get(key).map(|entry| *entry.value())
}

/// The index of a disk-backed store: for each key, where its last record is.
pub struct KeyDir {
    entries: DashMap<String, KeyEntry>,
}

impl View for KeyDir {
    type V = Map<Seq<char>, KeyEntry>;

    closed spec fn view(&self) -> Map<Seq<char>, KeyEntry> {
        dashmap_entries(self.entries)
    }
}

impl KeyDir {
    /// An empty index.
    pub fn new() -> (keydir: Self)
        ensures
            keydir@ == Map::<Seq<char>, KeyEntry>::empty(),
    {
        KeyDir { entries: dashmap_new() }
    }

    /// Records that the last record of `key` is now described by `entry`.
    pub fn insert(&mut self, key: String, entry: KeyEntry)
        ensures
            final(self)@ == old(self)@.insert(key@, entry),
    {
        dashmap_insert(&mut self.entries, key, entry);
    }

    /// Where the last record of `key` is, if the index knows the key.
    pub fn get(&self, key: &str) -> (entry: Option<KeyEntry>)
        ensures
            entry is Some <==> self@.contains_key(key@),
            entry is Some ==> entry->Some_0 == self@[key@],
    {
        dashmap_get(&self.entries, key)
    }
}

impl KeyDir {
    /// Records the write of a record for `key` with `timestamp`, placed at
    /// `position` in the file and `total_size` bytes long (the size is kept
    /// as a `u32`, truncated).
    pub fn record_set(&mut self, key: &str, timestamp: u32, position: u64, total_size: usize)
        ensures
            final(self)@ == old(self)@.insert(
                key@,
                KeyEntry { timestamp, position, total_size: total_size as u32 },
            ),
    {
        self.insert(key.to_owned(), KeyEntry { timestamp, position, total_size: total_size as u32 });
    }
}

/// How the scan of a database file ends.
pub enum ScanOutcome {
    /// The whole file was read; the index it gives.
    Loaded(Map<Seq<char>, KeyEntry>),
    /// The file holds something that is no record.
    Failed(FormatError),
    /// A key runs past the end of the file, so it cannot be read whole.
    KeyCutShort,
}

/// The entry that the record at `position` in `data` gets in the index.
pub open spec fn entry_at(data: Seq<u8>, position: int) -> KeyEntry {
    let (timestamp, key_size, val_size) = header_fields(data.skip(position));
    KeyEntry {
        timestamp,
        position: position as u64,
        total_size: (HEADER_SIZE + key_size + val_size) as u32,
    }
}

/// The key bytes of the record at `position` in `data`.
pub open spec fn key_bytes_at(data: Seq<u8>, position: int) -> Seq<u8> {
    data.subrange(position + HEADER_SIZE, position + HEADER_SIZE + header_fields(data.skip(position)).1)
}

/// What scanning `data` from `position` on gives, with `index` built so far:
/// records are read one after the other, each putting its key in the index
/// with its place in the file, the last record of a key winning.  A value is
/// skipped without being read, so one cut short at the end of the file goes
/// unnoticed.
pub open spec fn scan_from(data: Seq<u8>, position: int, index: Map<Seq<char>, KeyEntry>) -> ScanOutcome
    decreases (if position < data.len() { data.len() - position } else { 0 }),
{
    if position < 0 || position >= data.len() {
        ScanOutcome::Loaded(index)
    } else if data.len() - position < HEADER_SIZE {
        ScanOutcome::Failed(FormatError::Header((data.len() - position) as usize))
    } else {
        let (timestamp, key_size, val_size) = header_fields(data.skip(position));
        if position + HEADER_SIZE + key_size > data.len() {
            ScanOutcome::KeyCutShort
        } else if !valid_utf8(key_bytes_at(data, position)) {
            ScanOutcome::Failed(FormatError::InvalidKey)
        } else {
            scan_from(
                data,
                position + HEADER_SIZE + key_size + val_size,
                index.insert(decode_utf8(key_bytes_at(data, position)), entry_at(data, position)),
            )
        }
    }
}

/// What the scan does with the bytes that one read of a header gave:
/// nothing at all ends the scan (`Ok(None)`), a whole header gives its fields,
/// and anything in between is a header cut short.
pub fn scan_header(read: &[u8]) -> (step: Result<Option<(u32, u32, u32)>, FormatError>)
    requires
        read@.len() <= HEADER_SIZE,
    ensures
        read@.len() == 0 ==> step == Ok::<Option<(u32, u32, u32)>, FormatError>(None),
        read@.len() == HEADER_SIZE ==> step == Ok::<Option<(u32, u32, u32)>, FormatError>(
            Some(header_fields(read@)),
        ),
        0 < read@.len() < HEADER_SIZE ==> step == Err::<Option<(u32, u32, u32)>, FormatError>(
            FormatError::Header(read@.len() as usize),
        ),
{
    let bytes_read = read.len();
    if bytes_read == 0 {
        return Ok(None);
    }
    if bytes_read != HEADER_SIZE {
        return Err(FormatError::Header(bytes_read));
    }
    Ok(Some(crate::database::format::decode_header(read)))
}

/// The state of the scan of a database file: the index built so far and the
/// place in the file of the next record.
pub struct KeyDirScan {
    keydir: KeyDir,
    position: u64,
}

impl View for KeyDirScan {
    type V = (Map<Seq<char>, KeyEntry>, u64);

    closed spec fn view(&self) -> (Map<Seq<char>, KeyEntry>, u64) {
        (self.keydir@, self.position)
    }
}

impl KeyDirScan {
    /// The scan before anything is read: an empty index, at the start of the
    /// file.
    pub fn new() -> (scan: Self)
        ensures
            scan@.0 == Map::<Seq<char>, KeyEntry>::empty(),
            scan@.1 == 0,
    {
        KeyDirScan { keydir: KeyDir::new(), position: 0 }
    }

    /// Where in the file the next record starts.
    pub fn position(&self) -> (position: u64)
        ensures
            position == self@.1,
    {
        self.position
    }

    /// Takes the key of the record whose header gave `header`: a key that is
    /// not UTF-8 fails the scan; otherwise the index gets the key with the
    /// record's timestamp, place and size, and the scan moves past the
    /// record, value included.
    pub fn key_read(&mut self, header: (u32, u32, u32), key_bytes: &[u8]) -> (step: Result<(), FormatError>)
        requires
            key_bytes@.len() == header.1,
            HEADER_SIZE + header.1 + header.2 <= u32::MAX,
            old(self)@.1 + HEADER_SIZE + header.1 + header.2 <= u64::MAX,
        ensures
            step is Ok <==> valid_utf8(key_bytes@),
            step is Err ==> step == Err::<(), FormatError>(FormatError::InvalidKey) && final(self)@ == old(self)@,
            step is Ok ==> final(self)@ == (
                old(self)@.0.insert(
                    decode_utf8(key_bytes@),
                    KeyEntry {
                        timestamp: header.0,
                        position: old(self)@.1,
                        total_size: (HEADER_SIZE + header.1 + header.2) as u32,
                    },
                ),
                (old(self)@.1 + HEADER_SIZE + header.1 + header.2) as u64,
            ),
    {
        let (timestamp, key_size, val_size) = header;
        let total_size: u32 = HEADER_SIZE as u32 + key_size + val_size;
        let key = match str_from_utf8(key_bytes) {
            Ok(s) => {
                proof {
                    encode_utf8_decode_utf8(s@);
                }
                s.to_owned()
            },
            Err(_) => {
                return Err(FormatError::InvalidKey);
            },
        };
        let key_entry = KeyEntry { timestamp, position: self.position, total_size };
        self.keydir.insert(key, key_entry);
        self.position = self.position + total_size as u64;
        Ok(())
    }

    /// The index the scan has built.
    pub fn into_keydir(self) -> (keydir: KeyDir)
        ensures
            keydir@ == self@.0,
    {
        self.keydir
    }
}

/// The database file after the records `(timestamp, key, value)` of
/// `records` were written one after the other.
pub open spec fn log_bytes(records: Seq<(u32, Seq<char>, Seq<char>)>) -> Seq<u8>
    decreases records.len(),
{
    if records.len() == 0 {
        Seq::empty()
    } else {
        let last = records.last();
        log_bytes(records.drop_last()) + record_bytes(last.0, last.1, last.2)
    }
}

/// The index that `record_set` builds when the records of `records` are
/// written one after the other, each at the end of the file.
pub open spec fn index_after_sets(records: Seq<(u32, Seq<char>, Seq<char>)>) -> Map<Seq<char>, KeyEntry>
    decreases records.len(),
{
    if records.len() == 0 {
        Map::empty()
    } else {
        let last = records.last();
        index_after_sets(records.drop_last()).insert(
            last.1,
            KeyEntry {
                timestamp: last.0,
                position: log_bytes(records.drop_last()).len() as u64,
                total_size: record_bytes(last.0, last.1, last.2).len() as u32,
            },
        )
    }
}

/// The value each key has after the records of `records` were set in turn.
pub open spec fn values_after_sets(records: Seq<(u32, Seq<char>, Seq<char>)>) -> Map<Seq<char>, Seq<char>>
    decreases records.len(),
{
    if records.len() == 0 {
        Map::empty()
    } else {
        values_after_sets(records.drop_last()).insert(records.last().1, records.last().2)
    }
}

/// Whether every record of `records` can be written and indexed: its key and
/// value fit a header, its size fits a `u32`, and the whole file's length
/// fits a `u64`.
pub open spec fn records_fit(records: Seq<(u32, Seq<char>, Seq<char>)>) -> bool {
    &&& forall|i: int|
        0 <= i < records.len() ==> {
            &&& fits_record(#[trigger] records[i].1, records[i].2)
            &&& record_bytes(records[i].0, records[i].1, records[i].2).len() <= u32::MAX
        }
    &&& log_bytes(records).len() <= u64::MAX
}

/// What the disk store's `get` gives for `key` from `index` and the file
/// bytes `data`: the value of the record that the key's entry names, if the
/// index knows the key.
pub open spec fn read_value(index: Map<Seq<char>, KeyEntry>, data: Seq<u8>, key: Seq<char>) -> Option<Seq<char>> {
    if index.contains_key(key) {
        let e = index[key];
        Some(record_fields(data.subrange(e.position as int, e.position + e.total_size)).2)
    } else {
        None
    }
}

/// Whether every entry of `index` names bytes that lie within `data`.
pub open spec fn entries_in_file(index: Map<Seq<char>, KeyEntry>, data: Seq<u8>) -> bool {
    forall|key: Seq<char>| #[trigger]
        index.contains_key(key) ==> index[key].position + index[key].total_size <= data.len()
}

/// Whether the entry of `key` in `index` names a whole, decodable record of
/// `data`, so that `get` reads it without failing.
pub open spec fn entry_readable(index: Map<Seq<char>, KeyEntry>, data: Seq<u8>, key: Seq<char>) -> bool {
    &&& index.contains_key(key)
    &&& index[key].position + index[key].total_size <= data.len()
    &&& is_decodable_record(
        data.subrange(index[key].position as int, index[key].position + index[key].total_size),
    )
}

/// What a read gives back of a write, from any state of the disk store: when
/// `set(key, val)` appends its record at the end of the file `data` and
/// `record_set` puts the record's entry in `index`, a `get(key)` reads `val`
/// back from a whole record, and every other key reads what it read before,
/// from the same bytes.
pub proof fn lemma_read_after_set(
    index: Map<Seq<char>, KeyEntry>,
    data: Seq<u8>,
    timestamp: u32,
    key: Seq<char>,
    val: Seq<char>,
)
    requires
        entries_in_file(index, data),
        fits_record(key, val),
        record_bytes(timestamp, key, val).len() <= u32::MAX,
        data.len() <= u64::MAX,
    ensures
        ({
            let rec = record_bytes(timestamp, key, val);
            let new_index = index.insert(
                key,
                KeyEntry { timestamp, position: data.len() as u64, total_size: rec.len() as u32 },
            );
            let new_data = data + rec;
            &&& entries_in_file(new_index, new_data)
            &&& entry_readable(new_index, new_data, key)
            &&& read_value(new_index, new_data, key) == Some(val)
            &&& forall|other: Seq<char>|
                other != key ==> {
                    &&& #[trigger] read_value(new_index, new_data, other) == read_value(index, data, other)
                    &&& entry_readable(new_index, new_data, other) == entry_readable(index, data, other)
                }
        }),
{
    let rec = record_bytes(timestamp, key, val);
    let new_index = index.insert(
        key,
        KeyEntry { timestamp, position: data.len() as u64, total_size: rec.len() as u32 },
    );
    let new_data = data + rec;
    lemma_kv_roundtrip(timestamp, key, val, Seq::empty());
    assert(rec + Seq::<u8>::empty() =~= rec);
    assert(new_data.subrange(data.len() as int, (data.len() + rec.len()) as int) =~= rec);
    assert forall|k: Seq<char>| #[trigger] new_index.contains_key(k) implies new_index[k].position
        + new_index[k].total_size <= new_data.len() by {
        if k != key {
            assert(index.contains_key(k));
        }
    }
    assert forall|other: Seq<char>| other != key implies {
        &&& #[trigger] read_value(new_index, new_data, other) == read_value(index, data, other)
        &&& entry_readable(new_index, new_data, other) == entry_readable(index, data, other)
    } by {
        if index.contains_key(other) {
            let e = index[other];
            assert(new_data.subrange(e.position as int, e.position + e.total_size) =~= data.subrange(
                e.position as int,
                e.position + e.total_size,
            ));
        }
    }
}

/// One step of the scan, as `scan_header` and `key_read` take it, is one step
/// of `scan_from`: with the bytes that a read at `position` finds, an empty
/// read ends the scan, a short one fails it, a whole header gives the fields
/// that `scan_from` reads there, and a record whose key is read whole moves
/// the scan past the record with the key's entry put in the index.
pub proof fn lemma_scan_step(data: Seq<u8>, position: int, index: Map<Seq<char>, KeyEntry>)
    requires
        0 <= position,
    ensures
        position >= data.len() ==> scan_from(data, position, index) == ScanOutcome::Loaded(index),
        position < data.len() && data.len() - position < HEADER_SIZE ==> scan_from(
            data,
            position,
            index,
        ) == ScanOutcome::Failed(FormatError::Header((data.len() - position) as usize)),
        data.len() - position >= HEADER_SIZE ==> header_fields(
            data.subrange(position, position + HEADER_SIZE),
        ) == header_fields(data.skip(position)),
        data.len() - position >= HEADER_SIZE && position + HEADER_SIZE + header_fields(
            data.skip(position),
        ).1 > data.len() ==> scan_from(data, position, index) == ScanOutcome::KeyCutShort,
        ({
            let (timestamp, key_size, val_size) = header_fields(data.skip(position));
            let key_bytes = data.subrange(position + HEADER_SIZE, position + HEADER_SIZE + key_size);
            data.len() - position >= HEADER_SIZE && position + HEADER_SIZE + key_size <= data.len()
                ==> {
                &&& !valid_utf8(key_bytes) ==> scan_from(data, position, index) == ScanOutcome::Failed(
                    FormatError::InvalidKey,
                )
                &&& valid_utf8(key_bytes) ==> scan_from(data, position, index) == scan_from(
                    data,
                    position + HEADER_SIZE + key_size + val_size,
                    index.insert(
                        decode_utf8(key_bytes),
                        KeyEntry {
                            timestamp,
                            position: position as u64,
                            total_size: (HEADER_SIZE + key_size + val_size) as u32,
                        },
                    ),
                )
            }
        }),
{
    if data.len() - position >= HEADER_SIZE {
        let a = data.subrange(position, position + HEADER_SIZE);
        let b = data.skip(position);
        assert(a.subrange(0, 4) =~= b.subrange(0, 4));
        assert(a.subrange(4, 8) =~= b.subrange(4, 8));
        assert(a.subrange(8, 12) =~= b.subrange(8, 12));
    }
}

proof fn lemma_log_prefix(records: Seq<(u32, Seq<char>, Seq<char>)>, j: int)
    requires
        0 <= j <= records.len(),
    ensures
        log_bytes(records.take(j)).len() <= log_bytes(records).len(),
        log_bytes(records).subrange(0, log_bytes(records.take(j)).len() as int) == log_bytes(
            records.take(j),
        ),
    decreases records.len(),
{
    if j == records.len() {
        assert(records.take(j) =~= records);
        assert(log_bytes(records).subrange(0, log_bytes(records).len() as int) =~= log_bytes(records));
    } else {
        let r = records.drop_last();
        assert(r.take(j) =~= records.take(j));
        lemma_log_prefix(r, j);
        let n = log_bytes(records.take(j)).len() as int;
        assert(log_bytes(records).subrange(0, n) =~= log_bytes(r).subrange(0, n));
    }
}

proof fn lemma_take_step(records: Seq<(u32, Seq<char>, Seq<char>)>, i: int)
    requires
        0 <= i < records.len(),
    ensures
        log_bytes(records.take(i + 1)) == log_bytes(records.take(i)) + record_bytes(
            records[i].0,
            records[i].1,
            records[i].2,
        ),
        index_after_sets(records.take(i + 1)) == index_after_sets(records.take(i)).insert(
            records[i].1,
            KeyEntry {
                timestamp: records[i].0,
                position: log_bytes(records.take(i)).len() as u64,
                total_size: record_bytes(records[i].0, records[i].1, records[i].2).len() as u32,
            },
        ),
{
    assert(records.take(i + 1).drop_last() =~= records.take(i));
    assert(records.take(i + 1).last() == records[i]);
}

#[verifier::spinoff_prover]
#[verifier::rlimit(40)]
proof fn lemma_scan_suffix(records: Seq<(u32, Seq<char>, Seq<char>)>, i: int)
    requires
        0 <= i <= records.len(),
        records_fit(records),
    ensures
        scan_from(log_bytes(records), log_bytes(records.take(i)).len() as int, index_after_sets(records.take(i)))
            == ScanOutcome::Loaded(index_after_sets(records)),
    decreases records.len() - i,
{
    let data = log_bytes(records);
    if i == records.len() {
        assert(records.take(i) =~= records);
    } else {
        let pos = log_bytes(records.take(i)).len() as int;
        let (t, key, val) = records[i];
        let rec = record_bytes(t, key, val);
        assert(fits_record(records[i].1, records[i].2));
        lemma_take_step(records, i);
        lemma_log_prefix(records, i + 1);
        let next = pos + rec.len();
        let rest = data.skip(next);
        assert(log_bytes(records.take(i + 1)) == data.subrange(0, next));
        assert(data.skip(pos) =~= rec + rest) by {
            assert(data.subrange(0, next) =~= log_bytes(records.take(i)) + rec);
            assert forall|j: int| 0 <= j < data.skip(pos).len() implies data.skip(pos)[j] == (rec
                + rest)[j] by {
                if j < rec.len() {
                    assert(data.subrange(0, next)[pos + j] == rec[j]);
                }
            }
        }
        lemma_kv_roundtrip(t, key, val, rest);
        let h = header_fields(data.skip(pos));
        assert(key_bytes_at(data, pos) =~= (rec + rest).subrange(
            HEADER_SIZE as int,
            HEADER_SIZE + h.1,
        ));
        assert(entry_at(data, pos) == KeyEntry {
            timestamp: t,
            position: pos as u64,
            total_size: rec.len() as u32,
        });
        lemma_scan_suffix(records, i + 1);
    }
}

proof fn lemma_fit_prefix(records: Seq<(u32, Seq<char>, Seq<char>)>)
    requires
        records.len() > 0,
        records_fit(records),
    ensures
        records_fit(records.drop_last()),
        log_bytes(records.drop_last()).len() <= log_bytes(records).len(),
{
    let r = records.drop_last();
    assert forall|i: int| 0 <= i < r.len() implies {
        &&& fits_record(#[trigger] r[i].1, r[i].2)
        &&& record_bytes(r[i].0, r[i].1, r[i].2).len() <= u32::MAX
    } by {
        assert(r[i] == records[i]);
        assert(fits_record(records[i].1, records[i].2));
    }
}

/// Each entry of the index kept while records were written points at the last
/// record written for its key: the bytes it names in the file decode to that
/// key, with the timestamp the entry holds and the value last set for it.
pub proof fn lemma_index_points_at_last_values(records: Seq<(u32, Seq<char>, Seq<char>)>)
    requires
        records_fit(records),
    ensures
        index_after_sets(records).dom() == values_after_sets(records).dom(),
        forall|key: Seq<char>| #[trigger]
            index_after_sets(records).contains_key(key) ==> {
                let e = index_after_sets(records)[key];
                let bytes = log_bytes(records).subrange(
                    e.position as int,
                    e.position + e.total_size,
                );
                &&& e.position + e.total_size <= log_bytes(records).len()
                &&& is_decodable_record(bytes)
                &&& record_fields(bytes) == (e.timestamp, key, values_after_sets(records)[key])
            },
    decreases records.len(),
{
    if records.len() > 0 {
        let r = records.drop_last();
        let (t, k, v) = records.last();
        let rec = record_bytes(t, k, v);
        lemma_fit_prefix(records);
        lemma_index_points_at_last_values(r);
        assert(fits_record(records[records.len() - 1].1, records[records.len() - 1].2));
        lemma_kv_roundtrip(t, k, v, Seq::empty());
        assert(rec + Seq::<u8>::empty() =~= rec);
        let data = log_bytes(records);
        let n = log_bytes(r).len() as int;
        assert(data.subrange(n, n + rec.len()) =~= rec);
        assert forall|key: Seq<char>| #[trigger]
            index_after_sets(records).contains_key(key) implies {
                let e = index_after_sets(records)[key];
                let bytes = data.subrange(e.position as int, e.position + e.total_size);
                &&& e.position + e.total_size <= data.len()
                &&& is_decodable_record(bytes)
                &&& record_fields(bytes) == (e.timestamp, key, values_after_sets(records)[key])
            } by {
            if key != k {
                let e = index_after_sets(r)[key];
                assert(data.subrange(e.position as int, e.position + e.total_size) =~= log_bytes(
                    r,
                ).subrange(e.position as int, e.position + e.total_size));
            }
        }
        assert(index_after_sets(records).dom() =~= values_after_sets(records).dom());
    } else {
        assert(index_after_sets(records).dom() =~= values_after_sets(records).dom());
    }
}

/// Reopening a database file rebuilds the index that was kept while it was
/// written: scanning the records written one after the other gives, for each
/// key, the place and size of its last record.
pub proof fn lemma_reopen_rebuilds_index(records: Seq<(u32, Seq<char>, Seq<char>)>)
    requires
        records_fit(records),
    ensures
        scan_from(log_bytes(records), 0, Map::empty()) == ScanOutcome::Loaded(index_after_sets(records)),
{
    assert(records.take(0) =~= Seq::<(u32, Seq<char>, Seq<char>)>::empty());
    lemma_scan_suffix(records, 0);
}

} // verus!
