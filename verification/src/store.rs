//! The storage engine: the log, its index, and the operations on both.

use vstd::prelude::*;
use crate::command::{Command, CommandView};
use crate::error::{KvStoreError, Result};
use crate::compaction::{
    commands, compactable, compacted_upto, compaction_of, is_compaction, kept_bindings,
    keys_cover, lemma_commands_push, lemma_compaction_done, lemma_kept_bindings_step,
    lemma_log_bytes_push, log_bytes,
    lemma_compaction_fails, lemma_compaction_keeps, lemma_compaction_skips,
    lemma_compaction_start, lemma_key_count_bound, needs_compaction,
};
use crate::log_file::{
    first_mentions, index_of, key_count, last_for, lemma_append_record, lemma_first_mentions_push, lemma_key_count_push, lemma_last_for_is_member,
    lemma_last_for_after, lemma_records_are_written, lemma_records_from_step,
    lemma_records_len_bound, lookup, parse_log, records_from, LogFile, LogRecord, Offset,
};
use crate::json::{lemma_skip_space_bounds, skip_space};
use crate::record::{lemma_record_at_bounds, record_bytes, writable};

verus! {

/// One entry of the index: a key, and the offset of the latest record that
/// mentions it.
pub struct IndexEntry {
    key: String,
    offset: Offset,
}

/// The keys of the entries, in their order.
pub closed spec fn index_keys(index: Seq<IndexEntry>) -> Seq<Seq<char>> {
    Seq::new(index.len(), |i: int| index[i].key@)
}

/// The entries as a map: each key that they name, with the offset that they
/// have for it.
pub closed spec fn index_map(index: Seq<IndexEntry>) -> Map<Seq<char>, int> {
    Map::new(
        |key: Seq<char>| exists|i: int| 0 <= i < index.len() && #[trigger] index[i].key@ == key,
        |key: Seq<char>|
            index[choose|i: int| 0 <= i < index.len() && #[trigger] index[i].key@ == key].offset as int,
    )
}

/// The entries name each key that the records mention once, in the order in
/// which the keys are first mentioned, with the offset of the latest record
/// that mentions it.
#[verifier::opaque]
pub closed spec fn index_agrees(index: Seq<IndexEntry>, recs: Seq<LogRecord>) -> bool {
    &&& index.len() == key_count(recs)
    &&& index_keys(index) == first_mentions(recs)
    &&& forall|i: int, j: int| 0 <= i < j < index.len() ==> index[i].key@ != index[j].key@
    &&& forall|i: int|
        0 <= i < index.len() ==> {
            &&& last_for(recs, #[trigger] index[i].key@) is Some
            &&& last_for(recs, index[i].key@).unwrap().offset == index[i].offset
        }
    &&& forall|key: Seq<char>| #[trigger]
        last_for(recs, key) is Some ==> exists|i: int|
            0 <= i < index.len() && #[trigger] index[i].key@ == key
}

/// Entries that agree with the records are as many as the keys mentioned.
proof fn lemma_index_len(index: Seq<IndexEntry>, recs: Seq<LogRecord>)
    requires
        index_agrees(index, recs),
    ensures
        index.len() == key_count(recs),
{
    reveal(index_agrees);
}

/// Entries that agree with the records are, as a map, the index of the
/// records, and their keys are the keys in the order of their first mention.
proof fn lemma_index_map(index: Seq<IndexEntry>, recs: Seq<LogRecord>)
    requires
        index_agrees(index, recs),
    ensures
        index_map(index) == index_of(recs),
        index_keys(index) == first_mentions(recs),
{
    reveal(index_agrees);
    assert forall|key: Seq<char>| index_map(index).contains_key(key) implies index_of(
        recs,
    ).contains_key(key) by {
        let i = choose|i: int| 0 <= i < index.len() && #[trigger] index[i].key@ == key;
        assert(last_for(recs, index[i].key@) is Some);
    }
    assert forall|key: Seq<char>| index_of(recs).contains_key(key) implies index_map(
        index,
    ).contains_key(key) && index_map(index)[key] == index_of(recs)[key] by {
        assert(last_for(recs, key) is Some);
        let j = choose|j: int| 0 <= j < index.len() && #[trigger] index[j].key@ == key;
        let i = choose|i: int| 0 <= i < index.len() && #[trigger] index[i].key@ == key;
        assert(last_for(recs, index[i].key@).unwrap().offset == index[i].offset);
    }
    assert(index_map(index) =~= index_of(recs));
}

/// The place of `key` among the entries.
fn find_entry(index: &Vec<IndexEntry>, key: &String) -> (found: Option<usize>)
    ensures
        match found {
            Some(i) => i < index@.len() && index@[i as int].key@ == key@,
            None => forall|i: int| 0 <= i < index@.len() ==> index@[i].key@ != key@,
        },
{
    let mut i: usize = 0;
    while i < index.len()
        invariant
            i <= index@.len(),
            forall|j: int| 0 <= j < i ==> index@[j].key@ != key@,
        decreases index@.len() - i,
    {
        if index[i].key == *key {
            return Some(i);
        }
        i = i + 1;
    }
    None
}

/// Points the entry of `key` at `offset`, adding the entry if there is none.
fn insert_entry(
    index: &mut Vec<IndexEntry>,
    key: String,
    offset: Offset,
    Ghost(recs): Ghost<Seq<LogRecord>>,
    Ghost(cmd): Ghost<CommandView>,
)
    requires
        index_agrees(old(index)@, recs),
        cmd.key() == key@,
    ensures
        index_agrees(final(index)@, recs.push(LogRecord { offset: offset as int, cmd })),
{
    let ghost added = LogRecord { offset: offset as int, cmd };
    let ghost more = recs.push(added);
    let ghost before = index@;
    proof {
        reveal(index_agrees);
        lemma_key_count_push(recs, added);
        lemma_first_mentions_push(recs, added);
        lemma_last_for_after(recs, added);
    }
    match find_entry(index, &key) {
        Some(i) => {
            index.set(i, IndexEntry { key, offset });
            proof {
                let after = index@;
                assert(last_for(recs, before[i as int].key@) is Some);
                assert(index_keys(after) =~= index_keys(before));
                assert forall|k: Seq<char>| #[trigger] last_for(more, k) is Some implies exists|
                    j: int,
                |
                    0 <= j < after.len() && #[trigger] after[j].key@ == k by {
                    if k == key@ {
                        assert(after[i as int].key@ == k);
                    } else {
                        assert(last_for(recs, k) is Some);
                        let j = choose|j: int| 0 <= j < before.len() && #[trigger] before[j].key@ == k;
                        assert(after[j].key@ == k);
                    }
                }
                assert forall|j: int| 0 <= j < after.len() implies {
                    &&& last_for(more, #[trigger] after[j].key@) is Some
                    &&& last_for(more, after[j].key@).unwrap().offset == after[j].offset
                } by {
                    if j != i {
                        assert(after[j] == before[j]);
                        assert(last_for(recs, before[j].key@) is Some);
                    }
                }
            }
        },
        None => {
            index.push(IndexEntry { key, offset });
            proof {
                let after = index@;
                assert(index_keys(after) =~= index_keys(before).push(cmd.key()));
                if last_for(recs, key@) is Some {
                    let j = choose|j: int| 0 <= j < before.len() && #[trigger] before[j].key@ == key@;
                    assert(false);
                }
                assert forall|k: Seq<char>| #[trigger] last_for(more, k) is Some implies exists|
                    j: int,
                |
                    0 <= j < after.len() && #[trigger] after[j].key@ == k by {
                    if k == key@ {
                        assert(after[before.len() as int].key@ == k);
                    } else {
                        assert(last_for(recs, k) is Some);
                        let j = choose|j: int| 0 <= j < before.len() && #[trigger] before[j].key@ == k;
                        assert(after[j].key@ == k);
                    }
                }
                assert forall|j: int| 0 <= j < after.len() implies {
                    &&& last_for(more, #[trigger] after[j].key@) is Some
                    &&& last_for(more, after[j].key@).unwrap().offset == after[j].offset
                } by {
                    if j < before.len() {
                        assert(after[j] == before[j]);
                        assert(last_for(recs, before[j].key@) is Some);
                    }
                }
            }
        },
    }
}

/// The log together with its index.
pub struct IndexedLogFile {
    log_file: LogFile,
    index: Vec<IndexEntry>,
}

impl View for IndexedLogFile {
    type V = Seq<u8>;

    closed spec fn view(&self) -> Seq<u8> {
        self.log_file@
    }
}

impl IndexedLogFile {
    /// The records of the log.
    pub open spec fn records(&self) -> Seq<LogRecord> {
        parse_log(self@).unwrap()
    }

    /// The number of records that were counted.
    pub closed spec fn spec_num_writes(&self) -> nat {
        self.log_file.spec_num_writes()
    }

    /// The number of entries of the index.
    pub closed spec fn spec_index_len(&self) -> nat {
        self.index@.len()
    }

    /// The index, as a map from each key that it names to the offset that
    /// it has for the key.
    pub closed spec fn spec_index(&self) -> Map<Seq<char>, int> {
        index_map(self.index@)
    }

    /// The index names each key once, in the order in which the keys are
    /// first mentioned, with the offset of its latest record.
    pub closed spec fn index_wf(&self) -> bool {
        index_agrees(self.index@, self.records())
    }

    /// The log is a run of records, every one of them counted, and the index
    /// agrees with them.
    pub open spec fn wf(&self) -> bool {
        &&& parse_log(self@) is Some
        &&& self.spec_num_writes() == self.records().len()
        &&& self.spec_index_len() == key_count(self.records())
        &&& self.spec_index() == index_of(self.records())
        &&& self.index_wf()
    }

    /// Whether some record mentions `key`.
    pub open spec fn mentions(&self, key: Seq<char>) -> bool {
        last_for(self.records(), key) is Some
    }

    /// Opens the log with the given bytes and builds its index.
    ///
    /// Succeeds exactly when the bytes are a run of records; fails with
    /// `DeserializationFailure` otherwise.
    pub fn new(data: Vec<u8>) -> (opened: Result<IndexedLogFile>)
        ensures
            parse_log(data@) is Some ==> opened is Ok && opened.unwrap()@ == data@
                && opened.unwrap().wf(),
            parse_log(data@) is None ==> opened == Err::<IndexedLogFile, KvStoreError>(
                KvStoreError::DeserializationFailure,
            ),
    {
        let log_file = LogFile::new(data);
        let index: Vec<IndexEntry> = Vec::new();
        let mut indexed_log_file = IndexedLogFile { log_file, index };
        match indexed_log_file.build_index() {
            Ok(()) => Ok(indexed_log_file),
            Err(e) => Err(e),
        }
    }

    /// The bytes of the log.
    pub fn bytes(&self) -> (bytes: &Vec<u8>)
        ensures
            bytes@ == self@,
    {
        self.log_file.bytes()
    }

    /// The number of records in the log, live and dead.
    pub fn num_writes(&self) -> (count: usize)
        ensures
            count == self.spec_num_writes(),
    {
        self.log_file.num_writes()
    }

    /// The number of keys in the index.
    pub fn index_len(&self) -> (count: usize)
        ensures
            count == self.spec_index_len(),
    {
        self.index.len()
    }

    /// Reads the latest record that mentions `key`, at the offset that the
    /// index has for the key.
    ///
    /// A key that no record mentions gives `KeyNotFound`.
    pub fn read(&self, key: &String) -> (read: Result<Command>)
        requires
            self.wf(),
        ensures
            self.mentions(key@) ==> read is Ok && read.unwrap()@ == last_for(
                self.records(),
                key@,
            ).unwrap().cmd,
            !self.mentions(key@) ==> read == Err::<Command, KvStoreError>(
                KvStoreError::KeyNotFound,
            ),
    {
        proof {
            reveal(index_agrees);
        }
        match find_entry(&self.index, key) {
            Some(i) => {
                proof {
                    lemma_last_for_is_member(self.records(), key@);
                    lemma_records_are_written(self@, 0);
                }
                self.log_file.read_cmd(self.index[i].offset)
            },
            None => {
                proof {
                    if last_for(self.records(), key@) is Some {
                        let j = choose|j: int|
                            0 <= j < self.index@.len() && #[trigger] self.index@[j].key@ == key@;
                        assert(false);
                    }
                }
                Err(KvStoreError::KeyNotFound)
            },
        }
    }

    /// Appends a record and points the index at it.
    ///
    /// A record that cannot be written leaves everything as it was and gives
    /// `SerializationFailure`.
    pub fn write(&mut self, cmd: Command) -> (written: Result<()>)
        requires
            old(self).wf(),
        ensures
            final(self).wf(),
            writable(cmd@) ==> written is Ok && final(self)@ == old(self)@ + record_bytes(cmd@)
                && final(self).records() == old(self).records().push(
                LogRecord { offset: old(self)@.len() as int, cmd: cmd@ },
            ),
            !writable(cmd@) ==> written == Err::<(), KvStoreError>(
                KvStoreError::SerializationFailure,
            ) && final(self)@ == old(self)@,
    {
        let key = cmd.key();
        let ghost bytes = self@;
        let ghost recs = self.records();
        proof {
            lemma_records_len_bound(bytes, 0);
        }
        let offset = match self.log_file.write_cmd(&cmd) {
            Ok(offset) => offset,
            Err(e) => { return Err(e); },
        };
        proof {
            lemma_append_record(bytes, cmd@, 0);
        }
        insert_entry(&mut self.index, key, offset, Ghost(recs), Ghost(cmd@));
        proof {
            lemma_index_len(self.index@, self.records());
            lemma_index_map(self.index@, self.records());
        }
        Ok(())
    }

    /// Builds the index anew by one scan of the log, and counts the records.
    ///
    /// Succeeds exactly when the log is a run of records; fails with
    /// `DeserializationFailure` otherwise. The log itself is never changed.
    pub fn build_index(&mut self) -> (built: Result<()>)
        ensures
            final(self)@ == old(self)@,
            parse_log(old(self)@) is Some ==> built is Ok && final(self).wf(),
            parse_log(old(self)@) is None ==> built == Err::<(), KvStoreError>(
                KvStoreError::DeserializationFailure,
            ),
    {
        self.index = Vec::new();
        let mut log_size: usize = 0;
        let mut offset: Offset = 0;
        let ghost mut seen: Seq<LogRecord> = Seq::empty();
        let total: usize = self.log_file.position();
        proof {
            reveal(index_agrees);
            assert(index_keys(self.index@) =~= first_mentions(seen));
        }
        loop
            invariant
                self@ == old(self)@,
                total == self@.len(),
                offset <= total,
                log_size == seen.len(),
                log_size <= offset,
                index_agrees(self.index@, seen),
                parse_log(self@) == match records_from(self@, offset as int) {
                    Some(rest) => Some(seen + rest),
                    None => None,
                },
            ensures
                parse_log(self@) == Some(seen),
            decreases total - offset,
        {
            let ghost bytes = self@;
            proof {
                lemma_skip_space_bounds(bytes, offset as int);
                lemma_record_at_bounds(bytes, skip_space(bytes, offset as int));
                lemma_records_from_step(bytes, offset as int);
            }
            match self.log_file.next_cmd(offset) {
                Err(e) => {
                    return Err(e);
                },
                Ok(None) => {
                    assert(seen + Seq::<LogRecord>::empty() =~= seen);
                    break ;
                },
                Ok(Some((cmd, start, end))) => {
                    let ghost rec = LogRecord { offset: start as int, cmd: cmd@ };
                    proof {
                        match records_from(bytes, end as int) {
                            Some(rest) => {
                                assert(seen + (seq![rec] + rest) =~= seen.push(rec) + rest);
                            },
                            None => {},
                        }
                    }
                    insert_entry(&mut self.index, cmd.key(), start, Ghost(seen), Ghost(cmd@));
                    proof {
                        seen = seen.push(rec);
                    }
                    log_size = log_size + 1;
                    offset = end;
                },
            }
        }
        self.log_file.set_num_writes(log_size);
        proof {
            lemma_index_len(self.index@, seen);
            lemma_index_map(self.index@, seen);
        }
        Ok(())
    }
}

/// What is to be done to the database file once an operation on the store
/// has ended, for the file to hold the log again.
#[derive(Debug, Clone, Copy, PartialEq, Eq, Structural)]
pub enum FileStep {
    /// Nothing: the log is as it was.
    Unchanged,
    /// Append what the log holds behind its earlier end.
    Append,
    /// Replace the file by the whole log.
    Replace,
}

/// The key-value store.
pub struct KvStore {
    indexed_log_file: IndexedLogFile,
}

impl View for KvStore {
    type V = Seq<u8>;

    closed spec fn view(&self) -> Seq<u8> {
        self.indexed_log_file@
    }
}

impl KvStore {
    /// The store is consistent: its log is a run of records with which its
    /// index and its count of records agree.
    pub closed spec fn wf(&self) -> bool {
        self.indexed_log_file.wf()
    }

    /// The records of the log.
    pub open spec fn records(&self) -> Seq<LogRecord> {
        parse_log(self@).unwrap()
    }

    /// The value that the store binds to `key`.
    pub open spec fn value_of(&self, key: Seq<char>) -> Option<Seq<char>> {
        lookup(self.records(), key)
    }

    /// Whether some record of the log mentions `key`.
    pub open spec fn mentions(&self, key: Seq<char>) -> bool {
        last_for(self.records(), key) is Some
    }

    /// The number of records that were counted.
    pub closed spec fn spec_num_writes(&self) -> nat {
        self.indexed_log_file.spec_num_writes()
    }

    /// The number of entries of the index.
    pub closed spec fn spec_index_len(&self) -> nat {
        self.indexed_log_file.spec_index_len()
    }

    /// The index, as a map from each key that it names to the offset that
    /// it has for the key.
    pub closed spec fn spec_index(&self) -> Map<Seq<char>, int> {
        self.indexed_log_file.spec_index()
    }

    /// The step that brings the database file in line with the store, when
    /// the log had `len_before` bytes and `writes_before` records before the
    /// operation: none if both are as they were; an append if there is one
    /// record more and the log is longer; a replacement otherwise.
    pub open spec fn spec_file_step(&self, len_before: nat, writes_before: nat) -> FileStep {
        if self@.len() == len_before && self.spec_num_writes() == writes_before {
            FileStep::Unchanged
        } else if self.spec_num_writes() == writes_before + 1 && self@.len() > len_before {
            FileStep::Append
        } else {
            FileStep::Replace
        }
    }

    /// What `open` gives for the bytes of a log: a consistent store over
    /// those bytes where they are a run of records, and
    /// `DeserializationFailure` where they are not.
    pub open spec fn open_gives(data: Seq<u8>, opened: Result<KvStore>) -> bool {
        &&& parse_log(data) is Some ==> opened is Ok && opened.unwrap()@ == data
            && opened.unwrap().wf()
        &&& parse_log(data) is None ==> opened == Err::<KvStore, KvStoreError>(
            KvStoreError::DeserializationFailure,
        )
    }

    /// What `get` gives for `key`: always the value that the store binds to
    /// the key, never an error.
    pub open spec fn get_gives(&self, key: Seq<char>, got: Result<Option<String>>) -> bool {
        &&& got is Ok
        &&& got.unwrap().is_some() == self.value_of(key).is_some()
        &&& got.unwrap() matches Some(v) ==> self.value_of(key) == Some(v@)
    }

    /// What `set` makes of the store, and what it reports.
    ///
    /// A binding that cannot be written is refused with
    /// `SerializationFailure`, and the log stays as it was. Otherwise the
    /// binding is appended. If the log then needs no compaction, that is
    /// all. If it does and can be compacted, the log becomes the compaction
    /// of what it was with the binding: the bytes of one binding for each
    /// key that has a value, in the order in which the keys were first
    /// mentioned, with as many records as keys. If it
    /// cannot be compacted, the binding stays appended and
    /// `SerializationFailure` is reported. After a success the key has the
    /// new value and every other key the value it had.
    pub open spec fn set_gives(
        &self,
        k: Seq<char>,
        v: Seq<char>,
        after: KvStore,
        done: Result<()>,
    ) -> bool {
        let cmd = CommandView::Put { k, v };
        let appended = self.records().push(LogRecord { offset: self@.len() as int, cmd });
        &&& !writable(cmd) ==> done == Err::<(), KvStoreError>(KvStoreError::SerializationFailure)
            && after@ == self@
        &&& writable(cmd) ==> if !needs_compaction(appended) {
            done is Ok && after@ == self@ + record_bytes(cmd)
        } else if compactable(appended) {
            done is Ok && after@ == log_bytes(compaction_of(appended)) && commands(
                after.records(),
            ) == compaction_of(appended) && is_compaction(after.records(), appended)
                && after.spec_num_writes() == after.spec_index_len()
        } else {
            done == Err::<(), KvStoreError>(KvStoreError::SerializationFailure) && after@ == self@
                + record_bytes(cmd)
        }
        &&& done is Ok ==> after.value_of(k) == Some(v)
        &&& done is Ok ==> forall|key: Seq<char>|
            key != k ==> #[trigger] after.value_of(key) == self.value_of(key)
    }

    /// What `remove` makes of the store, and what it reports.
    ///
    /// A key that no record mentions gives `KeyNotFound`; a removal that
    /// cannot be written gives `SerializationFailure`; either way the log
    /// stays as it was. Otherwise the removal is appended: the key then has
    /// no value, and every other key the value it had.
    pub open spec fn remove_gives(&self, k: Seq<char>, after: KvStore, done: Result<()>) -> bool {
        let cmd = CommandView::Remove { k };
        &&& !self.mentions(k) ==> done == Err::<(), KvStoreError>(KvStoreError::KeyNotFound)
            && after@ == self@
        &&& self.mentions(k) && !writable(cmd) ==> done == Err::<(), KvStoreError>(
            KvStoreError::SerializationFailure,
        ) && after@ == self@
        &&& self.mentions(k) && writable(cmd) ==> done is Ok && after@ == self@ + record_bytes(cmd)
        &&& done is Ok ==> after.value_of(k) is None
        &&& done is Ok ==> forall|key: Seq<char>|
            key != k ==> #[trigger] after.value_of(key) == self.value_of(key)
    }

    /// In a consistent store the log is a run of records, every record is
    /// counted, and the index has one entry for each key that is mentioned,
    /// with the offset of the latest record that mentions it.
    pub proof fn lemma_wf(&self)
        requires
            self.wf(),
        ensures
            parse_log(self@) is Some,
            self.spec_num_writes() == self.records().len(),
            self.spec_index_len() == key_count(self.records()),
            self.spec_index() == index_of(self.records()),
    {
    }

    /// Opens the store over the bytes of its log.
    ///
    /// Succeeds exactly when the bytes are a run of records; fails with
    /// `DeserializationFailure` otherwise.
    pub fn open(data: Vec<u8>) -> (opened: Result<KvStore>)
        ensures
            KvStore::open_gives(data@, opened),
    {
        match IndexedLogFile::new(data) {
            Ok(indexed_log_file) => Ok(KvStore { indexed_log_file }),
            Err(e) => Err(e),
        }
    }

    /// The bytes of the log, as they are to stand in the database file.
    pub fn log(&self) -> (bytes: &Vec<u8>)
        ensures
            bytes@ == self@,
    {
        self.indexed_log_file.bytes()
    }

    /// The number of records in the log, live and dead.
    pub fn num_writes(&self) -> (count: usize)
        ensures
            count == self.spec_num_writes(),
    {
        self.indexed_log_file.num_writes()
    }

    /// The number of keys in the index.
    pub fn index_len(&self) -> (count: usize)
        ensures
            count == self.spec_index_len(),
    {
        self.indexed_log_file.index_len()
    }

    /// Decides what is to be done to the database file after an operation,
    /// from the length of the log and the number of its records before the
    /// operation.
    pub fn file_step(&self, len_before: usize, writes_before: usize) -> (step: FileStep)
        ensures
            step == self.spec_file_step(len_before as nat, writes_before as nat),
    {
        let len = self.log().len();
        let writes = self.num_writes();
        if len == len_before && writes == writes_before {
            FileStep::Unchanged
        } else if len > len_before && writes > 0 && writes - 1 == writes_before {
            FileStep::Append
        } else {
            FileStep::Replace
        }
    }

    /// Returns the value of the given key: that of the latest record that
    /// mentions it, `None` where that record is a removal or there is none.
    pub fn get(&self, k: String) -> (got: Result<Option<String>>)
        requires
            self.wf(),
        ensures
            self.get_gives(k@, got),
    {
        match self.indexed_log_file.read(&k) {
            Ok(cmd) => Ok(cmd.value()),
            Err(KvStoreError::KeyNotFound) => Ok(None),
            Err(e) => Err(e),
        }
    }

    /// Whether the log holds more than twice as many records as keys.
    pub fn should_compact(&self) -> (should: bool)
        requires
            self.wf(),
        ensures
            should == needs_compaction(self.records()),
    {
        let index_size = self.indexed_log_file.index_len();
        let num_writes = self.indexed_log_file.num_writes();
        proof {
            lemma_key_count_bound(self.records());
        }
        num_writes - index_size > index_size
    }

    /// Sets the value of the given key.
    ///
    /// Appends a binding to the log; where the log then holds more than twice
    /// as many records as keys, compacts it. Fails with
    /// `SerializationFailure`, and leaves the store as it was, where the
    /// binding cannot be written; fails with the binding appended where the
    /// compaction fails.
    pub fn set(&mut self, k: String, v: String) -> (done: Result<()>)
        requires
            old(self).wf(),
        ensures
            final(self).wf(),
            old(self).set_gives(k@, v@, *final(self), done),
    {
        let ghost cmd = CommandView::Put { k: k@, v: v@ };
        let ghost added = LogRecord { offset: self@.len() as int, cmd };
        proof {
            lemma_last_for_after(old(self).records(), added);
        }
        match self.indexed_log_file.write(Command::Put { k, v }) {
            Ok(()) => {},
            Err(e) => { return Err(e); },
        }
        if self.should_compact() {
            return self.compact_log();
        }
        Ok(())
    }

    /// Removes the given key.
    ///
    /// A key that no record mentions gives `KeyNotFound`, and the log is not
    /// touched. Otherwise a removal is appended.
    pub fn remove(&mut self, k: String) -> (done: Result<()>)
        requires
            old(self).wf(),
        ensures
            final(self).wf(),
            old(self).remove_gives(k@, *final(self), done),
    {
        let ghost cmd = CommandView::Remove { k: k@ };
        let ghost added = LogRecord { offset: self@.len() as int, cmd };
        proof {
            lemma_last_for_after(old(self).records(), added);
        }
        match self.indexed_log_file.read(&k) {
            Ok(_) => {},
            Err(e) => { return Err(e); },
        }
        self.indexed_log_file.write(Command::Remove { k })
    }

    /// Rewrites the log so that it holds one binding for each key that has a
    /// value, in the order in which the keys were first mentioned, and
    /// nothing else.
    ///
    /// Fails with `SerializationFailure`, and leaves the store as it was,
    /// where a binding that is to be kept cannot be written again.
    pub fn compact_log(&mut self) -> (done: Result<()>)
        requires
            old(self).wf(),
        ensures
            final(self).wf(),
            compactable(old(self).records()) ==> {
                &&& done is Ok
                &&& final(self)@ == log_bytes(compaction_of(old(self).records()))
                &&& commands(final(self).records()) == compaction_of(old(self).records())
                &&& is_compaction(final(self).records(), old(self).records())
                &&& final(self).spec_num_writes() == final(self).spec_index_len()
            },
            !compactable(old(self).records()) ==> done == Err::<(), KvStoreError>(
                KvStoreError::SerializationFailure,
            ) && final(self)@ == old(self)@,
    {
        let ghost live = self.records();
        let ghost keys = index_keys(self.indexed_log_file.index@);
        let mut fresh = match IndexedLogFile::new(Vec::new()) {
            Ok(fresh) => fresh,
            Err(e) => {
                proof {
                    lemma_records_from_step(Seq::<u8>::empty(), 0);
                }
                return Err(e);
            },
        };
        proof {
            lemma_records_from_step(Seq::<u8>::empty(), 0);
            assert(fresh@ =~= Seq::<u8>::empty());
            assert(fresh.records() =~= Seq::<LogRecord>::empty());
            self.indexed_log_file.lemma_index_keys();
            lemma_compaction_start(live, keys);
            assert(commands(fresh.records()) =~= kept_bindings(keys.take(0), live));
        }
        let count = self.indexed_log_file.index.len();
        let mut i: usize = 0;
        while i < count
            invariant
                self.wf(),
                self@ == old(self)@,
                live == self.records(),
                keys == index_keys(self.indexed_log_file.index@),
                keys_cover(keys, live),
                count == self.indexed_log_file.index@.len(),
                count == keys.len(),
                i <= count,
                fresh.wf(),
                compacted_upto(fresh.records(), live, keys, i as int),
                commands(fresh.records()) == kept_bindings(keys.take(i as int), live),
                fresh@ == log_bytes(commands(fresh.records())),
            decreases count - i,
        {
            let ghost before = fresh.records();
            assert(keys[i as int] == self.indexed_log_file.index@[i as int].key@);
            proof {
                lemma_kept_bindings_step(keys, live, i as int);
                lemma_last_for_is_member(live, keys[i as int]);
            }
            let cmd = match self.indexed_log_file.read(&self.indexed_log_file.index[i].key) {
                Ok(cmd) => cmd,
                Err(e) => { return Err(e); },
            };
            match cmd {
                Command::Put { .. } => {
                    let ghost added = LogRecord { offset: fresh@.len() as int, cmd: cmd@ };
                    match fresh.write(cmd) {
                        Ok(()) => {},
                        Err(e) => {
                            proof {
                                lemma_compaction_fails(live, keys[i as int]);
                            }
                            return Err(e);
                        },
                    }
                    proof {
                        lemma_compaction_keeps(before, live, keys, i as int, added);
                        lemma_commands_push(before, added);
                        lemma_log_bytes_push(commands(before), added.cmd);
                    }
                },
                Command::Remove { .. } => {
                    proof {
                        lemma_compaction_skips(before, live, keys, i as int);
                    }
                },
            }
            i = i + 1;
        }
        proof {
            lemma_compaction_done(fresh.records(), live, keys);
            lemma_index_map(self.indexed_log_file.index@, live);
            assert(keys.take(count as int) =~= keys);
        }
        self.indexed_log_file = fresh;
        Ok(())
    }
}

impl crate::KvsEngine for KvStore {
    open spec fn valid(&self) -> bool {
        self.wf()
    }

    open spec fn may_get(&self, key: Seq<char>, got: Result<Option<String>>) -> bool {
        self.get_gives(key, got)
    }

    open spec fn may_set(
        &self,
        key: Seq<char>,
        value: Seq<char>,
        after: KvStore,
        done: Result<()>,
    ) -> bool {
        self.set_gives(key, value, after, done)
    }

    open spec fn may_remove(&self, key: Seq<char>, after: KvStore, done: Result<()>) -> bool {
        self.remove_gives(key, after, done)
    }

    fn set(&mut self, key: String, value: String) -> (done: Result<()>) {
        KvStore::set(self, key, value)
    }

    fn get(&self, key: String) -> (got: Result<Option<String>>) {
        KvStore::get(self, key)
    }

    fn remove(&mut self, key: String) -> (done: Result<()>) {
        KvStore::remove(self, key)
    }
}

impl IndexedLogFile {
    /// The keys of the index are distinct, and they are the keys that the
    /// records mention.
    proof fn lemma_index_keys(&self)
        requires
            self.wf(),
        ensures
            keys_cover(index_keys(self.index@), self.records()),
            index_keys(self.index@).len() == self.index@.len(),
    {
        reveal(index_agrees);
        let keys = index_keys(self.index@);
        let recs = self.records();
        assert forall|i: int| 0 <= i < keys.len() implies last_for(recs, #[trigger] keys[i])
            is Some by {
            assert(last_for(recs, self.index@[i].key@) is Some);
        }
        assert forall|key: Seq<char>| #[trigger] last_for(recs, key) is Some implies exists|j: int|
            0 <= j < keys.len() && keys[j] == key by {
            let j = choose|j: int| 0 <= j < self.index@.len() && #[trigger] self.index@[j].key@ == key;
            assert(keys[j] == key);
        }
    }
}

/// A log that is as it was asks for no step, and a log that is the earlier
/// log with one record behind it asks for an append.
pub proof fn lemma_file_step_of_log(before: KvStore, after: KvStore, cmd: CommandView)
    requires
        before.wf(),
        after.wf(),
    ensures
        after@ == before@ ==> after.spec_file_step(before@.len(), before.spec_num_writes())
            == FileStep::Unchanged,
        writable(cmd) && after@ == before@ + record_bytes(cmd) ==> after@ != before@
            && after.spec_file_step(before@.len(), before.spec_num_writes()) == FileStep::Append,
{
    before.lemma_wf();
    after.lemma_wf();
    if writable(cmd) && after@ == before@ + record_bytes(cmd) {
        crate::record::lemma_record_reads_back(cmd);
        lemma_record_at_bounds(record_bytes(cmd), 0);
        lemma_append_record(before@, cmd, 0);
        assert(after@.len() == before@.len() + record_bytes(cmd).len());
    }
}

/// A compaction of a log that needed one asks for a replacement of the
/// file: it holds fewer records than the log held before its last record.
proof fn lemma_file_step_of_compaction(before: KvStore, after: KvStore, cmd: CommandView)
    requires
        before.wf(),
        after.wf(),
        needs_compaction(
            before.records().push(LogRecord { offset: before@.len() as int, cmd }),
        ),
        commands(after.records()) == compaction_of(
            before.records().push(LogRecord { offset: before@.len() as int, cmd }),
        ),
    ensures
        after.spec_file_step(before@.len(), before.spec_num_writes()) == FileStep::Replace,
{
    before.lemma_wf();
    after.lemma_wf();
    let added = LogRecord { offset: before@.len() as int, cmd };
    let appended = before.records().push(added);
    crate::compaction::lemma_compaction_len(appended);
    lemma_key_count_push(before.records(), added);
    assert(commands(after.records()).len() == after.records().len());
    if before.records().len() == 0 {
        assert(last_for(before.records(), cmd.key()) is None);
        assert(key_count(before.records()) == 0);
    }
}

/// The step after a `set`: the file is left alone exactly where the log is
/// as it was, and appended to exactly where the log is the earlier log with
/// the new binding behind it. A compaction asks for a replacement.
pub proof fn lemma_file_step_after_set(
    before: KvStore,
    k: Seq<char>,
    v: Seq<char>,
    after: KvStore,
    done: Result<()>,
)
    requires
        before.wf(),
        after.wf(),
        before.set_gives(k, v, after, done),
    ensures
        after.spec_file_step(before@.len(), before.spec_num_writes()) == FileStep::Unchanged
            <==> after@ == before@,
        after.spec_file_step(before@.len(), before.spec_num_writes()) == FileStep::Append <==> (
        writable(CommandView::Put { k, v }) && after@ == before@ + record_bytes(
            CommandView::Put { k, v },
        )),
{
    let cmd = CommandView::Put { k, v };
    let appended = before.records().push(LogRecord { offset: before@.len() as int, cmd });
    lemma_file_step_of_log(before, after, cmd);
    if writable(cmd) && needs_compaction(appended) && compactable(appended) {
        lemma_file_step_of_compaction(before, after, cmd);
    }
}

/// The step after a `remove`: the file is left alone exactly where the log
/// is as it was, and appended to exactly where the log is the earlier log
/// with the removal behind it. A `remove` never asks for a replacement.
pub proof fn lemma_file_step_after_remove(
    before: KvStore,
    k: Seq<char>,
    after: KvStore,
    done: Result<()>,
)
    requires
        before.wf(),
        after.wf(),
        before.remove_gives(k, after, done),
    ensures
        after.spec_file_step(before@.len(), before.spec_num_writes()) == FileStep::Unchanged
            <==> after@ == before@,
        after.spec_file_step(before@.len(), before.spec_num_writes()) == FileStep::Append <==> (
        writable(CommandView::Remove { k }) && after@ == before@ + record_bytes(
            CommandView::Remove { k },
        )),
        after.spec_file_step(before@.len(), before.spec_num_writes()) != FileStep::Replace,
{
    lemma_file_step_of_log(before, after, CommandView::Remove { k });
}

/// Read your writes: after a `set` that succeeded, a `get` of the same key
/// gives the value that was set.
pub proof fn lemma_read_your_writes(
    before: KvStore,
    k: Seq<char>,
    v: Seq<char>,
    after: KvStore,
    done: Result<()>,
    got: Result<Option<String>>,
)
    requires
        before.set_gives(k, v, after, done),
        done is Ok,
        after.get_gives(k, got),
    ensures
        got matches Ok(Some(s)) && s@ == v,
{
}

/// A `set` or a `remove` of one key that succeeded changes what a `get` of
/// no other key gives.
pub proof fn lemma_other_keys_keep_their_values(
    before: KvStore,
    k: Seq<char>,
    v: Seq<char>,
    after: KvStore,
    done: Result<()>,
    other: Seq<char>,
)
    requires
        before.set_gives(k, v, after, done) || before.remove_gives(k, after, done),
        done is Ok,
        other != k,
    ensures
        after.value_of(other) == before.value_of(other),
{
}

/// Tombstone visibility: after a `remove` that succeeded, a `get` of the
/// same key gives no value.
pub proof fn lemma_removed_key_is_gone(
    before: KvStore,
    k: Seq<char>,
    after: KvStore,
    done: Result<()>,
    got: Result<Option<String>>,
)
    requires
        before.remove_gives(k, after, done),
        done is Ok,
        after.get_gives(k, got),
    ensures
        got == Ok::<Option<String>, KvStoreError>(None),
{
}

/// Durability: a store can always be opened again over the log that it
/// left, and the store that is opened then binds every key to the value it
/// had, counts the same records and indexes the same keys.
pub proof fn lemma_reopening_loses_nothing(before: KvStore, data: Seq<u8>, opened: Result<KvStore>)
    requires
        before.wf(),
        data == before@,
        KvStore::open_gives(data, opened),
    ensures
        opened is Ok,
        forall|key: Seq<char>| opened.unwrap().value_of(key) == before.value_of(key),
        opened.unwrap().spec_num_writes() == before.spec_num_writes(),
        opened.unwrap().spec_index_len() == before.spec_index_len(),
{
    before.lemma_wf();
    lemma_reopened_store_agrees(before, opened.unwrap());
}

/// A store is what its log says. Two consistent stores over the same bytes,
/// such as a store and the one that is opened later over the log it left,
/// bind every key to the same value, count the same records and index the
/// same keys.
pub proof fn lemma_reopened_store_agrees(before: KvStore, after: KvStore)
    requires
        before.wf(),
        after.wf(),
        after@ == before@,
    ensures
        forall|key: Seq<char>| after.value_of(key) == before.value_of(key),
        forall|key: Seq<char>| after.mentions(key) == before.mentions(key),
        after.spec_num_writes() == before.spec_num_writes(),
        after.spec_index_len() == before.spec_index_len(),
{
    before.lemma_wf();
    after.lemma_wf();
}

} // verus!
