//! The log: the bytes of the database file, and the records they hold.

use vstd::prelude::*;
use crate::command::{Command, CommandView};
use crate::error::{KvStoreError, Result};
use crate::json::{
    append_bytes, lemma_skip_space_bounds, lemma_skip_space_extend, lemma_skip_space_window,
    skip_space, skip_spaces,
};
use crate::record::{
    decode_at, encode, lemma_record_at_bounds, lemma_record_at_window, lemma_record_opens,
    lemma_record_reads_back_within, record_at, record_bytes, writable,
};

verus! {

/// A position in the log, counted in bytes from its start.
pub type Offset = usize;

/// A record of the log together with the offset at which it starts.
pub struct LogRecord {
    pub offset: int,
    pub cmd: CommandView,
}

/// The records that the bytes hold from `at` to their end, in the order of
/// the log, each with the offset at which it opens. White space may stand
/// before, between and behind the records. `None` where the bytes from `at`
/// on are not a run of records.
#[verifier::opaque]
pub open spec fn records_from(bytes: Seq<u8>, at: int) -> Option<Seq<LogRecord>>
    decreases bytes.len() - at,
{
    if at < 0 || at > bytes.len() {
        None
    } else if skip_space(bytes, at) >= bytes.len() {
        Some(Seq::empty())
    } else {
        match record_at(bytes, skip_space(bytes, at)) {
            Some((cmd, end)) => if at <= skip_space(bytes, at) < end <= bytes.len() {
                match records_from(bytes, end) {
                    Some(rest) => Some(
                        seq![LogRecord { offset: skip_space(bytes, at), cmd }] + rest,
                    ),
                    None => None,
                }
            } else {
                None
            },
            None => None,
        }
    }
}

/// The records of a whole log.
pub open spec fn parse_log(bytes: Seq<u8>) -> Option<Seq<LogRecord>> {
    records_from(bytes, 0)
}

/// How a run of records is made up: nothing where only white space is
/// left, and elsewhere the record that is written behind the white space,
/// followed by the rest.
pub proof fn lemma_records_from_step(bytes: Seq<u8>, at: int)
    ensures
        records_from(bytes, at) == if at < 0 || at > bytes.len() {
            None
        } else if skip_space(bytes, at) >= bytes.len() {
            Some(Seq::empty())
        } else {
            match record_at(bytes, skip_space(bytes, at)) {
                Some((cmd, end)) => match records_from(bytes, end) {
                    Some(rest) => Some(
                        seq![LogRecord { offset: skip_space(bytes, at), cmd }] + rest,
                    ),
                    None => None,
                },
                None => None,
            }
        },
{
    reveal(records_from);
    lemma_skip_space_bounds(bytes, at);
    lemma_record_at_bounds(bytes, skip_space(bytes, at));
}

/// The latest record that mentions `key`.
pub open spec fn last_for(recs: Seq<LogRecord>, key: Seq<char>) -> Option<LogRecord>
    decreases recs.len(),
{
    if recs.len() == 0 {
        None
    } else if recs.last().cmd.key() == key {
        Some(recs.last())
    } else {
        last_for(recs.drop_last(), key)
    }
}

/// The value that the records bind to `key`: that of the latest record that
/// mentions the key, if that record is a binding.
pub open spec fn lookup(recs: Seq<LogRecord>, key: Seq<char>) -> Option<Seq<char>> {
    match last_for(recs, key) {
        Some(rec) => rec.cmd.value(),
        None => None,
    }
}

/// The number of keys that the records mention.
pub open spec fn key_count(recs: Seq<LogRecord>) -> nat
    decreases recs.len(),
{
    if recs.len() == 0 {
        0
    } else if last_for(recs.drop_last(), recs.last().cmd.key()) is Some {
        key_count(recs.drop_last())
    } else {
        key_count(recs.drop_last()) + 1
    }
}

/// The keys that the records mention, each once, in the order in which they
/// are first mentioned.
pub open spec fn first_mentions(recs: Seq<LogRecord>) -> Seq<Seq<char>>
    decreases recs.len(),
{
    if recs.len() == 0 {
        Seq::empty()
    } else if last_for(recs.drop_last(), recs.last().cmd.key()) is Some {
        first_mentions(recs.drop_last())
    } else {
        first_mentions(recs.drop_last()).push(recs.last().cmd.key())
    }
}

/// What an index of the records holds: for each key that they mention, the
/// offset of the latest record that mentions it.
pub open spec fn index_of(recs: Seq<LogRecord>) -> Map<Seq<char>, int> {
    Map::new(
        |key: Seq<char>| last_for(recs, key) is Some,
        |key: Seq<char>| last_for(recs, key).unwrap().offset,
    )
}

/// No two of the records mention the same key.
pub open spec fn distinct_keys(recs: Seq<LogRecord>) -> bool {
    forall|i: int, j: int|
        0 <= i < j < recs.len() ==> #[trigger] recs[i].cmd.key() != #[trigger] recs[j].cmd.key()
}

/// Every one of the records is a binding.
pub open spec fn all_bindings(recs: Seq<LogRecord>) -> bool {
    forall|i: int| 0 <= i < recs.len() ==> (#[trigger] recs[i]).cmd is Put
}

/// What `last_for` finds after one more record.
pub proof fn lemma_last_for_push(recs: Seq<LogRecord>, rec: LogRecord, key: Seq<char>)
    ensures
        last_for(recs.push(rec), key) == if rec.cmd.key() == key {
            Some(rec)
        } else {
            last_for(recs, key)
        },
{
    assert(recs.push(rec).drop_last() =~= recs);
}

/// What `last_for` finds for every key after one more record: the record,
/// for its own key, and what it found before, for every other.
pub proof fn lemma_last_for_after(recs: Seq<LogRecord>, rec: LogRecord)
    ensures
        forall|key: Seq<char>| #[trigger]
            last_for(recs.push(rec), key) == if rec.cmd.key() == key {
                Some(rec)
            } else {
                last_for(recs, key)
            },
{
    assert forall|key: Seq<char>| #[trigger]
        last_for(recs.push(rec), key) == if rec.cmd.key() == key {
            Some(rec)
        } else {
            last_for(recs, key)
        } by {
        lemma_last_for_push(recs, rec, key);
    }
}

/// How many keys are mentioned after one more record.
pub proof fn lemma_key_count_push(recs: Seq<LogRecord>, rec: LogRecord)
    ensures
        key_count(recs.push(rec)) == if last_for(recs, rec.cmd.key()) is Some {
            key_count(recs)
        } else {
            key_count(recs) + 1
        },
{
    assert(recs.push(rec).drop_last() =~= recs);
}

/// Which keys are mentioned, and in which order, after one more record.
pub proof fn lemma_first_mentions_push(recs: Seq<LogRecord>, rec: LogRecord)
    ensures
        first_mentions(recs.push(rec)) == if last_for(recs, rec.cmd.key()) is Some {
            first_mentions(recs)
        } else {
            first_mentions(recs).push(rec.cmd.key())
        },
        first_mentions(recs).len() == key_count(recs),
    decreases recs.len(),
{
    assert(recs.push(rec).drop_last() =~= recs);
    if recs.len() > 0 {
        lemma_first_mentions_push(recs.drop_last(), recs.last());
        assert(recs.drop_last().push(recs.last()) =~= recs);
    }
}

/// The record that `last_for` finds is one of the records and mentions the
/// key.
pub proof fn lemma_last_for_is_member(recs: Seq<LogRecord>, key: Seq<char>)
    ensures
        last_for(recs, key) matches Some(rec) ==> rec.cmd.key() == key && exists|i: int|
            0 <= i < recs.len() && recs[i] == rec,
    decreases recs.len(),
{
    if recs.len() > 0 {
        if recs.last().cmd.key() == key {
            assert(recs[recs.len() - 1] == recs.last());
        } else {
            lemma_last_for_is_member(recs.drop_last(), key);
            if let Some(rec) = last_for(recs.drop_last(), key) {
                let i = choose|i: int| 0 <= i < recs.drop_last().len() && recs.drop_last()[i] == rec;
                assert(recs[i] == rec);
            }
        }
    }
}

/// Among records with distinct keys, each is the latest for its key, and
/// there are as many keys as records.
pub proof fn lemma_distinct_keys(recs: Seq<LogRecord>)
    requires
        distinct_keys(recs),
    ensures
        key_count(recs) == recs.len(),
        forall|i: int| 0 <= i < recs.len() ==> last_for(recs, (#[trigger] recs[i]).cmd.key())
            == Some(recs[i]),
    decreases recs.len(),
{
    if recs.len() > 0 {
        let front = recs.drop_last();
        assert forall|i: int, j: int| 0 <= i < j < front.len() implies front[i].cmd.key()
            != front[j].cmd.key() by {
            assert(front[i] == recs[i] && front[j] == recs[j]);
        }
        lemma_distinct_keys(front);
        lemma_last_for_is_member(front, recs.last().cmd.key());
        if let Some(rec) = last_for(front, recs.last().cmd.key()) {
            let i = choose|i: int| 0 <= i < front.len() && front[i] == rec;
            assert(recs[i].cmd.key() != recs[recs.len() - 1].cmd.key());
            assert(false);
        }
        assert forall|i: int| 0 <= i < recs.len() implies last_for(
            recs,
            (#[trigger] recs[i]).cmd.key(),
        ) == Some(recs[i]) by {
            if i < recs.len() - 1 {
                assert(recs[i].cmd.key() != recs[recs.len() - 1].cmd.key());
                assert(front[i] == recs[i]);
            }
        }
    }
}

/// Each record that the bytes hold from `at` on starts at or behind `at`,
/// within the bytes, and is the record that is written at its offset.
pub proof fn lemma_records_are_written(bytes: Seq<u8>, at: int)
    requires
        records_from(bytes, at) is Some,
    ensures
        forall|i: int|
            0 <= i < records_from(bytes, at).unwrap().len() ==> {
                let rec = #[trigger] records_from(bytes, at).unwrap()[i];
                &&& at <= rec.offset < bytes.len()
                &&& record_at(bytes, rec.offset) is Some
                &&& record_at(bytes, rec.offset).unwrap().0 == rec.cmd
            },
    decreases bytes.len() - at,
{
    lemma_records_from_step(bytes, at);
    lemma_skip_space_bounds(bytes, at);
    let start = skip_space(bytes, at);
    if start < bytes.len() {
        lemma_record_at_bounds(bytes, start);
        let (cmd, end) = record_at(bytes, start).unwrap();
        let rest = records_from(bytes, end).unwrap();
        lemma_records_are_written(bytes, end);
        let all = records_from(bytes, at).unwrap();
        assert(all =~= seq![LogRecord { offset: start, cmd }] + rest);
        assert forall|i: int| 0 <= i < all.len() implies {
            let rec = #[trigger] all[i];
            &&& at <= rec.offset < bytes.len()
            &&& record_at(bytes, rec.offset) is Some
            &&& record_at(bytes, rec.offset).unwrap().0 == rec.cmd
        } by {
            if i > 0 {
                assert(all[i] == rest[i - 1]);
            }
        }
    }
}

/// A run of records holds no more records than bytes.
pub proof fn lemma_records_len_bound(bytes: Seq<u8>, at: int)
    requires
        records_from(bytes, at) is Some,
    ensures
        records_from(bytes, at).unwrap().len() <= bytes.len() - at,
    decreases bytes.len() - at,
{
    lemma_records_from_step(bytes, at);
    lemma_skip_space_bounds(bytes, at);
    let start = skip_space(bytes, at);
    if start < bytes.len() {
        lemma_record_at_bounds(bytes, start);
        let (cmd, end) = record_at(bytes, start).unwrap();
        lemma_records_len_bound(bytes, end);
    }
}

/// Appending the bytes of a record to a run of records appends the record.
pub proof fn lemma_append_record(bytes: Seq<u8>, cmd: CommandView, at: int)
    requires
        records_from(bytes, at) is Some,
        writable(cmd),
    ensures
        records_from(bytes + record_bytes(cmd), at) == Some(
            records_from(bytes, at).unwrap().push(
                LogRecord { offset: bytes.len() as int, cmd },
            ),
        ),
    decreases bytes.len() - at,
{
    let more = bytes + record_bytes(cmd);
    let added = LogRecord { offset: bytes.len() as int, cmd };
    let start = skip_space(bytes, at);
    lemma_records_from_step(bytes, at);
    lemma_records_from_step(more, at);
    lemma_skip_space_bounds(bytes, at);
    lemma_record_reads_back_within(bytes, cmd, Seq::empty());
    assert(bytes + record_bytes(cmd) + Seq::<u8>::empty() =~= more);
    lemma_record_at_bounds(more, bytes.len() as int);
    lemma_record_opens(more, bytes.len() as int);
    if start >= bytes.len() {
        lemma_skip_space_extend(bytes, at, more);
        lemma_records_from_step(more, more.len() as int);
        lemma_skip_space_bounds(more, more.len() as int);
        assert(seq![added] + Seq::<LogRecord>::empty() =~= Seq::<LogRecord>::empty().push(added));
    } else {
        lemma_record_at_bounds(bytes, start);
        let (first, end) = record_at(bytes, start).unwrap();
        let rest = records_from(bytes, end).unwrap();
        lemma_skip_space_window(bytes, at, more, 0);
        assert forall|j: int| start <= j < end implies more[j + 0] == bytes[j] by {}
        lemma_record_at_window(bytes, start, more, 0);
        lemma_append_record(bytes, cmd, end);
        assert(seq![LogRecord { offset: start, cmd: first }] + rest.push(added) =~= (seq![
            LogRecord { offset: start, cmd: first },
        ] + rest).push(added));
    }
}

/// The database file: its bytes, and the number of records written to it.
pub struct LogFile {
    data: Vec<u8>,
    num_writes: usize,
}

impl View for LogFile {
    type V = Seq<u8>;

    closed spec fn view(&self) -> Seq<u8> {
        self.data@
    }
}

impl LogFile {
    /// The number of records that were counted.
    pub closed spec fn spec_num_writes(&self) -> nat {
        self.num_writes as nat
    }

    /// The offset at which the next record will start: the length of the
    /// log.
    pub open spec fn spec_position(&self) -> nat {
        self@.len()
    }

    /// The count of records never exceeds the number of bytes.
    pub open spec fn wf(&self) -> bool {
        self.spec_num_writes() <= self@.len()
    }

    /// A log file over the given bytes, with no record counted yet.
    pub fn new(data: Vec<u8>) -> (log: LogFile)
        ensures
            log@ == data@,
            log.spec_num_writes() == 0,
            log.wf(),
    {
        LogFile { data, num_writes: 0 }
    }

    /// The bytes of the log.
    pub fn bytes(&self) -> (bytes: &Vec<u8>)
        ensures
            bytes@ == self@,
    {
        &self.data
    }

    /// The offset at which the next record will start.
    pub fn position(&self) -> (position: Offset)
        ensures
            position == self.spec_position(),
    {
        self.data.len()
    }

    /// The number of records that were counted.
    pub fn num_writes(&self) -> (count: usize)
        ensures
            count == self.spec_num_writes(),
    {
        self.num_writes
    }

    /// Sets the count of records, as a scan of the log found it.
    pub(crate) fn set_num_writes(&mut self, count: usize)
        requires
            count <= old(self)@.len(),
        ensures
            final(self)@ == old(self)@,
            final(self).spec_num_writes() == count,
            final(self).wf(),
    {
        self.num_writes = count;
    }

    /// Appends a record and returns the offset at which it starts.
    ///
    /// A record that can be written is appended, and counted; the log is
    /// otherwise the same. A record that cannot be written leaves the log as
    /// it was and gives `SerializationFailure`.
    pub fn write_cmd(&mut self, cmd: &Command) -> (written: Result<Offset>)
        requires
            old(self).wf(),
        ensures
            final(self).wf(),
            writable(cmd@) ==> written is Ok && written.unwrap() == old(self)@.len()
                && final(self)@ == old(self)@ + record_bytes(cmd@)
                && final(self).spec_num_writes() == old(self).spec_num_writes() + 1,
            !writable(cmd@) ==> written == Err::<Offset, KvStoreError>(
                KvStoreError::SerializationFailure,
            ) && final(self)@ == old(self)@ && final(self).spec_num_writes() == old(
                self,
            ).spec_num_writes(),
    {
        let offset: Offset = self.data.len();
        let serialized = match encode(cmd) {
            Ok(bytes) => bytes,
            Err(e) => { return Err(e); },
        };
        proof {
            crate::record::lemma_record_reads_back(cmd@);
            lemma_record_at_bounds(record_bytes(cmd@), 0);
        }
        append_bytes(&mut self.data, serialized.as_slice());
        assert(self.num_writes < self.data.len());
        self.num_writes = self.num_writes + 1;
        Ok(offset)
    }

    /// Reads the record that starts at `offset`.
    ///
    /// Bytes that do not open with a whole record give
    /// `DeserializationFailure`. So does an offset at or behind the end of
    /// the log, where the file is shorter than the reader expects.
    pub fn read_cmd(&self, offset: Offset) -> (read: Result<Command>)
        ensures
            match record_at(self@, offset as int) {
                Some((cmd, _)) => read is Ok && read.unwrap()@ == cmd,
                None => read == Err::<Command, KvStoreError>(KvStoreError::DeserializationFailure),
            },
            offset >= self@.len() ==> read == Err::<Command, KvStoreError>(
                KvStoreError::DeserializationFailure,
            ),
    {
        proof {
            lemma_record_at_bounds(self@, offset as int);
        }
        match decode_at(self.data.as_slice(), offset) {
            Some((cmd, _)) => Ok(cmd),
            None => Err(KvStoreError::DeserializationFailure),
        }
    }

    /// Reads the record that follows `offset` and the white space that may
    /// stand there, and says where it opens and where it ends: one step of a
    /// scan of the log. Where only white space is left, the scan is over,
    /// which is `None`.
    pub fn next_cmd(&self, offset: Offset) -> (read: Result<Option<(Command, Offset, Offset)>>)
        ensures
            skip_space(self@, offset as int) >= self@.len() ==> read == Ok::<
                Option<(Command, Offset, Offset)>,
                KvStoreError,
            >(None),
            skip_space(self@, offset as int) < self@.len() ==> match record_at(
                self@,
                skip_space(self@, offset as int),
            ) {
                Some((cmd, end)) => read matches Ok(Some((c, s, e))) && c@ == cmd && s
                    == skip_space(self@, offset as int) && e == end,
                None => read == Err::<Option<(Command, Offset, Offset)>, KvStoreError>(
                    KvStoreError::DeserializationFailure,
                ),
            },
    {
        let start = skip_spaces(self.data.as_slice(), offset);
        if start >= self.data.len() {
            return Ok(None);
        }
        match decode_at(self.data.as_slice(), start) {
            Some((cmd, end)) => Ok(Some((cmd, start, end))),
            None => Err(KvStoreError::DeserializationFailure),
        }
    }
}

} // verus!
