//! Compaction: what it means for one run of records to be the compaction of
//! another, and why handling the keys one by one arrives there.

use vstd::prelude::*;
use crate::command::CommandView;
use crate::log_file::{
    all_bindings, distinct_keys, first_mentions, key_count, last_for, lemma_distinct_keys,
    lemma_first_mentions_push, lemma_last_for_is_member, lookup, LogRecord,
};
use crate::record::{record_bytes, writable};

verus! {

/// The records can all be written again: every binding that is the latest
/// record of its key is writable.
pub open spec fn compactable(recs: Seq<LogRecord>) -> bool {
    forall|key: Seq<char>| #[trigger]
        lookup(recs, key) is Some ==> writable(last_for(recs, key).unwrap().cmd)
}

/// `new` is a compaction of `old`: it binds every key to the value that
/// `old` binds it to, and holds nothing but one binding for each such key.
pub open spec fn is_compaction(new: Seq<LogRecord>, old: Seq<LogRecord>) -> bool {
    &&& all_bindings(new)
    &&& distinct_keys(new)
    &&& forall|key: Seq<char>| #[trigger] lookup(new, key) == lookup(old, key)
}

/// The commands of the records, in their order.
pub open spec fn commands(recs: Seq<LogRecord>) -> Seq<CommandView> {
    Seq::new(recs.len(), |i: int| recs[i].cmd)
}

/// The bindings that a compaction keeps for the keys, in the order of the
/// keys: for each key that the records bind to a value, that binding.
pub open spec fn kept_bindings(keys: Seq<Seq<char>>, recs: Seq<LogRecord>) -> Seq<CommandView>
    decreases keys.len(),
{
    if keys.len() == 0 {
        Seq::empty()
    } else {
        match lookup(recs, keys.last()) {
            Some(v) => kept_bindings(keys.drop_last(), recs).push(
                CommandView::Put { k: keys.last(), v },
            ),
            None => kept_bindings(keys.drop_last(), recs),
        }
    }
}

/// What the compaction of the records holds: one binding for each key that
/// has a value, the keys in the order in which the records first mention
/// them.
pub open spec fn compaction_of(recs: Seq<LogRecord>) -> Seq<CommandView> {
    kept_bindings(first_mentions(recs), recs)
}

/// The bytes of the log that holds the commands one after another, and
/// nothing else.
pub open spec fn log_bytes(cmds: Seq<CommandView>) -> Seq<u8>
    decreases cmds.len(),
{
    if cmds.len() == 0 {
        Seq::empty()
    } else {
        log_bytes(cmds.drop_last()) + record_bytes(cmds.last())
    }
}

/// What a compaction keeps for one key more.
pub proof fn lemma_kept_bindings_step(keys: Seq<Seq<char>>, recs: Seq<LogRecord>, upto: int)
    requires
        0 <= upto < keys.len(),
    ensures
        kept_bindings(keys.take(upto + 1), recs) == match lookup(recs, keys[upto]) {
            Some(v) => kept_bindings(keys.take(upto), recs).push(
                CommandView::Put { k: keys[upto], v },
            ),
            None => kept_bindings(keys.take(upto), recs),
        },
{
    assert(keys.take(upto + 1).drop_last() =~= keys.take(upto));
    assert(keys.take(upto + 1).last() == keys[upto]);
}

/// A compaction keeps no more bindings than there are keys.
pub proof fn lemma_kept_bindings_len(keys: Seq<Seq<char>>, recs: Seq<LogRecord>)
    ensures
        kept_bindings(keys, recs).len() <= keys.len(),
    decreases keys.len(),
{
    if keys.len() > 0 {
        lemma_kept_bindings_len(keys.drop_last(), recs);
    }
}

/// The compaction of the records holds no more bindings than the records
/// mention keys.
pub proof fn lemma_compaction_len(recs: Seq<LogRecord>)
    ensures
        compaction_of(recs).len() <= key_count(recs),
{
    lemma_kept_bindings_len(first_mentions(recs), recs);
    if recs.len() > 0 {
        lemma_first_mentions_push(recs.drop_last(), recs.last());
        assert(recs.drop_last().push(recs.last()) =~= recs);
    }
}

/// The bytes of a log after one more command.
pub proof fn lemma_log_bytes_push(cmds: Seq<CommandView>, cmd: CommandView)
    ensures
        log_bytes(cmds.push(cmd)) == log_bytes(cmds) + record_bytes(cmd),
{
    assert(cmds.push(cmd).drop_last() =~= cmds);
}

/// The commands of the records after one more record.
pub proof fn lemma_commands_push(recs: Seq<LogRecord>, rec: LogRecord)
    ensures
        commands(recs.push(rec)) == commands(recs).push(rec.cmd),
{
    assert(commands(recs.push(rec)) =~= commands(recs).push(rec.cmd));
}

/// The log has grown enough to be compacted: it holds more than twice as
/// many records as keys.
pub open spec fn needs_compaction(recs: Seq<LogRecord>) -> bool {
    recs.len() > 2 * key_count(recs)
}

/// The keys are distinct, and every key that the records mention is one of
/// them.
pub open spec fn keys_cover(keys: Seq<Seq<char>>, live: Seq<LogRecord>) -> bool {
    &&& forall|i: int, j: int| 0 <= i < j < keys.len() ==> keys[i] != keys[j]
    &&& forall|i: int| 0 <= i < keys.len() ==> last_for(live, #[trigger] keys[i]) is Some
    &&& forall|key: Seq<char>| #[trigger]
        last_for(live, key) is Some ==> exists|j: int| 0 <= j < keys.len() && keys[j] == key
}

/// The record is the latest that `live` holds for one of the first `upto`
/// keys.
pub open spec fn taken_from(
    rec: LogRecord,
    live: Seq<LogRecord>,
    keys: Seq<Seq<char>>,
    upto: int,
) -> bool {
    exists|j: int|
        0 <= j < upto && #[trigger] keys[j] == rec.cmd.key() && last_for(live, keys[j]) is Some
            && last_for(live, keys[j]).unwrap().cmd == rec.cmd
}

/// The value of `key`, if it has one, was kept: its binding is writable and
/// stands in `fresh`.
pub open spec fn kept_in(key: Seq<char>, fresh: Seq<LogRecord>, live: Seq<LogRecord>) -> bool {
    lookup(live, key) is Some ==> writable(last_for(live, key).unwrap().cmd) && exists|m: int|
        0 <= m < fresh.len() && (#[trigger] fresh[m]).cmd == last_for(live, key).unwrap().cmd
}

/// `fresh` is what a compaction of `live` holds once the first `upto` keys
/// are handled: the bindings of those among them that have a value.
pub open spec fn compacted_upto(
    fresh: Seq<LogRecord>,
    live: Seq<LogRecord>,
    keys: Seq<Seq<char>>,
    upto: int,
) -> bool {
    &&& all_bindings(fresh)
    &&& distinct_keys(fresh)
    &&& forall|m: int| 0 <= m < fresh.len() ==> taken_from(#[trigger] fresh[m], live, keys, upto)
    &&& forall|j: int| 0 <= j < upto ==> kept_in(#[trigger] keys[j], fresh, live)
}

/// Before any key is handled, the compaction holds nothing.
pub proof fn lemma_compaction_start(live: Seq<LogRecord>, keys: Seq<Seq<char>>)
    ensures
        compacted_upto(Seq::empty(), live, keys, 0),
{
}

/// A binding that cannot be written again stands in the way of a compaction.
pub proof fn lemma_compaction_fails(live: Seq<LogRecord>, key: Seq<char>)
    requires
        last_for(live, key) is Some,
        last_for(live, key).unwrap().cmd is Put,
        !writable(last_for(live, key).unwrap().cmd),
    ensures
        !compactable(live),
{
    assert(lookup(live, key) is Some);
}

/// Handling a key that has a value appends its binding.
pub proof fn lemma_compaction_keeps(
    fresh: Seq<LogRecord>,
    live: Seq<LogRecord>,
    keys: Seq<Seq<char>>,
    upto: int,
    added: LogRecord,
)
    requires
        compacted_upto(fresh, live, keys, upto),
        keys_cover(keys, live),
        0 <= upto < keys.len(),
        added.cmd is Put,
        writable(added.cmd),
        last_for(live, keys[upto]).unwrap().cmd == added.cmd,
    ensures
        compacted_upto(fresh.push(added), live, keys, upto + 1),
{
    let after = fresh.push(added);
    lemma_last_for_is_member(live, keys[upto]);
    assert(added.cmd.key() == keys[upto]);
    assert forall|m: int| 0 <= m < after.len() implies taken_from(
        #[trigger] after[m],
        live,
        keys,
        upto + 1,
    ) by {
        if m < fresh.len() {
            assert(after[m] == fresh[m]);
            assert(taken_from(fresh[m], live, keys, upto));
            let j = choose|j: int|
                0 <= j < upto && #[trigger] keys[j] == fresh[m].cmd.key() && last_for(
                    live,
                    keys[j],
                ) is Some && last_for(live, keys[j]).unwrap().cmd == fresh[m].cmd;
            assert(0 <= j < upto + 1 && keys[j] == after[m].cmd.key());
        } else {
            assert(keys[upto] == after[m].cmd.key());
        }
    }
    assert forall|a: int, b: int| 0 <= a < b < after.len() implies (#[trigger] after[a]).cmd.key()
        != (#[trigger] after[b]).cmd.key() by {
        if b == fresh.len() {
            assert(after[a] == fresh[a]);
            assert(taken_from(fresh[a], live, keys, upto));
            let j = choose|j: int|
                0 <= j < upto && #[trigger] keys[j] == fresh[a].cmd.key() && last_for(
                    live,
                    keys[j],
                ) is Some && last_for(live, keys[j]).unwrap().cmd == fresh[a].cmd;
            assert(keys[j] != keys[upto]);
        } else {
            assert(after[a] == fresh[a] && after[b] == fresh[b]);
        }
    }
    assert forall|m: int| 0 <= m < after.len() implies (#[trigger] after[m]).cmd is Put by {
        if m < fresh.len() {
            assert(after[m] == fresh[m]);
        }
    }
    assert forall|j: int| 0 <= j < upto + 1 implies kept_in(#[trigger] keys[j], after, live) by {
        if j < upto {
            assert(kept_in(keys[j], fresh, live));
            if lookup(live, keys[j]) is Some {
                let m = choose|m: int|
                    0 <= m < fresh.len() && (#[trigger] fresh[m]).cmd == last_for(
                        live,
                        keys[j],
                    ).unwrap().cmd;
                assert(after[m] == fresh[m]);
            }
        } else {
            assert(after[fresh.len() as int].cmd == added.cmd);
        }
    }
}

/// Handling a key that has no value changes nothing.
pub proof fn lemma_compaction_skips(
    fresh: Seq<LogRecord>,
    live: Seq<LogRecord>,
    keys: Seq<Seq<char>>,
    upto: int,
)
    requires
        compacted_upto(fresh, live, keys, upto),
        0 <= upto < keys.len(),
        lookup(live, keys[upto]) is None,
    ensures
        compacted_upto(fresh, live, keys, upto + 1),
{
    assert forall|m: int| 0 <= m < fresh.len() implies taken_from(
        #[trigger] fresh[m],
        live,
        keys,
        upto + 1,
    ) by {
        assert(taken_from(fresh[m], live, keys, upto));
        let j = choose|j: int|
            0 <= j < upto && #[trigger] keys[j] == fresh[m].cmd.key() && last_for(live, keys[j])
                is Some && last_for(live, keys[j]).unwrap().cmd == fresh[m].cmd;
        assert(0 <= j < upto + 1 && keys[j] == fresh[m].cmd.key());
    }
    assert forall|j: int| 0 <= j < upto + 1 implies kept_in(#[trigger] keys[j], fresh, live) by {
        if j < upto {
            assert(kept_in(keys[j], fresh, live));
        }
    }
}

/// Once every key is handled, the compaction is complete: it binds what
/// `live` binds, with one record for each key.
pub proof fn lemma_compaction_done(
    fresh: Seq<LogRecord>,
    live: Seq<LogRecord>,
    keys: Seq<Seq<char>>,
)
    requires
        compacted_upto(fresh, live, keys, keys.len() as int),
        keys_cover(keys, live),
    ensures
        compactable(live),
        is_compaction(fresh, live),
        key_count(fresh) == fresh.len(),
{
    lemma_distinct_keys(fresh);
    assert forall|key: Seq<char>| #[trigger] lookup(live, key) is Some implies writable(
        last_for(live, key).unwrap().cmd,
    ) && lookup(fresh, key) == lookup(live, key) by {
        let j = choose|j: int| 0 <= j < keys.len() && keys[j] == key;
        assert(kept_in(keys[j], fresh, live));
        let m = choose|m: int|
            0 <= m < fresh.len() && (#[trigger] fresh[m]).cmd == last_for(live, key).unwrap().cmd;
        lemma_last_for_is_member(live, key);
        assert(fresh[m].cmd.key() == key);
        assert(last_for(fresh, fresh[m].cmd.key()) == Some(fresh[m]));
    }
    assert forall|key: Seq<char>| lookup(live, key) is None implies #[trigger] lookup(fresh, key)
        is None by {
        if last_for(fresh, key) is Some {
            lemma_last_for_is_member(fresh, key);
            let rec = last_for(fresh, key).unwrap();
            let m = choose|m: int| 0 <= m < fresh.len() && fresh[m] == rec;
            assert(fresh[m].cmd is Put);
            assert(taken_from(fresh[m], live, keys, keys.len() as int));
            assert(false);
        }
    }
    assert forall|key: Seq<char>| #[trigger] lookup(fresh, key) == lookup(live, key) by {
        assert(lookup(live, key) is Some || lookup(live, key) is None);
    }
}

/// A compacted log binds what the log bound before, mentions no key twice,
/// and holds exactly as many records as it binds keys.
pub proof fn lemma_compaction_is_tight(new: Seq<LogRecord>, old: Seq<LogRecord>)
    requires
        is_compaction(new, old),
    ensures
        key_count(new) == new.len(),
        !needs_compaction(new),
        forall|i: int|
            0 <= i < new.len() ==> lookup(old, (#[trigger] new[i]).cmd.key()) == new[i].cmd.value(),
        forall|key: Seq<char>|
            lookup(old, key) is Some ==> exists|i: int|
                0 <= i < new.len() && (#[trigger] new[i]).cmd.key() == key,
{
    lemma_distinct_keys(new);
    assert forall|i: int| 0 <= i < new.len() implies lookup(old, (#[trigger] new[i]).cmd.key())
        == new[i].cmd.value() by {
        assert(lookup(new, new[i].cmd.key()) == lookup(old, new[i].cmd.key()));
    }
    assert forall|key: Seq<char>| lookup(old, key) is Some implies exists|i: int|
        0 <= i < new.len() && (#[trigger] new[i]).cmd.key() == key by {
        assert(lookup(new, key) == lookup(old, key));
        lemma_last_for_is_member(new, key);
        let rec = last_for(new, key).unwrap();
        let i = choose|i: int| 0 <= i < new.len() && new[i] == rec;
        assert(new[i].cmd.key() == key);
    }
}

/// No more keys are mentioned than there are records.
pub proof fn lemma_key_count_bound(recs: Seq<LogRecord>)
    ensures
        key_count(recs) <= recs.len(),
    decreases recs.len(),
{
    if recs.len() > 0 {
        lemma_key_count_bound(recs.drop_last());
    }
}

} // verus!
