//! How a record is laid out in the log.
//!
//! A record is a JSON object. A binding of `a` to `1` is
//! `{"Set":{"k":"a","v":"1"}}`, a removal of `a` is `{"Remove":{"k":"a"}}`.
//! Records are written in this compact form, one after another. They are
//! read with or without JSON white space between their tokens and between
//! one record and the next. The fields are read in the order in which they
//! are written, `k` before `v`, and no others.

use vstd::prelude::*;
use crate::command::{Command, CommandView};
use crate::error::KvStoreError;
use crate::json::{
    is_space, lemma_skip_space_bounds, lemma_skip_space_window, lemma_storable_reads_back,
    lemma_text_after_bounds, lemma_text_after_window, literal_of, read_text_after, skip_space,
    skip_spaces, storable, text_after, write_text,
};

verus! {

/// In a pattern, the place between two tokens: where the pattern has this
/// byte, the bytes that are read may have white space, or nothing.
pub const GAP: u8 = 32;

/// What opens a binding, up to its key: `{"Set":{"k":`, token by token.
pub open spec fn put_head() -> Seq<u8> {
    seq![
        123u8, 32u8, 34u8, 83u8, 101u8, 116u8, 34u8, 32u8, 58u8, 32u8, 123u8, 32u8, 34u8, 107u8,
        34u8, 32u8, 58u8,
    ]
}

/// What stands between the key and the value of a binding: `,"v":`, token
/// by token.
pub open spec fn value_label() -> Seq<u8> {
    seq![32u8, 44u8, 32u8, 34u8, 118u8, 34u8, 32u8, 58u8]
}

/// What opens a removal, up to its key: `{"Remove":{"k":`, token by token.
pub open spec fn remove_head() -> Seq<u8> {
    seq![
        123u8, 32u8, 34u8, 82u8, 101u8, 109u8, 111u8, 118u8, 101u8, 34u8, 32u8, 58u8, 32u8, 123u8,
        32u8, 34u8, 107u8, 34u8, 32u8, 58u8,
    ]
}

/// What closes a record: `}}`, token by token.
pub open spec fn record_tail() -> Seq<u8> {
    seq![32u8, 125u8, 32u8, 125u8]
}

/// Where the bytes from `at` on have matched the pattern from `from` on:
/// byte for byte, but for white space where the pattern has a gap.
pub open spec fn match_pat(bytes: Seq<u8>, at: int, pat: Seq<u8>, from: int) -> Option<int>
    decreases pat.len() - from,
{
    if from < 0 {
        None
    } else if from >= pat.len() {
        Some(at)
    } else if pat[from] == GAP {
        match_pat(bytes, skip_space(bytes, at), pat, from + 1)
    } else if 0 <= at < bytes.len() && bytes[at] == pat[from] {
        match_pat(bytes, at + 1, pat, from + 1)
    } else {
        None
    }
}

/// Where the pattern ends that the bytes hold at `at`, if they hold it.
pub open spec fn pattern_at(bytes: Seq<u8>, at: int, pat: Seq<u8>) -> Option<int> {
    match_pat(bytes, at, pat, 0)
}

/// The pattern from `from` on without its gaps: the form in which it is
/// written.
pub open spec fn compact_from(pat: Seq<u8>, from: int) -> Seq<u8>
    decreases pat.len() - from,
{
    if from < 0 || from >= pat.len() {
        Seq::empty()
    } else if pat[from] == GAP {
        compact_from(pat, from + 1)
    } else {
        seq![pat[from]] + compact_from(pat, from + 1)
    }
}

/// The pattern without its gaps.
pub open spec fn compact(pat: Seq<u8>) -> Seq<u8> {
    compact_from(pat, 0)
}

/// From `from` on, every gap of the pattern is followed by a byte that is
/// none, and no such byte is white space.
pub open spec fn tokens_from(pat: Seq<u8>, from: int) -> bool
    decreases pat.len() - from,
{
    if from < 0 {
        false
    } else if from >= pat.len() {
        true
    } else if pat[from] == GAP {
        from + 1 < pat.len() && pat[from + 1] != GAP && tokens_from(pat, from + 1)
    } else {
        !is_space(pat[from]) && tokens_from(pat, from + 1)
    }
}

/// The record that is written at `at`, and where it ends.
pub open spec fn record_at(bytes: Seq<u8>, at: int) -> Option<(CommandView, int)> {
    match pattern_at(bytes, at, put_head()) {
        Some(key_at) => match text_after(bytes, key_at) {
            Some((k, key_end)) => match pattern_at(bytes, key_end, value_label()) {
                Some(value_at) => match text_after(bytes, value_at) {
                    Some((v, value_end)) => match pattern_at(bytes, value_end, record_tail()) {
                        Some(end) => Some((CommandView::Put { k, v }, end)),
                        None => None,
                    },
                    None => None,
                },
                None => None,
            },
            None => None,
        },
        None => match pattern_at(bytes, at, remove_head()) {
            Some(key_at) => match text_after(bytes, key_at) {
                Some((k, key_end)) => match pattern_at(bytes, key_end, record_tail()) {
                    Some(end) => Some((CommandView::Remove { k }, end)),
                    None => None,
                },
                None => None,
            },
            None => None,
        },
    }
}

/// A record can be written when its strings are storable.
pub open spec fn writable(cmd: CommandView) -> bool {
    match cmd {
        CommandView::Put { k, v } => storable(k) && storable(v),
        CommandView::Remove { k } => storable(k),
    }
}

/// The bytes of a record that can be written: its compact form.
pub open spec fn record_bytes(cmd: CommandView) -> Seq<u8>
    recommends
        writable(cmd),
{
    match cmd {
        CommandView::Put { k, v } => compact(put_head()) + literal_of(k) + compact(value_label())
            + literal_of(v) + compact(record_tail()),
        CommandView::Remove { k } => compact(remove_head()) + literal_of(k) + compact(
            record_tail(),
        ),
    }
}

/// The four patterns of a record are made of tokens.
pub proof fn lemma_record_patterns()
    ensures
        tokens_from(put_head(), 0),
        tokens_from(value_label(), 0),
        tokens_from(remove_head(), 0),
        tokens_from(record_tail(), 0),
{
    reveal_with_fuel(tokens_from, 24);
}

/// A match goes forward by at least the bytes of the pattern, and stays
/// within the bytes.
pub proof fn lemma_match_bounds(bytes: Seq<u8>, at: int, pat: Seq<u8>, from: int)
    requires
        match_pat(bytes, at, pat, from) is Some,
        0 <= at <= bytes.len(),
    ensures
        at + compact_from(pat, from).len() <= match_pat(bytes, at, pat, from).unwrap()
            <= bytes.len(),
    decreases pat.len() - from,
{
    if from < pat.len() {
        if pat[from] == GAP {
            lemma_skip_space_bounds(bytes, at);
            lemma_match_bounds(bytes, skip_space(bytes, at), pat, from + 1);
        } else {
            lemma_match_bounds(bytes, at + 1, pat, from + 1);
        }
    }
}

/// Where a pattern of tokens matches depends only on the bytes that it
/// matches: a second sequence that holds them `shift` places further on
/// matches there.
pub proof fn lemma_match_window(
    a: Seq<u8>,
    at: int,
    pat: Seq<u8>,
    from: int,
    b: Seq<u8>,
    shift: int,
)
    requires
        tokens_from(pat, from),
        match_pat(a, at, pat, from) is Some,
        0 <= at <= a.len(),
        0 <= at + shift,
        match_pat(a, at, pat, from).unwrap() + shift <= b.len(),
        forall|j: int| at <= j < match_pat(a, at, pat, from).unwrap() ==> b[j + shift] == a[j],
    ensures
        match_pat(b, at + shift, pat, from) == Some(match_pat(a, at, pat, from).unwrap() + shift),
    decreases pat.len() - from,
{
    lemma_match_bounds(a, at, pat, from);
    if from < pat.len() {
        if pat[from] == GAP {
            let p = skip_space(a, at);
            lemma_skip_space_bounds(a, at);
            lemma_match_bounds(a, p, pat, from + 1);
            assert(compact_from(pat, from + 1).len() >= 1);
            lemma_skip_space_window(a, at, b, shift);
            lemma_match_window(a, p, pat, from + 1, b, shift);
        } else {
            assert(compact_from(pat, from).len() >= 1);
            assert(b[at + shift] == a[at]);
            lemma_match_window(a, at + 1, pat, from + 1, b, shift);
        }
    }
}

/// Bytes that hold a pattern of tokens in its compact form match it.
pub proof fn lemma_compact_matches(bytes: Seq<u8>, at: int, pat: Seq<u8>, from: int)
    requires
        tokens_from(pat, from),
        0 <= at,
        at + compact_from(pat, from).len() <= bytes.len(),
        forall|i: int|
            0 <= i < compact_from(pat, from).len() ==> bytes[at + i] == #[trigger] compact_from(
                pat,
                from,
            )[i],
    ensures
        match_pat(bytes, at, pat, from) == Some(at + compact_from(pat, from).len()),
    decreases pat.len() - from,
{
    if from < pat.len() {
        if pat[from] == GAP {
            assert(tokens_from(pat, from + 1));
            assert(!is_space(pat[from + 1]));
            assert(compact_from(pat, from + 1)[0] == pat[from + 1]);
            assert(compact_from(pat, from) == compact_from(pat, from + 1));
            assert(bytes[at + 0] == compact_from(pat, from)[0]);
            assert(skip_space(bytes, at) == at);
            lemma_compact_matches(bytes, at, pat, from + 1);
        } else {
            assert(bytes[at + 0] == compact_from(pat, from)[0]);
            assert forall|i: int| 0 <= i < compact_from(pat, from + 1).len() implies bytes[at + 1
                + i] == #[trigger] compact_from(pat, from + 1)[i] by {
                assert(compact_from(pat, from)[i + 1] == compact_from(pat, from + 1)[i]);
                assert(bytes[at + (i + 1)] == compact_from(pat, from)[i + 1]);
            }
            lemma_compact_matches(bytes, at + 1, pat, from + 1);
        }
    }
}

/// The compact form of a pattern, standing between other bytes, matches the
/// pattern.
pub proof fn lemma_compact_matches_within(before: Seq<u8>, pat: Seq<u8>, after: Seq<u8>)
    requires
        tokens_from(pat, 0),
    ensures
        pattern_at(before + compact(pat) + after, before.len() as int, pat) == Some(
            (before.len() + compact(pat).len()) as int,
        ),
{
    let all = before + compact(pat) + after;
    assert forall|i: int| 0 <= i < compact_from(pat, 0).len() implies all[before.len() + i]
        == #[trigger] compact_from(pat, 0)[i] by {}
    lemma_compact_matches(all, before.len() as int, pat, 0);
}

/// No bytes open both a binding and a removal.
pub proof fn lemma_heads_differ(bytes: Seq<u8>, at: int)
    ensures
        !(pattern_at(bytes, at, put_head()) is Some && pattern_at(bytes, at, remove_head())
            is Some),
{
    reveal_with_fuel(match_pat, 5);
}

/// A record opens with a brace, which is no white space.
pub proof fn lemma_record_opens(bytes: Seq<u8>, at: int)
    ensures
        record_at(bytes, at) is Some ==> 0 <= at < bytes.len() && bytes[at] == 123u8 && !is_space(
            bytes[at],
        ),
{
    reveal_with_fuel(match_pat, 2);
}

/// A record ends behind where it starts and within the bytes.
pub proof fn lemma_record_at_bounds(bytes: Seq<u8>, at: int)
    ensures
        record_at(bytes, at) matches Some((_, end)) ==> 0 <= at < end <= bytes.len(),
{
    if let Some((_, end)) = record_at(bytes, at) {
        assert(0 <= at < bytes.len()) by {
            reveal_with_fuel(match_pat, 2);
        }
        assert(compact_from(put_head(), 0).len() >= 1);
        assert(compact_from(remove_head(), 0).len() >= 1);
        if let Some(key_at) = pattern_at(bytes, at, put_head()) {
            lemma_match_bounds(bytes, at, put_head(), 0);
            lemma_text_after_bounds(bytes, key_at);
            let key_end = text_after(bytes, key_at).unwrap().1;
            let value_at = pattern_at(bytes, key_end, value_label()).unwrap();
            lemma_match_bounds(bytes, key_end, value_label(), 0);
            lemma_text_after_bounds(bytes, value_at);
            let value_end = text_after(bytes, value_at).unwrap().1;
            lemma_match_bounds(bytes, value_end, record_tail(), 0);
        } else {
            let key_at = pattern_at(bytes, at, remove_head()).unwrap();
            lemma_match_bounds(bytes, at, remove_head(), 0);
            lemma_text_after_bounds(bytes, key_at);
            let key_end = text_after(bytes, key_at).unwrap().1;
            lemma_match_bounds(bytes, key_end, record_tail(), 0);
        }
    }
}

/// What is written at `at` depends only on the bytes of the record: a second
/// sequence that holds them `shift` places further on holds the same record.
pub proof fn lemma_record_at_window(a: Seq<u8>, at: int, b: Seq<u8>, shift: int)
    requires
        record_at(a, at) is Some,
        0 <= at + shift,
        record_at(a, at).unwrap().1 + shift <= b.len(),
        forall|j: int| at <= j < record_at(a, at).unwrap().1 ==> b[j + shift] == a[j],
    ensures
        record_at(b, at + shift) == Some(
            (record_at(a, at).unwrap().0, record_at(a, at).unwrap().1 + shift),
        ),
{
    lemma_record_at_bounds(a, at);
    lemma_record_patterns();
    lemma_heads_differ(b, at + shift);
    if let Some(key_at) = pattern_at(a, at, put_head()) {
        lemma_match_bounds(a, at, put_head(), 0);
        lemma_text_after_bounds(a, key_at);
        let key_end = text_after(a, key_at).unwrap().1;
        let value_at = pattern_at(a, key_end, value_label()).unwrap();
        lemma_match_bounds(a, key_end, value_label(), 0);
        lemma_text_after_bounds(a, value_at);
        let value_end = text_after(a, value_at).unwrap().1;
        lemma_match_bounds(a, value_end, record_tail(), 0);
        lemma_match_window(a, at, put_head(), 0, b, shift);
        lemma_text_after_window(a, key_at, b, shift);
        lemma_match_window(a, key_end, value_label(), 0, b, shift);
        lemma_text_after_window(a, value_at, b, shift);
        lemma_match_window(a, value_end, record_tail(), 0, b, shift);
    } else {
        let key_at = pattern_at(a, at, remove_head()).unwrap();
        lemma_match_bounds(a, at, remove_head(), 0);
        lemma_text_after_bounds(a, key_at);
        let key_end = text_after(a, key_at).unwrap().1;
        lemma_match_bounds(a, key_end, record_tail(), 0);
        lemma_match_window(a, at, remove_head(), 0, b, shift);
        lemma_text_after_window(a, key_at, b, shift);
        lemma_match_window(a, key_end, record_tail(), 0, b, shift);
    }
}

/// The bytes of a record that can be written read back as that record.
pub proof fn lemma_record_reads_back(cmd: CommandView)
    requires
        writable(cmd),
    ensures
        record_at(record_bytes(cmd), 0) == Some((cmd, record_bytes(cmd).len() as int)),
{
    let bytes = record_bytes(cmd);
    let none = Seq::<u8>::empty();
    let tail = compact(record_tail());
    lemma_record_patterns();
    match cmd {
        CommandView::Put { k, v } => {
            let head = compact(put_head());
            let label = compact(value_label());
            let behind_head = literal_of(k) + label + literal_of(v) + tail;
            assert(bytes =~= none + head + behind_head);
            lemma_compact_matches_within(none, put_head(), behind_head);
            let behind_key = label + literal_of(v) + tail;
            assert(bytes =~= head + literal_of(k) + behind_key);
            lemma_storable_reads_back(head, k, behind_key);
            let upto_key = head + literal_of(k);
            let behind_label = literal_of(v) + tail;
            assert(bytes =~= upto_key + label + behind_label);
            lemma_compact_matches_within(upto_key, value_label(), behind_label);
            let upto_label = upto_key + label;
            assert(bytes =~= upto_label + literal_of(v) + tail);
            lemma_storable_reads_back(upto_label, v, tail);
            let upto_value = upto_label + literal_of(v);
            assert(bytes =~= upto_value + tail + none);
            lemma_compact_matches_within(upto_value, record_tail(), none);
        },
        CommandView::Remove { k } => {
            let head = compact(remove_head());
            let behind_head = literal_of(k) + tail;
            assert(bytes =~= none + head + behind_head);
            lemma_compact_matches_within(none, remove_head(), behind_head);
            lemma_heads_differ(bytes, 0);
            assert(bytes =~= head + literal_of(k) + tail);
            lemma_storable_reads_back(head, k, tail);
            let upto_key = head + literal_of(k);
            assert(bytes =~= upto_key + tail + none);
            lemma_compact_matches_within(upto_key, record_tail(), none);
        },
    }
}

/// A record that can be written reads back wherever its bytes stand.
pub proof fn lemma_record_reads_back_within(before: Seq<u8>, cmd: CommandView, after: Seq<u8>)
    requires
        writable(cmd),
    ensures
        record_at(before + record_bytes(cmd) + after, before.len() as int) == Some(
            (cmd, (before.len() + record_bytes(cmd).len()) as int),
        ),
{
    let rec = record_bytes(cmd);
    let all = before + rec + after;
    lemma_record_reads_back(cmd);
    assert forall|j: int| 0 <= j < rec.len() implies all[j + before.len()] == rec[j] by {}
    lemma_record_at_window(rec, 0, all, before.len() as int);
}

fn put_head_pattern() -> (pat: Vec<u8>)
    ensures
        pat@ == put_head(),
{
    let pat = vec![
        123u8, 32u8, 34u8, 83u8, 101u8, 116u8, 34u8, 32u8, 58u8, 32u8, 123u8, 32u8, 34u8, 107u8,
        34u8, 32u8, 58u8,
    ];
    assert(pat@ =~= put_head());
    pat
}

fn value_label_pattern() -> (pat: Vec<u8>)
    ensures
        pat@ == value_label(),
{
    let pat = vec![32u8, 44u8, 32u8, 34u8, 118u8, 34u8, 32u8, 58u8];
    assert(pat@ =~= value_label());
    pat
}

fn remove_head_pattern() -> (pat: Vec<u8>)
    ensures
        pat@ == remove_head(),
{
    let pat = vec![
        123u8, 32u8, 34u8, 82u8, 101u8, 109u8, 111u8, 118u8, 101u8, 34u8, 32u8, 58u8, 32u8, 123u8,
        32u8, 34u8, 107u8, 34u8, 32u8, 58u8,
    ];
    assert(pat@ =~= remove_head());
    pat
}

fn record_tail_pattern() -> (pat: Vec<u8>)
    ensures
        pat@ == record_tail(),
{
    let pat = vec![32u8, 125u8, 32u8, 125u8];
    assert(pat@ =~= record_tail());
    pat
}

/// Matches the bytes at `at` against the pattern, and says where the match
/// ends.
pub fn match_pattern(bytes: &[u8], at: usize, pat: &[u8]) -> (end: Option<usize>)
    ensures
        match end {
            Some(e) => pattern_at(bytes@, at as int, pat@) == Some(e as int),
            None => pattern_at(bytes@, at as int, pat@) is None,
        },
{
    let mut cur: usize = at;
    let mut j: usize = 0;
    while j < pat.len()
        invariant
            j <= pat.len(),
            match_pat(bytes@, cur as int, pat@, j as int) == pattern_at(bytes@, at as int, pat@),
        decreases pat.len() - j,
    {
        if pat[j] == GAP {
            cur = skip_spaces(bytes, cur);
        } else {
            if cur >= bytes.len() || bytes[cur] != pat[j] {
                return None;
            }
            cur = cur + 1;
        }
        j = j + 1;
    }
    Some(cur)
}

/// Appends the compact form of the pattern to `out`.
pub fn append_compact(out: &mut Vec<u8>, pat: &[u8])
    ensures
        final(out)@ == old(out)@ + compact(pat@),
{
    let mut j: usize = 0;
    while j < pat.len()
        invariant
            j <= pat.len(),
            out@ + compact_from(pat@, j as int) == old(out)@ + compact(pat@),
        decreases pat.len() - j,
    {
        let ghost before = out@;
        if pat[j] != GAP {
            out.push(pat[j]);
            assert(out@ + compact_from(pat@, j + 1) =~= before + compact_from(pat@, j as int));
        }
        j = j + 1;
    }
    assert(out@ + compact_from(pat@, pat@.len() as int) =~= out@);
}

/// Writes a record out as bytes.
///
/// Succeeds exactly on the records that can be written, with the bytes that
/// read back as the record; fails with `SerializationFailure` on the others.
pub fn encode(cmd: &Command) -> (encoded: Result<Vec<u8>, KvStoreError>)
    ensures
        writable(cmd@) ==> encoded is Ok && encoded.unwrap()@ == record_bytes(cmd@),
        !writable(cmd@) ==> encoded == Err::<Vec<u8>, KvStoreError>(
            KvStoreError::SerializationFailure,
        ),
{
    let mut out: Vec<u8> = Vec::new();
    match cmd {
        Command::Put { k, v } => {
            append_compact(&mut out, put_head_pattern().as_slice());
            if !write_text(&mut out, k) {
                return Err(KvStoreError::SerializationFailure);
            }
            append_compact(&mut out, value_label_pattern().as_slice());
            if !write_text(&mut out, v) {
                return Err(KvStoreError::SerializationFailure);
            }
            append_compact(&mut out, record_tail_pattern().as_slice());
            assert(out@ =~= record_bytes(cmd@));
        },
        Command::Remove { k } => {
            append_compact(&mut out, remove_head_pattern().as_slice());
            if !write_text(&mut out, k) {
                return Err(KvStoreError::SerializationFailure);
            }
            append_compact(&mut out, record_tail_pattern().as_slice());
            assert(out@ =~= record_bytes(cmd@));
        },
    }
    Ok(out)
}

/// Reads the record that is written at `at`, and says where it ends.
///
/// White space between the tokens of the record is passed over. The record
/// itself starts at `at`, and its fields stand in the order `k`, `v`.
pub fn decode_at(bytes: &[u8], at: usize) -> (found: Option<(Command, usize)>)
    ensures
        match found {
            Some((cmd, end)) => record_at(bytes@, at as int) == Some((cmd@, end as int)),
            None => record_at(bytes@, at as int).is_none(),
        },
{
    let tail = record_tail_pattern();
    match match_pattern(bytes, at, put_head_pattern().as_slice()) {
        Some(key_at) => {
            let (k, key_end) = match read_text_after(bytes, key_at) {
                Some(found) => found,
                None => { return None; },
            };
            let value_at = match match_pattern(bytes, key_end, value_label_pattern().as_slice()) {
                Some(value_at) => value_at,
                None => { return None; },
            };
            let (v, value_end) = match read_text_after(bytes, value_at) {
                Some(found) => found,
                None => { return None; },
            };
            match match_pattern(bytes, value_end, tail.as_slice()) {
                Some(end) => Some((Command::Put { k, v }, end)),
                None => None,
            }
        },
        None => {
            let key_at = match match_pattern(bytes, at, remove_head_pattern().as_slice()) {
                Some(key_at) => key_at,
                None => { return None; },
            };
            let (k, key_end) = match read_text_after(bytes, key_at) {
                Some(found) => found,
                None => { return None; },
            };
            match match_pattern(bytes, key_end, tail.as_slice()) {
                Some(end) => Some((Command::Remove { k }, end)),
                None => None,
            }
        },
    }
}

} // verus!
