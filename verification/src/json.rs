//! JSON string literals: how a string is written into a record and read back.
//!
//! The text of a literal is produced and interpreted by `serde_json`. Where a
//! literal ends is decided here, so that what a literal means depends on its
//! own bytes only and never on what follows it.

use vstd::prelude::*;
use vstd::slice::slice_subrange;

verus! {

/// The byte that opens and closes a literal.
pub const QUOTE: u8 = 34;

/// The byte that takes the byte after it out of consideration.
pub const BACKSLASH: u8 = 92;

/// White space, as JSON has it: a space, a tab, a line feed or a carriage
/// return.
pub open spec fn is_space(byte: u8) -> bool {
    byte == 32 || byte == 9 || byte == 10 || byte == 13
}

/// The JSON text that `serde_json` writes for the string `s`, or `None`
/// where it reports an error.
pub uninterp spec fn json_string_text(s: Seq<char>) -> Option<Seq<u8>>;

/// The string that `serde_json` reads from the JSON text `text`, or `None`
/// where it reports an error.
pub uninterp spec fn json_string_value(text: Seq<u8>) -> Option<Seq<char>>;

/// Calls `serde_json::to_vec` on a string. The contract claims only that the
/// outcome is the one that `json_string_text` names: the same string always
/// gives the same text.
#[verifier::external_body]
fn serialize_string(s: &str) -> (text: Option<Vec<u8>>)
    ensures
        match text {
            Some(t) => json_string_text(s@) == Some(t@),
            None => json_string_text(s@).is_none(),
        },
{
    serde_json::to_vec(s).ok()
}

/// Calls `serde_json::from_slice` for a `String`. The contract claims only
/// that the outcome is the one that `json_string_value` names: the same bytes
/// always give the same string.
#[verifier::external_body]
fn deserialize_string(text: &[u8]) -> (value: Option<String>)
    ensures
        match value {
            Some(s) => json_string_value(text@) == Some(s@),
            None => json_string_value(text@).is_none(),
        },
{
    serde_json::from_slice::<String>(text).ok()
}

/// Where the literal body that is entered at `at` ends: just behind the first
/// quote that no backslash precedes. `None` where the bytes run out first.
pub open spec fn body_end(bytes: Seq<u8>, at: int) -> Option<int>
    decreases bytes.len() - at,
{
    if at < 0 || at >= bytes.len() {
        None
    } else if bytes[at] == QUOTE {
        Some(at + 1)
    } else if bytes[at] == BACKSLASH {
        if at + 1 < bytes.len() {
            body_end(bytes, at + 2)
        } else {
            None
        }
    } else {
        body_end(bytes, at + 1)
    }
}

/// Where the literal that opens at `at` ends, if one opens there.
pub open spec fn literal_end(bytes: Seq<u8>, at: int) -> Option<int> {
    if 0 <= at < bytes.len() && bytes[at] == QUOTE {
        body_end(bytes, at + 1)
    } else {
        None
    }
}

/// The string that is written at `at`, and where its literal ends.
pub open spec fn text_at(bytes: Seq<u8>, at: int) -> Option<(Seq<char>, int)> {
    match literal_end(bytes, at) {
        Some(end) => match json_string_value(bytes.subrange(at, end)) {
            Some(s) => Some((s, end)),
            None => None,
        },
        None => None,
    }
}

/// A string is storable when its JSON text is one literal that reads back as
/// the string itself.
pub open spec fn storable(s: Seq<char>) -> bool {
    match json_string_text(s) {
        Some(t) => text_at(t, 0) == Some((s, t.len() as int)),
        None => false,
    }
}

/// The literal of a storable string.
pub open spec fn literal_of(s: Seq<char>) -> Seq<u8>
    recommends
        storable(s),
{
    json_string_text(s).unwrap()
}

/// A literal body ends behind where it is entered and within the bytes.
pub proof fn lemma_body_end_bounds(bytes: Seq<u8>, at: int)
    ensures
        body_end(bytes, at) matches Some(end) ==> at < end <= bytes.len(),
    decreases bytes.len() - at,
{
    if 0 <= at < bytes.len() {
        if bytes[at] == QUOTE {
        } else if bytes[at] == BACKSLASH {
            if at + 1 < bytes.len() {
                lemma_body_end_bounds(bytes, at + 2);
            }
        } else {
            lemma_body_end_bounds(bytes, at + 1);
        }
    }
}

/// Where a literal body ends depends only on the bytes up to that end: a
/// second sequence that holds the same bytes, `shift` places further on, has
/// the body end `shift` places further on.
pub proof fn lemma_body_end_window(a: Seq<u8>, at: int, b: Seq<u8>, shift: int)
    requires
        body_end(a, at) is Some,
        0 <= at + shift,
        body_end(a, at).unwrap() + shift <= b.len(),
        forall|j: int| at <= j < body_end(a, at).unwrap() ==> b[j + shift] == a[j],
    ensures
        body_end(b, at + shift) == Some(body_end(a, at).unwrap() + shift),
    decreases a.len() - at,
{
    lemma_body_end_bounds(a, at);
    if a[at] == QUOTE {
    } else if a[at] == BACKSLASH {
        lemma_body_end_bounds(a, at + 2);
        lemma_body_end_window(a, at + 2, b, shift);
    } else {
        lemma_body_end_bounds(a, at + 1);
        lemma_body_end_window(a, at + 1, b, shift);
    }
}

/// A string that is written at `at` ends behind `at` and within the bytes.
pub proof fn lemma_text_at_bounds(bytes: Seq<u8>, at: int)
    ensures
        text_at(bytes, at) matches Some((_, end)) ==> 0 <= at < end <= bytes.len(),
{
    if 0 <= at < bytes.len() {
        lemma_body_end_bounds(bytes, at + 1);
    }
}

/// What is written at `at` depends only on the bytes of its literal: a second
/// sequence that holds them `shift` places further on holds the same string.
pub proof fn lemma_text_at_window(a: Seq<u8>, at: int, b: Seq<u8>, shift: int)
    requires
        text_at(a, at) is Some,
        0 <= at + shift,
        text_at(a, at).unwrap().1 + shift <= b.len(),
        forall|j: int| at <= j < text_at(a, at).unwrap().1 ==> b[j + shift] == a[j],
    ensures
        text_at(b, at + shift) == Some(
            (text_at(a, at).unwrap().0, text_at(a, at).unwrap().1 + shift),
        ),
{
    lemma_text_at_bounds(a, at);
    let end = literal_end(a, at).unwrap();
    lemma_body_end_window(a, at + 1, b, shift);
    assert(b[at + shift] == a[at]);
    assert(b.subrange(at + shift, end + shift) =~= a.subrange(at, end));
}

/// Finds where the literal that opens at `at` ends.
pub fn find_literal_end(bytes: &[u8], at: usize) -> (end: Option<usize>)
    ensures
        match end {
            Some(e) => literal_end(bytes@, at as int) == Some(e as int),
            None => literal_end(bytes@, at as int).is_none(),
        },
{
    if at >= bytes.len() || bytes[at] != QUOTE {
        return None;
    }
    let mut i: usize = at + 1;
    while i < bytes.len()
        invariant
            at < i,
            at < bytes@.len(),
            bytes@[at as int] == QUOTE,
            body_end(bytes@, i as int) == body_end(bytes@, at + 1),
        decreases bytes.len() - i,
    {
        let byte: u8 = bytes[i];
        if byte == QUOTE {
            return Some(i + 1);
        }
        if byte == BACKSLASH {
            if i + 1 >= bytes.len() {
                return None;
            }
            i = i + 2;
        } else {
            i = i + 1;
        }
    }
    None
}

/// Reads the string that is written at `at`.
pub fn read_text(bytes: &[u8], at: usize) -> (found: Option<(String, usize)>)
    ensures
        match found {
            Some((s, end)) => text_at(bytes@, at as int) == Some((s@, end as int)),
            None => text_at(bytes@, at as int).is_none(),
        },
{
    match find_literal_end(bytes, at) {
        Some(end) => {
            proof {
                lemma_body_end_bounds(bytes@, at + 1);
            }
            match deserialize_string(slice_subrange(bytes, at, end)) {
                Some(s) => Some((s, end)),
                None => None,
            }
        },
        None => None,
    }
}

/// Appends `src` to `out`.
pub fn append_bytes(out: &mut Vec<u8>, src: &[u8])
    ensures
        final(out)@ == old(out)@ + src@,
{
    let mut i: usize = 0;
    while i < src.len()
        invariant
            i <= src.len(),
            out@ == old(out)@ + src@.subrange(0, i as int),
        decreases src.len() - i,
    {
        out.push(src[i]);
        i = i + 1;
        assert(out@ =~= old(out)@ + src@.subrange(0, i as int));
    }
    assert(src@.subrange(0, src@.len() as int) =~= src@);
}

/// Appends `text` to `out` if it was read back as `s` and to its very end,
/// and says whether it did: the test that a string passes before its text is
/// written anywhere.
pub fn append_if_read_back(
    out: &mut Vec<u8>,
    s: &String,
    text: &[u8],
    back: Option<(String, usize)>,
) -> (written: bool)
    ensures
        written == (back matches Some((b, end)) && b@ == s@ && end == text@.len()),
        written ==> final(out)@ == old(out)@ + text@,
        !written ==> final(out)@ == old(out)@,
{
    match back {
        Some((b, end)) => {
            if end == text.len() && b == *s {
                append_bytes(out, text);
                true
            } else {
                false
            }
        },
        None => false,
    }
}

/// Appends the literal of `s` to `out` if `s` is storable, and says whether
/// it did.
pub fn write_text(out: &mut Vec<u8>, s: &String) -> (written: bool)
    ensures
        written == storable(s@),
        written ==> final(out)@ == old(out)@ + literal_of(s@),
        !written ==> final(out)@ == old(out)@,
{
    match serialize_string(s.as_str()) {
        Some(text) => {
            let back = read_text(text.as_slice(), 0);
            append_if_read_back(out, s, text.as_slice(), back)
        },
        None => false,
    }
}

/// The first place at or behind `at` that holds no white space: the end of
/// the bytes where nothing but white space follows.
pub open spec fn skip_space(bytes: Seq<u8>, at: int) -> int
    decreases bytes.len() - at,
{
    if 0 <= at < bytes.len() && is_space(bytes[at]) {
        skip_space(bytes, at + 1)
    } else {
        at
    }
}

/// The string that is written behind `at` and the white space that may
/// stand there, and where its literal ends.
pub open spec fn text_after(bytes: Seq<u8>, at: int) -> Option<(Seq<char>, int)> {
    text_at(bytes, skip_space(bytes, at))
}

/// Skipping white space goes forward, stays within the bytes, and stops at a
/// byte that is none.
pub proof fn lemma_skip_space_bounds(bytes: Seq<u8>, at: int)
    ensures
        at <= skip_space(bytes, at),
        0 <= at <= bytes.len() ==> skip_space(bytes, at) <= bytes.len(),
        0 <= at && skip_space(bytes, at) < bytes.len() ==> !is_space(
            bytes[skip_space(bytes, at)],
        ),
    decreases bytes.len() - at,
{
    if 0 <= at < bytes.len() && is_space(bytes[at]) {
        lemma_skip_space_bounds(bytes, at + 1);
    }
}

/// Where skipping stops depends only on the bytes up to and with the one at
/// which it stops.
pub proof fn lemma_skip_space_window(a: Seq<u8>, at: int, b: Seq<u8>, shift: int)
    requires
        0 <= at,
        0 <= at + shift,
        skip_space(a, at) < a.len(),
        skip_space(a, at) + shift < b.len(),
        forall|j: int| at <= j <= skip_space(a, at) ==> b[j + shift] == a[j],
    ensures
        skip_space(b, at + shift) == skip_space(a, at) + shift,
    decreases a.len() - at,
{
    lemma_skip_space_bounds(a, at);
    if at < a.len() && is_space(a[at]) {
        lemma_skip_space_bounds(a, at + 1);
        lemma_skip_space_window(a, at + 1, b, shift);
    }
}

/// Where nothing but white space stands up to the end of the bytes, and a
/// byte that is none is put behind them, skipping stops at that byte.
pub proof fn lemma_skip_space_extend(a: Seq<u8>, at: int, b: Seq<u8>)
    requires
        0 <= at <= a.len(),
        skip_space(a, at) == a.len(),
        a.len() < b.len(),
        forall|j: int| at <= j < a.len() ==> b[j] == a[j],
        !is_space(b[a.len() as int]),
    ensures
        skip_space(b, at) == a.len(),
    decreases a.len() - at,
{
    if at < a.len() {
        lemma_skip_space_bounds(a, at + 1);
        lemma_skip_space_extend(a, at + 1, b);
    }
}

/// A string that is written behind `at` ends behind `at` and within the
/// bytes.
pub proof fn lemma_text_after_bounds(bytes: Seq<u8>, at: int)
    ensures
        text_after(bytes, at) matches Some((_, end)) ==> 0 <= at < end <= bytes.len(),
{
    lemma_skip_space_bounds(bytes, at);
    lemma_text_at_bounds(bytes, skip_space(bytes, at));
}

/// What is written behind `at` depends only on the bytes up to the end of
/// its literal.
pub proof fn lemma_text_after_window(a: Seq<u8>, at: int, b: Seq<u8>, shift: int)
    requires
        text_after(a, at) is Some,
        0 <= at + shift,
        text_after(a, at).unwrap().1 + shift <= b.len(),
        forall|j: int| at <= j < text_after(a, at).unwrap().1 ==> b[j + shift] == a[j],
    ensures
        text_after(b, at + shift) == Some(
            (text_after(a, at).unwrap().0, text_after(a, at).unwrap().1 + shift),
        ),
{
    lemma_text_after_bounds(a, at);
    lemma_skip_space_bounds(a, at);
    lemma_text_at_bounds(a, skip_space(a, at));
    lemma_skip_space_window(a, at, b, shift);
    lemma_text_at_window(a, skip_space(a, at), b, shift);
}

/// Finds the first place at or behind `at` that holds no white space.
pub fn skip_spaces(bytes: &[u8], at: usize) -> (next: usize)
    ensures
        next == skip_space(bytes@, at as int),
{
    let mut i: usize = at;
    while i < bytes.len() && (bytes[i] == 32 || bytes[i] == 9 || bytes[i] == 10 || bytes[i] == 13)
        invariant
            at <= i,
            skip_space(bytes@, i as int) == skip_space(bytes@, at as int),
        decreases bytes.len() - i,
    {
        i = i + 1;
    }
    i
}

/// Reads the string that is written behind `at` and the white space that
/// may stand there.
pub fn read_text_after(bytes: &[u8], at: usize) -> (found: Option<(String, usize)>)
    ensures
        match found {
            Some((s, end)) => text_after(bytes@, at as int) == Some((s@, end as int)),
            None => text_after(bytes@, at as int).is_none(),
        },
{
    read_text(bytes, skip_spaces(bytes, at))
}

/// A storable string that is written anywhere reads back as itself, whatever
/// stands before and after its literal.
pub proof fn lemma_storable_reads_back(before: Seq<u8>, s: Seq<char>, after: Seq<u8>)
    requires
        storable(s),
    ensures
        text_at(before + literal_of(s) + after, before.len() as int) == Some(
            (s, (before.len() + literal_of(s).len()) as int),
        ),
        text_after(before + literal_of(s) + after, before.len() as int) == Some(
            (s, (before.len() + literal_of(s).len()) as int),
        ),
        literal_of(s).len() >= 2,
        literal_of(s)[0] == QUOTE,
{
    let lit = literal_of(s);
    let all = before + lit + after;
    assert forall|j: int| 0 <= j < lit.len() implies all[j + before.len()] == lit[j] by {}
    lemma_text_at_window(lit, 0, all, before.len() as int);
    lemma_text_at_bounds(lit, 0);
    assert(all[0int + before.len()] == lit[0]);
}

} // verus!
