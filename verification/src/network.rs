//! The messages that client and server exchange, and how they are written
//! on the wire.
//!
//! Each message is one JSON object. It is written without white space, and
//! read with or without JSON white space before it and between its tokens.
//! Requests are `{"Get":"a"}`, `{"Set":["a","1"]}` and `{"Remove":"a"}`.
//! Responses are
//! `{"Ok":{"Get":"1"}}`, `{"Ok":{"Get":null}}`, `{"Ok":"Set"}`,
//! `{"Ok":"Remove"}` and `{"Err":{"Server":"Key not found"}}`.

use vstd::prelude::*;
use crate::json::{
    lemma_storable_reads_back, literal_of, read_text_after, storable, text_after, write_text,
};
use crate::record::{
    append_compact, compact, lemma_compact_matches_within, match_pat, match_pattern, pattern_at,
    tokens_from,
};

verus! {

/// Request sent by the client.
#[derive(Debug, Clone, PartialEq, Eq)]
pub enum Req {
    /// Get the value of the given key.
    Get(String),
    /// Set the value of the given key.
    Put(String, String),
    /// Remove the given key.
    Remove(String),
}

/// Response sent by the server.
pub type Resp = Result<SuccResp, Error>;

/// Success response sent by the server.
#[derive(Debug, Clone, PartialEq, Eq)]
pub enum SuccResp {
    /// Successful get response, with the value if there is one.
    Get(Option<String>),
    /// Successful set response.
    Put,
    /// Successful remove response.
    Remove,
}

/// Failure response sent by the server.
#[derive(Debug, Clone, PartialEq, Eq)]
pub enum Error {
    /// Error reported by the server, in words.
    Server(String),
}

/// What a request says.
pub enum ReqView {
    Get { key: Seq<char> },
    Put { key: Seq<char>, value: Seq<char> },
    Remove { key: Seq<char> },
}

/// What a response says.
pub enum RespView {
    Got { value: Option<Seq<char>> },
    PutDone,
    RemoveDone,
    Failed { message: Seq<char> },
}

impl View for Req {
    type V = ReqView;

    open spec fn view(&self) -> ReqView {
        match self {
            Req::Get(k) => ReqView::Get { key: k@ },
            Req::Put(k, v) => ReqView::Put { key: k@, value: v@ },
            Req::Remove(k) => ReqView::Remove { key: k@ },
        }
    }
}

/// What the response says.
pub open spec fn resp_view(resp: Resp) -> RespView {
    match resp {
        Ok(SuccResp::Get(Some(v))) => RespView::Got { value: Some(v@) },
        Ok(SuccResp::Get(None)) => RespView::Got { value: None },
        Ok(SuccResp::Put) => RespView::PutDone,
        Ok(SuccResp::Remove) => RespView::RemoveDone,
        Err(Error::Server(m)) => RespView::Failed { message: m@ },
    }
}

/// `{"Get":`, token by token.
pub open spec fn get_head() -> Seq<u8> {
    seq![32u8, 123u8, 32u8, 34u8, 71u8, 101u8, 116u8, 34u8, 32u8, 58u8]
}

/// `{"Set":[`, token by token.
pub open spec fn put_head() -> Seq<u8> {
    seq![32u8, 123u8, 32u8, 34u8, 83u8, 101u8, 116u8, 34u8, 32u8, 58u8, 32u8, 91u8]
}

/// `{"Remove":`, token by token.
pub open spec fn remove_head() -> Seq<u8> {
    seq![32u8, 123u8, 32u8, 34u8, 82u8, 101u8, 109u8, 111u8, 118u8, 101u8, 34u8, 32u8, 58u8]
}

/// `}`
pub open spec fn object_end() -> Seq<u8> {
    seq![32u8, 125u8]
}

/// `,`
pub open spec fn comma() -> Seq<u8> {
    seq![32u8, 44u8]
}

/// `]}`, token by token.
pub open spec fn pair_end() -> Seq<u8> {
    seq![32u8, 93u8, 32u8, 125u8]
}

/// `{"Ok":{"Get":`, token by token.
pub open spec fn got_head() -> Seq<u8> {
    seq![
        32u8, 123u8, 32u8, 34u8, 79u8, 107u8, 34u8, 32u8, 58u8, 32u8, 123u8, 32u8, 34u8, 71u8,
        101u8, 116u8, 34u8, 32u8, 58u8,
    ]
}

/// `null}}`, token by token.
pub open spec fn null_end() -> Seq<u8> {
    seq![32u8, 110u8, 117u8, 108u8, 108u8, 32u8, 125u8, 32u8, 125u8]
}

/// `}}`, token by token.
pub open spec fn nested_end() -> Seq<u8> {
    seq![32u8, 125u8, 32u8, 125u8]
}

/// `{"Ok":"Set"}`, token by token.
pub open spec fn put_done() -> Seq<u8> {
    seq![
        32u8, 123u8, 32u8, 34u8, 79u8, 107u8, 34u8, 32u8, 58u8, 32u8, 34u8, 83u8, 101u8, 116u8,
        34u8, 32u8, 125u8,
    ]
}

/// `{"Ok":"Remove"}`, token by token.
pub open spec fn remove_done() -> Seq<u8> {
    seq![
        32u8, 123u8, 32u8, 34u8, 79u8, 107u8, 34u8, 32u8, 58u8, 32u8, 34u8, 82u8, 101u8, 109u8,
        111u8, 118u8, 101u8, 34u8, 32u8, 125u8,
    ]
}

/// `{"Err":{"Server":`, token by token.
pub open spec fn failed_head() -> Seq<u8> {
    seq![
        32u8, 123u8, 32u8, 34u8, 69u8, 114u8, 114u8, 34u8, 32u8, 58u8, 32u8, 123u8, 32u8, 34u8,
        83u8, 101u8, 114u8, 118u8, 101u8, 114u8, 34u8, 32u8, 58u8,
    ]
}

/// A request can be sent when its strings are storable.
pub open spec fn sendable(req: ReqView) -> bool {
    match req {
        ReqView::Get { key } => storable(key),
        ReqView::Put { key, value } => storable(key) && storable(value),
        ReqView::Remove { key } => storable(key),
    }
}

/// The bytes of a request that can be sent: its compact form.
pub open spec fn request_bytes(req: ReqView) -> Seq<u8>
    recommends
        sendable(req),
{
    match req {
        ReqView::Get { key } => compact(get_head()) + literal_of(key) + compact(object_end()),
        ReqView::Put { key, value } => compact(put_head()) + literal_of(key) + compact(comma())
            + literal_of(value) + compact(pair_end()),
        ReqView::Remove { key } => compact(remove_head()) + literal_of(key) + compact(
            object_end(),
        ),
    }
}

/// The request that starts with the pattern `head`, which ends at `key_at`,
/// and has one string: a `Get` or a `Remove`.
pub open spec fn keyed_at(bytes: Seq<u8>, key_at: int) -> Option<(Seq<char>, int)> {
    match text_after(bytes, key_at) {
        Some((key, key_end)) => match pattern_at(bytes, key_end, object_end()) {
            Some(end) => Some((key, end)),
            None => None,
        },
        None => None,
    }
}

/// The request that the bytes open with, and where it ends.
pub open spec fn request_at(bytes: Seq<u8>) -> Option<(ReqView, int)> {
    match pattern_at(bytes, 0, get_head()) {
        Some(key_at) => match keyed_at(bytes, key_at) {
            Some((key, end)) => Some((ReqView::Get { key }, end)),
            None => None,
        },
        None => match pattern_at(bytes, 0, put_head()) {
            Some(key_at) => match text_after(bytes, key_at) {
                Some((key, key_end)) => match pattern_at(bytes, key_end, comma()) {
                    Some(value_at) => match text_after(bytes, value_at) {
                        Some((value, value_end)) => match pattern_at(
                            bytes,
                            value_end,
                            pair_end(),
                        ) {
                            Some(end) => Some((ReqView::Put { key, value }, end)),
                            None => None,
                        },
                        None => None,
                    },
                    None => None,
                },
                None => None,
            },
            None => match pattern_at(bytes, 0, remove_head()) {
                Some(key_at) => match keyed_at(bytes, key_at) {
                    Some((key, end)) => Some((ReqView::Remove { key }, end)),
                    None => None,
                },
                None => None,
            },
        },
    }
}

/// A response can be sent when its strings are storable.
pub open spec fn answerable(resp: RespView) -> bool {
    match resp {
        RespView::Got { value: Some(v) } => storable(v),
        RespView::Failed { message } => storable(message),
        _ => true,
    }
}

/// The bytes of a response that can be sent: its compact form.
pub open spec fn response_bytes(resp: RespView) -> Seq<u8>
    recommends
        answerable(resp),
{
    match resp {
        RespView::Got { value: Some(v) } => compact(got_head()) + literal_of(v) + compact(
            nested_end(),
        ),
        RespView::Got { value: None } => compact(got_head()) + compact(null_end()),
        RespView::PutDone => compact(put_done()),
        RespView::RemoveDone => compact(remove_done()),
        RespView::Failed { message } => compact(failed_head()) + literal_of(message) + compact(
            nested_end(),
        ),
    }
}

/// The string that stands behind `at`, and where the two braces end that
/// close the response behind it.
pub open spec fn nested_at(bytes: Seq<u8>, at: int) -> Option<(Seq<char>, int)> {
    match text_after(bytes, at) {
        Some((s, s_end)) => match pattern_at(bytes, s_end, nested_end()) {
            Some(end) => Some((s, end)),
            None => None,
        },
        None => None,
    }
}

/// The response that the bytes open with, and where it ends.
pub open spec fn response_at(bytes: Seq<u8>) -> Option<(RespView, int)> {
    match pattern_at(bytes, 0, got_head()) {
        Some(value_at) => match pattern_at(bytes, value_at, null_end()) {
            Some(end) => Some((RespView::Got { value: None }, end)),
            None => match nested_at(bytes, value_at) {
                Some((v, end)) => Some((RespView::Got { value: Some(v) }, end)),
                None => None,
            },
        },
        None => match pattern_at(bytes, 0, put_done()) {
            Some(end) => Some((RespView::PutDone, end)),
            None => match pattern_at(bytes, 0, remove_done()) {
                Some(end) => Some((RespView::RemoveDone, end)),
                None => match pattern_at(bytes, 0, failed_head()) {
                    Some(message_at) => match nested_at(bytes, message_at) {
                        Some((message, end)) => Some((RespView::Failed { message }, end)),
                        None => None,
                    },
                    None => None,
                },
            },
        },
    }
}

/// The patterns of the messages are made of tokens.
pub proof fn lemma_message_patterns()
    ensures
        tokens_from(get_head(), 0),
        tokens_from(put_head(), 0),
        tokens_from(remove_head(), 0),
        tokens_from(object_end(), 0),
        tokens_from(comma(), 0),
        tokens_from(pair_end(), 0),
        tokens_from(got_head(), 0),
        tokens_from(null_end(), 0),
        tokens_from(nested_end(), 0),
        tokens_from(put_done(), 0),
        tokens_from(remove_done(), 0),
        tokens_from(failed_head(), 0),
{
    reveal_with_fuel(tokens_from, 26);
}

/// No bytes open two kinds of request.
pub proof fn lemma_request_heads_differ(bytes: Seq<u8>)
    ensures
        !(pattern_at(bytes, 0, get_head()) is Some && pattern_at(bytes, 0, put_head()) is Some),
        !(pattern_at(bytes, 0, get_head()) is Some && pattern_at(bytes, 0, remove_head())
            is Some),
        !(pattern_at(bytes, 0, put_head()) is Some && pattern_at(bytes, 0, remove_head())
            is Some),
{
    reveal_with_fuel(match_pat, 6);
}

/// No bytes open two kinds of response.
pub proof fn lemma_response_heads_differ(bytes: Seq<u8>)
    ensures
        !(pattern_at(bytes, 0, got_head()) is Some && pattern_at(bytes, 0, put_done()) is Some),
        !(pattern_at(bytes, 0, got_head()) is Some && pattern_at(bytes, 0, remove_done())
            is Some),
        !(pattern_at(bytes, 0, got_head()) is Some && pattern_at(bytes, 0, failed_head())
            is Some),
        !(pattern_at(bytes, 0, put_done()) is Some && pattern_at(bytes, 0, remove_done())
            is Some),
        !(pattern_at(bytes, 0, put_done()) is Some && pattern_at(bytes, 0, failed_head())
            is Some),
        !(pattern_at(bytes, 0, remove_done()) is Some && pattern_at(bytes, 0, failed_head())
            is Some),
{
    reveal_with_fuel(match_pat, 14);
}

/// Where a literal stands, `null` does not.
pub proof fn lemma_literal_is_not_null(bytes: Seq<u8>, at: int)
    requires
        0 <= at < bytes.len(),
        bytes[at] == 34u8,
    ensures
        pattern_at(bytes, at, null_end()) is None,
{
    reveal_with_fuel(match_pat, 3);
}

/// The bytes of a request that can be sent read back as that request.
pub proof fn lemma_request_reads_back(req: ReqView)
    requires
        sendable(req),
    ensures
        request_at(request_bytes(req)) == Some((req, request_bytes(req).len() as int)),
{
    let bytes = request_bytes(req);
    let none = Seq::<u8>::empty();
    lemma_message_patterns();
    lemma_request_heads_differ(bytes);
    match req {
        ReqView::Get { key } => {
            let head = compact(get_head());
            let tail = compact(object_end());
            assert(bytes =~= none + head + (literal_of(key) + tail));
            lemma_compact_matches_within(none, get_head(), literal_of(key) + tail);
            assert(bytes =~= head + literal_of(key) + tail);
            lemma_storable_reads_back(head, key, tail);
            assert(bytes =~= (head + literal_of(key)) + tail + none);
            lemma_compact_matches_within(head + literal_of(key), object_end(), none);
        },
        ReqView::Put { key, value } => {
            let head = compact(put_head());
            let mid = compact(comma());
            let tail = compact(pair_end());
            let behind_head = literal_of(key) + mid + literal_of(value) + tail;
            assert(bytes =~= none + head + behind_head);
            lemma_compact_matches_within(none, put_head(), behind_head);
            let behind_key = mid + literal_of(value) + tail;
            assert(bytes =~= head + literal_of(key) + behind_key);
            lemma_storable_reads_back(head, key, behind_key);
            let upto_key = head + literal_of(key);
            assert(bytes =~= upto_key + mid + (literal_of(value) + tail));
            lemma_compact_matches_within(upto_key, comma(), literal_of(value) + tail);
            let upto_mid = upto_key + mid;
            assert(bytes =~= upto_mid + literal_of(value) + tail);
            lemma_storable_reads_back(upto_mid, value, tail);
            let upto_value = upto_mid + literal_of(value);
            assert(bytes =~= upto_value + tail + none);
            lemma_compact_matches_within(upto_value, pair_end(), none);
        },
        ReqView::Remove { key } => {
            let head = compact(remove_head());
            let tail = compact(object_end());
            assert(bytes =~= none + head + (literal_of(key) + tail));
            lemma_compact_matches_within(none, remove_head(), literal_of(key) + tail);
            assert(bytes =~= head + literal_of(key) + tail);
            lemma_storable_reads_back(head, key, tail);
            assert(bytes =~= (head + literal_of(key)) + tail + none);
            lemma_compact_matches_within(head + literal_of(key), object_end(), none);
        },
    }
}

/// The bytes of a response that can be sent read back as that response.
pub proof fn lemma_response_reads_back(resp: RespView)
    requires
        answerable(resp),
    ensures
        response_at(response_bytes(resp)) == Some((resp, response_bytes(resp).len() as int)),
{
    let bytes = response_bytes(resp);
    let none = Seq::<u8>::empty();
    lemma_message_patterns();
    lemma_response_heads_differ(bytes);
    match resp {
        RespView::Got { value: Some(v) } => {
            let head = compact(got_head());
            let tail = compact(nested_end());
            assert(bytes =~= none + head + (literal_of(v) + tail));
            lemma_compact_matches_within(none, got_head(), literal_of(v) + tail);
            assert(bytes =~= head + literal_of(v) + tail);
            lemma_storable_reads_back(head, v, tail);
            assert(bytes[head.len() as int] == literal_of(v)[0]);
            lemma_literal_is_not_null(bytes, head.len() as int);
            assert(bytes =~= (head + literal_of(v)) + tail + none);
            lemma_compact_matches_within(head + literal_of(v), nested_end(), none);
        },
        RespView::Got { value: None } => {
            let head = compact(got_head());
            let tail = compact(null_end());
            assert(bytes =~= none + head + tail);
            lemma_compact_matches_within(none, got_head(), tail);
            assert(bytes =~= head + tail + none);
            lemma_compact_matches_within(head, null_end(), none);
        },
        RespView::PutDone => {
            assert(bytes =~= none + compact(put_done()) + none);
            lemma_compact_matches_within(none, put_done(), none);
        },
        RespView::RemoveDone => {
            assert(bytes =~= none + compact(remove_done()) + none);
            lemma_compact_matches_within(none, remove_done(), none);
        },
        RespView::Failed { message } => {
            let head = compact(failed_head());
            let tail = compact(nested_end());
            assert(bytes =~= none + head + (literal_of(message) + tail));
            lemma_compact_matches_within(none, failed_head(), literal_of(message) + tail);
            assert(bytes =~= head + literal_of(message) + tail);
            lemma_storable_reads_back(head, message, tail);
            assert(bytes =~= (head + literal_of(message)) + tail + none);
            lemma_compact_matches_within(head + literal_of(message), nested_end(), none);
        },
    }
}

fn get_head_pattern() -> (pat: Vec<u8>)
    ensures
        pat@ == get_head(),
{
    let pat = vec![32u8, 123u8, 32u8, 34u8, 71u8, 101u8, 116u8, 34u8, 32u8, 58u8];
    assert(pat@ =~= get_head());
    pat
}

fn put_head_pattern() -> (pat: Vec<u8>)
    ensures
        pat@ == put_head(),
{
    let pat = vec![32u8, 123u8, 32u8, 34u8, 83u8, 101u8, 116u8, 34u8, 32u8, 58u8, 32u8, 91u8];
    assert(pat@ =~= put_head());
    pat
}

fn remove_head_pattern() -> (pat: Vec<u8>)
    ensures
        pat@ == remove_head(),
{
    let pat = vec![
        32u8, 123u8, 32u8, 34u8, 82u8, 101u8, 109u8, 111u8, 118u8, 101u8, 34u8, 32u8, 58u8,
    ];
    assert(pat@ =~= remove_head());
    pat
}

fn object_end_pattern() -> (pat: Vec<u8>)
    ensures
        pat@ == object_end(),
{
    let pat = vec![32u8, 125u8];
    assert(pat@ =~= object_end());
    pat
}

fn comma_pattern() -> (pat: Vec<u8>)
    ensures
        pat@ == comma(),
{
    let pat = vec![32u8, 44u8];
    assert(pat@ =~= comma());
    pat
}

fn pair_end_pattern() -> (pat: Vec<u8>)
    ensures
        pat@ == pair_end(),
{
    let pat = vec![32u8, 93u8, 32u8, 125u8];
    assert(pat@ =~= pair_end());
    pat
}

fn got_head_pattern() -> (pat: Vec<u8>)
    ensures
        pat@ == got_head(),
{
    let pat = vec![
        32u8, 123u8, 32u8, 34u8, 79u8, 107u8, 34u8, 32u8, 58u8, 32u8, 123u8, 32u8, 34u8, 71u8,
        101u8, 116u8, 34u8, 32u8, 58u8,
    ];
    assert(pat@ =~= got_head());
    pat
}

fn null_end_pattern() -> (pat: Vec<u8>)
    ensures
        pat@ == null_end(),
{
    let pat = vec![32u8, 110u8, 117u8, 108u8, 108u8, 32u8, 125u8, 32u8, 125u8];
    assert(pat@ =~= null_end());
    pat
}

fn nested_end_pattern() -> (pat: Vec<u8>)
    ensures
        pat@ == nested_end(),
{
    let pat = vec![32u8, 125u8, 32u8, 125u8];
    assert(pat@ =~= nested_end());
    pat
}

fn put_done_pattern() -> (pat: Vec<u8>)
    ensures
        pat@ == put_done(),
{
    let pat = vec![
        32u8, 123u8, 32u8, 34u8, 79u8, 107u8, 34u8, 32u8, 58u8, 32u8, 34u8, 83u8, 101u8, 116u8,
        34u8, 32u8, 125u8,
    ];
    assert(pat@ =~= put_done());
    pat
}

fn remove_done_pattern() -> (pat: Vec<u8>)
    ensures
        pat@ == remove_done(),
{
    let pat = vec![
        32u8, 123u8, 32u8, 34u8, 79u8, 107u8, 34u8, 32u8, 58u8, 32u8, 34u8, 82u8, 101u8, 109u8,
        111u8, 118u8, 101u8, 34u8, 32u8, 125u8,
    ];
    assert(pat@ =~= remove_done());
    pat
}

fn failed_head_pattern() -> (pat: Vec<u8>)
    ensures
        pat@ == failed_head(),
{
    let pat = vec![
        32u8, 123u8, 32u8, 34u8, 69u8, 114u8, 114u8, 34u8, 32u8, 58u8, 32u8, 123u8, 32u8, 34u8,
        83u8, 101u8, 114u8, 118u8, 101u8, 114u8, 34u8, 32u8, 58u8,
    ];
    assert(pat@ =~= failed_head());
    pat
}

/// Writes a request out as bytes: `Some` exactly for the requests that can
/// be sent, with the bytes that read back as the request.
pub fn encode_request(req: &Req) -> (encoded: Option<Vec<u8>>)
    ensures
        sendable(req@) ==> encoded is Some && encoded.unwrap()@ == request_bytes(req@),
        !sendable(req@) ==> encoded is None,
{
    let mut out: Vec<u8> = Vec::new();
    match req {
        Req::Get(k) => {
            append_compact(&mut out, get_head_pattern().as_slice());
            if !write_text(&mut out, k) {
                return None;
            }
            append_compact(&mut out, object_end_pattern().as_slice());
            assert(out@ =~= request_bytes(req@));
        },
        Req::Put(k, v) => {
            append_compact(&mut out, put_head_pattern().as_slice());
            if !write_text(&mut out, k) {
                return None;
            }
            append_compact(&mut out, comma_pattern().as_slice());
            if !write_text(&mut out, v) {
                return None;
            }
            append_compact(&mut out, pair_end_pattern().as_slice());
            assert(out@ =~= request_bytes(req@));
        },
        Req::Remove(k) => {
            append_compact(&mut out, remove_head_pattern().as_slice());
            if !write_text(&mut out, k) {
                return None;
            }
            append_compact(&mut out, object_end_pattern().as_slice());
            assert(out@ =~= request_bytes(req@));
        },
    }
    Some(out)
}

/// Reads the one string of a `Get` or a `Remove` and the brace behind it.
fn read_keyed(bytes: &[u8], key_at: usize) -> (found: Option<String>)
    ensures
        match found {
            Some(key) => keyed_at(bytes@, key_at as int) is Some && keyed_at(
                bytes@,
                key_at as int,
            ).unwrap().0 == key@,
            None => keyed_at(bytes@, key_at as int) is None,
        },
{
    let (key, key_end) = match read_text_after(bytes, key_at) {
        Some(found) => found,
        None => { return None; },
    };
    match match_pattern(bytes, key_end, object_end_pattern().as_slice()) {
        Some(_) => Some(key),
        None => None,
    }
}

/// Reads the request that the bytes open with. What follows the request is
/// not looked at.
///
/// White space before the request and between its tokens is passed over.
pub fn decode_request(bytes: &[u8]) -> (decoded: Option<Req>)
    ensures
        match decoded {
            Some(req) => request_at(bytes@) is Some && request_at(bytes@).unwrap().0 == req@,
            None => request_at(bytes@) is None,
        },
{
    match match_pattern(bytes, 0, get_head_pattern().as_slice()) {
        Some(key_at) => match read_keyed(bytes, key_at) {
            Some(key) => Some(Req::Get(key)),
            None => None,
        },
        None => match match_pattern(bytes, 0, put_head_pattern().as_slice()) {
            Some(key_at) => {
                let (k, key_end) = match read_text_after(bytes, key_at) {
                    Some(found) => found,
                    None => { return None; },
                };
                let value_at = match match_pattern(bytes, key_end, comma_pattern().as_slice()) {
                    Some(value_at) => value_at,
                    None => { return None; },
                };
                let (v, value_end) = match read_text_after(bytes, value_at) {
                    Some(found) => found,
                    None => { return None; },
                };
                match match_pattern(bytes, value_end, pair_end_pattern().as_slice()) {
                    Some(_) => Some(Req::Put(k, v)),
                    None => None,
                }
            },
            None => match match_pattern(bytes, 0, remove_head_pattern().as_slice()) {
                Some(key_at) => match read_keyed(bytes, key_at) {
                    Some(key) => Some(Req::Remove(key)),
                    None => None,
                },
                None => None,
            },
        },
    }
}

/// Writes a response out as bytes: `Some` exactly for the responses that
/// can be sent, with the bytes that read back as the response.
pub fn encode_response(resp: &Resp) -> (encoded: Option<Vec<u8>>)
    ensures
        answerable(resp_view(*resp)) ==> encoded is Some && encoded.unwrap()@ == response_bytes(
            resp_view(*resp),
        ),
        !answerable(resp_view(*resp)) ==> encoded is None,
{
    let mut out: Vec<u8> = Vec::new();
    match resp {
        Ok(SuccResp::Get(Some(v))) => {
            append_compact(&mut out, got_head_pattern().as_slice());
            if !write_text(&mut out, v) {
                return None;
            }
            append_compact(&mut out, nested_end_pattern().as_slice());
            assert(out@ =~= response_bytes(resp_view(*resp)));
        },
        Ok(SuccResp::Get(None)) => {
            append_compact(&mut out, got_head_pattern().as_slice());
            append_compact(&mut out, null_end_pattern().as_slice());
            assert(out@ =~= response_bytes(resp_view(*resp)));
        },
        Ok(SuccResp::Put) => {
            append_compact(&mut out, put_done_pattern().as_slice());
            assert(out@ =~= response_bytes(resp_view(*resp)));
        },
        Ok(SuccResp::Remove) => {
            append_compact(&mut out, remove_done_pattern().as_slice());
            assert(out@ =~= response_bytes(resp_view(*resp)));
        },
        Err(Error::Server(m)) => {
            append_compact(&mut out, failed_head_pattern().as_slice());
            if !write_text(&mut out, m) {
                return None;
            }
            append_compact(&mut out, nested_end_pattern().as_slice());
            assert(out@ =~= response_bytes(resp_view(*resp)));
        },
    }
    Some(out)
}

/// Reads the string behind `at` and the two braces behind it.
fn read_nested(bytes: &[u8], at: usize) -> (found: Option<String>)
    ensures
        match found {
            Some(s) => nested_at(bytes@, at as int) is Some && nested_at(
                bytes@,
                at as int,
            ).unwrap().0 == s@,
            None => nested_at(bytes@, at as int) is None,
        },
{
    let (s, s_end) = match read_text_after(bytes, at) {
        Some(found) => found,
        None => { return None; },
    };
    match match_pattern(bytes, s_end, nested_end_pattern().as_slice()) {
        Some(_) => Some(s),
        None => None,
    }
}

/// Reads the response that the bytes open with. What follows the response
/// is not looked at.
///
/// White space before the response and between its tokens is passed over.
pub fn decode_response(bytes: &[u8]) -> (decoded: Option<Resp>)
    ensures
        match decoded {
            Some(resp) => response_at(bytes@) is Some && response_at(bytes@).unwrap().0
                == resp_view(resp),
            None => response_at(bytes@) is None,
        },
{
    match match_pattern(bytes, 0, got_head_pattern().as_slice()) {
        Some(value_at) => match match_pattern(bytes, value_at, null_end_pattern().as_slice()) {
            Some(_) => Some(Ok(SuccResp::Get(None))),
            None => match read_nested(bytes, value_at) {
                Some(v) => Some(Ok(SuccResp::Get(Some(v)))),
                None => None,
            },
        },
        None => match match_pattern(bytes, 0, put_done_pattern().as_slice()) {
            Some(_) => Some(Ok(SuccResp::Put)),
            None => match match_pattern(bytes, 0, remove_done_pattern().as_slice()) {
                Some(_) => Some(Ok(SuccResp::Remove)),
                None => match match_pattern(bytes, 0, failed_head_pattern().as_slice()) {
                    Some(message_at) => match read_nested(bytes, message_at) {
                        Some(m) => Some(Err(Error::Server(m))),
                        None => None,
                    },
                    None => None,
                },
            },
        },
    }
}

} // verus!
