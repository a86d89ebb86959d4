//! What the server does with one request: read it, apply it to the engine,
//! and write the response.

use vstd::prelude::*;
use crate::error::{KvStoreError, Result};
use crate::json::{skip_space, skip_spaces};
use crate::network::{
    answerable, decode_request, encode_response, request_at, resp_view, response_bytes, Error, Req,
    ReqView, Resp, SuccResp,
};
use crate::KvsEngine;

verus! {

/// Error of the server.
#[derive(Debug, Clone, PartialEq, Eq)]
pub enum ServerError {
    /// An error of the store.
    KvStore(KvStoreError),
    /// The client closed the stream before it sent a request.
    ClosedStream,
    /// An input or output error on the connection.
    Io,
    /// The request is no request, or the response cannot be written.
    SerdeJson,
    /// The directory holds the data of another engine.
    EngineMissMatch,
}

impl From<KvStoreError> for ServerError {
    fn from(err: KvStoreError) -> (wrapped: ServerError) {
        ServerError::KvStore(err)
    }
}

impl vstd::std_specs::convert::FromSpecImpl<KvStoreError> for ServerError {
    open spec fn obeys_from_spec() -> bool {
        true
    }

    open spec fn from_spec(err: KvStoreError) -> ServerError {
        ServerError::KvStore(err)
    }
}

/// The response to a `get` of the engine that ended with `got`: the value, or
/// the error in words.
pub fn get_response(got: Result<Option<String>>) -> (resp: Resp)
    ensures
        match got {
            Ok(value) => resp == Ok::<SuccResp, Error>(SuccResp::Get(value)),
            Err(e) => resp matches Err(Error::Server(m)) && m@ == e.spec_message(),
        },
{
    match got {
        Ok(value) => Ok(SuccResp::Get(value)),
        Err(e) => Err(Error::Server(e.message())),
    }
}

/// The response to a `set` of the engine that ended with `done`.
pub fn put_response(done: Result<()>) -> (resp: Resp)
    ensures
        match done {
            Ok(_) => resp == Ok::<SuccResp, Error>(SuccResp::Put),
            Err(e) => resp matches Err(Error::Server(m)) && m@ == e.spec_message(),
        },
{
    match done {
        Ok(()) => Ok(SuccResp::Put),
        Err(e) => Err(Error::Server(e.message())),
    }
}

/// The response to a `remove` of the engine that ended with `done`.
pub fn remove_response(done: Result<()>) -> (resp: Resp)
    ensures
        match done {
            Ok(_) => resp == Ok::<SuccResp, Error>(SuccResp::Remove),
            Err(e) => resp matches Err(Error::Server(m)) && m@ == e.spec_message(),
        },
{
    match done {
        Ok(()) => Ok(SuccResp::Remove),
        Err(e) => Err(Error::Server(e.message())),
    }
}

/// `resp` answers `req`, served by an engine that was `before` and is
/// `after`: the engine made the one call that the request asks for, and the
/// response reports an outcome that this call may have, an error in the words
/// of the error.
pub open spec fn serves<E: KvsEngine>(req: ReqView, before: E, after: E, resp: Resp) -> bool {
    match req {
        ReqView::Get { key } => after == before && match resp {
            Ok(SuccResp::Get(value)) => before.may_get(key, Ok(value)),
            Ok(_) => false,
            Err(Error::Server(m)) => exists|e: KvStoreError|
                before.may_get(key, Err(e)) && m@ == #[trigger] e.spec_message(),
        },
        ReqView::Put { key, value } => match resp {
            Ok(SuccResp::Put) => before.may_set(key, value, after, Ok(())),
            Ok(_) => false,
            Err(Error::Server(m)) => exists|e: KvStoreError|
                before.may_set(key, value, after, Err(e)) && m@ == #[trigger] e.spec_message(),
        },
        ReqView::Remove { key } => match resp {
            Ok(SuccResp::Remove) => before.may_remove(key, after, Ok(())),
            Ok(_) => false,
            Err(Error::Server(m)) => exists|e: KvStoreError|
                before.may_remove(key, after, Err(e)) && m@ == #[trigger] e.spec_message(),
        },
    }
}

/// Applies a request to the engine and gives the response.
pub fn apply<E: KvsEngine>(req: Req, db: &mut E) -> (resp: Resp)
    requires
        old(db).valid(),
    ensures
        final(db).valid(),
        serves(req@, *old(db), *final(db), resp),
{
    match req {
        Req::Get(k) => {
            let got = db.get(k);
            let ghost outcome = got;
            let resp = get_response(got);
            proof {
                if let Err(e) = outcome {
                    assert(old(db).may_get(k@, Err(e)) && resp->Err_0->Server_0@ == e.spec_message());
                }
            }
            resp
        },
        Req::Put(k, v) => {
            let done = db.set(k, v);
            let ghost outcome = done;
            let resp = put_response(done);
            proof {
                match outcome {
                    Ok(unit) => {
                        assert(outcome == Ok::<(), KvStoreError>(()));
                    },
                    Err(e) => {
                        assert(old(db).may_set(k@, v@, *db, Err(e)) && resp->Err_0->Server_0@
                            == e.spec_message());
                    },
                }
            }
            resp
        },
        Req::Remove(k) => {
            let done = db.remove(k);
            let ghost outcome = done;
            let resp = remove_response(done);
            proof {
                match outcome {
                    Ok(unit) => {
                        assert(outcome == Ok::<(), KvStoreError>(()));
                    },
                    Err(e) => {
                        assert(old(db).may_remove(k@, *db, Err(e)) && resp->Err_0->Server_0@
                            == e.spec_message());
                    },
                }
            }
            resp
        },
    }
}

/// Serves the request that the bytes of a connection open with, and gives
/// the bytes of the response.
///
/// No bytes at all, or nothing but white space, give `ClosedStream`: the
/// stream ended before a request came. Other bytes that open with no request
/// give `SerdeJson`. The engine is not touched in either case. White space
/// before the request and between its tokens is passed over. Otherwise the
/// request is applied to the engine, and the response is written out, or
/// `SerdeJson` is given where it cannot be written.
pub fn handle<E: KvsEngine>(request: &[u8], db: &mut E) -> (reply: core::result::Result<
    Vec<u8>,
    ServerError,
>)
    requires
        old(db).valid(),
    ensures
        final(db).valid(),
        skip_space(request@, 0) >= request@.len() ==> reply == Err::<Vec<u8>, ServerError>(
            ServerError::ClosedStream,
        ) && *final(db) == *old(db),
        skip_space(request@, 0) < request@.len() && request_at(request@) is None ==> reply
            == Err::<Vec<u8>, ServerError>(ServerError::SerdeJson) && *final(db) == *old(db),
        skip_space(request@, 0) < request@.len() && request_at(request@) is Some ==> exists|
            resp: Resp,
        |
            {
                &&& #[trigger] serves(request_at(request@).unwrap().0, *old(db), *final(db), resp)
                &&& answerable(resp_view(resp)) ==> reply is Ok && reply.unwrap()@
                    == response_bytes(resp_view(resp))
                &&& !answerable(resp_view(resp)) ==> reply == Err::<Vec<u8>, ServerError>(
                    ServerError::SerdeJson,
                )
            },
{
    if skip_spaces(request, 0) >= request.len() {
        return Err(ServerError::ClosedStream);
    }
    let req = match decode_request(request) {
        Some(req) => req,
        None => { return Err(ServerError::SerdeJson); },
    };
    let resp = apply(req, db);
    match encode_response(&resp) {
        Some(bytes) => Ok(bytes),
        None => Err(ServerError::SerdeJson),
    }
}

/// The engines that a server can run.
#[derive(Debug, Clone, Copy, PartialEq, Eq, Structural)]
pub enum EngineKind {
    /// The log-structured engine of this library.
    Primary,
    /// The page-cache engine.
    Alt,
}

impl EngineKind {
    /// The name under which the engine is chosen and marked.
    pub open spec fn spec_name(self) -> Seq<char> {
        match self {
            EngineKind::Primary => "primary"@,
            EngineKind::Alt => "alt"@,
        }
    }

    /// The engine that goes by `name`, if one does.
    pub open spec fn spec_from_name(name: Seq<char>) -> Option<EngineKind> {
        if name == "primary"@ {
            Some(EngineKind::Primary)
        } else if name == "alt"@ {
            Some(EngineKind::Alt)
        } else {
            None
        }
    }

    /// The name under which the engine is chosen and marked: `primary` or
    /// `alt`.
    pub fn name(&self) -> (name: String)
        ensures
            name@ == self.spec_name(),
    {
        match self {
            EngineKind::Primary => "primary".to_owned(),
            EngineKind::Alt => "alt".to_owned(),
        }
    }

    /// The engine that goes by `name`, if one does.
    pub fn from_name(name: &String) -> (kind: Option<EngineKind>)
        ensures
            kind == EngineKind::spec_from_name(name@),
    {
        if *name == "primary".to_owned() {
            Some(EngineKind::Primary)
        } else if *name == "alt".to_owned() {
            Some(EngineKind::Alt)
        } else {
            None
        }
    }
}

/// The name of an engine is read back as that engine.
pub proof fn lemma_engine_names_read_back(kind: EngineKind)
    ensures
        EngineKind::spec_from_name(kind.spec_name()) == Some(kind),
{
    reveal_strlit("primary");
    reveal_strlit("alt");
    assert("primary"@.len() != "alt"@.len());
}

/// Decides whether a server may start with the engine `chosen` in a
/// directory whose marker names the engine `stored`.
///
/// Without a marker it may, and the marker is to be written: `Ok(true)`.
/// With the marker of the chosen engine it may, and nothing is to be written:
/// `Ok(false)`. With the marker of the other engine it may not:
/// `EngineMissMatch`.
pub fn check_engine(stored: Option<EngineKind>, chosen: EngineKind) -> (start: core::result::Result<
    bool,
    ServerError,
>)
    ensures
        start == match stored {
            None => Ok::<bool, ServerError>(true),
            Some(kind) => if kind == chosen {
                Ok::<bool, ServerError>(false)
            } else {
                Err::<bool, ServerError>(ServerError::EngineMissMatch)
            },
        },
{
    match stored {
        None => Ok(true),
        Some(kind) => if kind == chosen {
            Ok(false)
        } else {
            Err(ServerError::EngineMissMatch)
        },
    }
}

} // verus!
