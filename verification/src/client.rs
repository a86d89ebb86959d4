//! What the client makes of the server's response.

use vstd::prelude::*;
use crate::network::{Error, Resp, SuccResp};

verus! {

/// What the client is to do once it has the response.
#[derive(Debug, Clone, PartialEq, Eq)]
pub struct Outcome {
    /// The line to print to standard output, if any.
    pub stdout: Option<String>,
    /// The line to print to standard error, if any.
    pub stderr: Option<String>,
    /// The error with which the client is to end, if it is to fail.
    pub failure: Option<Error>,
}

/// The words in which a missing key is reported.
pub open spec fn key_not_found() -> Seq<char> {
    "Key not found"@
}

/// Decides what the client prints and how it ends.
///
/// A value is printed to standard output, and so is `Key not found` where a
/// `get` found none; both end well, as a `set` and a `remove` that succeeded
/// do in silence. An error of the server ends the client with that error;
/// where it says `Key not found`, these words go to standard error first.
pub fn outcome(resp: Resp) -> (out: Outcome)
    ensures
        match resp {
            Ok(SuccResp::Get(Some(v))) => out.stdout == Some(v) && out.stderr.is_none()
                && out.failure.is_none(),
            Ok(SuccResp::Get(None)) => out.stdout.is_some() && out.stdout.unwrap()@
                == key_not_found() && out.stderr.is_none() && out.failure.is_none(),
            Ok(SuccResp::Put) | Ok(SuccResp::Remove) => out.stdout.is_none()
                && out.stderr.is_none() && out.failure.is_none(),
            Err(Error::Server(m)) => out.stdout.is_none() && out.failure == Some(
                Error::Server(m),
            ) && if m@ == key_not_found() {
                out.stderr.is_some() && out.stderr.unwrap()@ == key_not_found()
            } else {
                out.stderr.is_none()
            },
        },
{
    let key_not_found = "Key not found".to_owned();
    match resp {
        Ok(SuccResp::Get(Some(v))) => Outcome { stdout: Some(v), stderr: None, failure: None },
        Ok(SuccResp::Get(None)) => Outcome {
            stdout: Some(key_not_found),
            stderr: None,
            failure: None,
        },
        Ok(SuccResp::Put) => Outcome { stdout: None, stderr: None, failure: None },
        Ok(SuccResp::Remove) => Outcome { stdout: None, stderr: None, failure: None },
        Err(Error::Server(m)) => {
            let stderr = if m == key_not_found {
                Some(key_not_found)
            } else {
                None
            };
            Outcome { stdout: None, stderr, failure: Some(Error::Server(m)) }
        },
    }
}

} // verus!
