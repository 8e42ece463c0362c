//! The request/response protocol between client and server.
//!
//! Each message travels as a frame: a big-endian 32-bit length, then that
//! many bytes of payload. The payloads are serialized messages; this module
//! frames them, and decides what the server answers and what a client makes
//! of the answer.
use crate::codec::{append_be32, append_bytes, be32, be32_at, lemma_be32_round_trip, read_be32};
use crate::error::KvsError;
use vstd::prelude::*;
use vstd::string::*;

verus! {

/// Largest payload that a frame can carry.
pub const MAX_FRAME_LEN: u64 = 4294967295;

/// What a client asks of the server.
#[derive(Clone, Debug, PartialEq, Eq)]
pub enum Request {
    Get { key: String },
    Put { key: String, value: String },
    Remove { key: String },
}

/// What the server answers, one response per request and in their order.
#[derive(Clone, Debug, PartialEq, Eq)]
pub enum Response {
    /// The value of the key, or `None` when it is not in the store.
    Get(Option<String>),
    /// The key was set.
    Put,
    /// The key was removed.
    Remove,
    /// The operation failed; the message says why.
    Failed(String),
}

/// The answer to a `Get` request, in the protocol where each request kind
/// has its own response type.
#[derive(Clone, Debug, PartialEq, Eq)]
pub enum GetResponse {
    Found(Option<String>),
    Failed(String),
}

/// The answer to a `Put` request, in the protocol where each request kind
/// has its own response type.
#[derive(Clone, Debug, PartialEq, Eq)]
pub enum SetResponse {
    Done,
    Failed(String),
}

/// The answer to a `Remove` request, in the protocol where each request kind
/// has its own response type.
#[derive(Clone, Debug, PartialEq, Eq)]
pub enum RemoveResponse {
    Done,
    Failed(String),
}

/// The text of an error for a response that answers another kind of request.
pub open spec fn mismatch_text() -> Seq<char> {
    "Invalid response"@
}

/// The text that the server sends back for `e`.
pub open spec fn error_text(e: KvsError) -> Seq<char> {
    match e {
        KvsError::Io(m) => "IO error: "@ + m@,
        KvsError::Serde(m) => "serde_json error: "@ + m@,
        KvsError::Encoding(_) => "Encoding error"@,
        KvsError::KeyNotFound => "Key not found"@,
        KvsError::UnexpectedCommandType => "Unexpected command type"@,
        KvsError::Utf8(m) => "UTF-8 error: "@ + m@,
        KvsError::StringError(m) => m@,
    }
}

impl KvsError {
    /// The text of this error, as the server sends it back.
    pub fn message(&self) -> (r: String)
        ensures
            r@ == error_text(*self),
    {
        match self {
            KvsError::Io(m) => String::from_str("IO error: ").concat(m.as_str()),
            KvsError::Serde(m) => String::from_str("serde_json error: ").concat(m.as_str()),
            KvsError::Encoding(_) => String::from_str("Encoding error"),
            KvsError::KeyNotFound => String::from_str("Key not found"),
            KvsError::UnexpectedCommandType => String::from_str("Unexpected command type"),
            KvsError::Utf8(m) => String::from_str("UTF-8 error: ").concat(m.as_str()),
            KvsError::StringError(m) => m.clone(),
        }
    }
}

/// The response to a `Get` whose result is `result`.
pub fn get_response(result: Result<Option<String>, KvsError>) -> (r: Response)
    ensures
        match result {
            Ok(v) => r == Response::Get(v),
            Err(e) => r matches Response::Failed(m) && m@ == error_text(e),
        },
{
    match result {
        Ok(v) => Response::Get(v),
        Err(e) => Response::Failed(e.message()),
    }
}

/// The response to a `Put` whose result is `result`.
pub fn put_response(result: Result<(), KvsError>) -> (r: Response)
    ensures
        match result {
            Ok(()) => r == Response::Put,
            Err(e) => r matches Response::Failed(m) && m@ == error_text(e),
        },
{
    match result {
        Ok(()) => Response::Put,
        Err(e) => Response::Failed(e.message()),
    }
}

/// The response to a `Remove` whose result is `result`.
pub fn remove_response(result: Result<(), KvsError>) -> (r: Response)
    ensures
        match result {
            Ok(()) => r == Response::Remove,
            Err(e) => r matches Response::Failed(m) && m@ == error_text(e),
        },
{
    match result {
        Ok(()) => Response::Remove,
        Err(e) => Response::Failed(e.message()),
    }
}

/// What a client makes of the answer to its `Get`.
pub fn expect_get(resp: Response) -> (r: Result<Option<String>, KvsError>)
    ensures
        match resp {
            Response::Get(v) => r == Ok::<Option<String>, KvsError>(v),
            Response::Failed(m) => r == Err::<Option<String>, KvsError>(KvsError::StringError(m)),
            _ => r matches Err(KvsError::StringError(m)) && m@ == mismatch_text(),
        },
{
    match resp {
        Response::Get(v) => Ok(v),
        Response::Failed(m) => Err(KvsError::StringError(m)),
        _ => Err(KvsError::StringError(String::from_str("Invalid response"))),
    }
}

/// What a client makes of the answer to its `Put`.
pub fn expect_put(resp: Response) -> (r: Result<(), KvsError>)
    ensures
        match resp {
            Response::Put => r == Ok::<(), KvsError>(()),
            Response::Failed(m) => r == Err::<(), KvsError>(KvsError::StringError(m)),
            _ => r matches Err(KvsError::StringError(m)) && m@ == mismatch_text(),
        },
{
    match resp {
        Response::Put => Ok(()),
        Response::Failed(m) => Err(KvsError::StringError(m)),
        _ => Err(KvsError::StringError(String::from_str("Invalid response"))),
    }
}

/// What a client makes of the answer to its `Remove`.
pub fn expect_remove(resp: Response) -> (r: Result<(), KvsError>)
    ensures
        match resp {
            Response::Remove => r == Ok::<(), KvsError>(()),
            Response::Failed(m) => r == Err::<(), KvsError>(KvsError::StringError(m)),
            _ => r matches Err(KvsError::StringError(m)) && m@ == mismatch_text(),
        },
{
    match resp {
        Response::Remove => Ok(()),
        Response::Failed(m) => Err(KvsError::StringError(m)),
        _ => Err(KvsError::StringError(String::from_str("Invalid response"))),
    }
}

impl GetResponse {
    /// The value, or the server's message as an error.
    pub fn into_result(self) -> (r: Result<Option<String>, KvsError>)
        ensures
            match self {
                GetResponse::Found(v) => r == Ok::<Option<String>, KvsError>(v),
                GetResponse::Failed(m) => r == Err::<Option<String>, KvsError>(KvsError::StringError(m)),
            },
    {
        match self {
            GetResponse::Found(v) => Ok(v),
            GetResponse::Failed(m) => Err(KvsError::StringError(m)),
        }
    }
}

impl SetResponse {
    /// Success, or the server's message as an error.
    pub fn into_result(self) -> (r: Result<(), KvsError>)
        ensures
            match self {
                SetResponse::Done => r == Ok::<(), KvsError>(()),
                SetResponse::Failed(m) => r == Err::<(), KvsError>(KvsError::StringError(m)),
            },
    {
        match self {
            SetResponse::Done => Ok(()),
            SetResponse::Failed(m) => Err(KvsError::StringError(m)),
        }
    }
}

impl RemoveResponse {
    /// Success, or the server's message as an error.
    pub fn into_result(self) -> (r: Result<(), KvsError>)
        ensures
            match self {
                RemoveResponse::Done => r == Ok::<(), KvsError>(()),
                RemoveResponse::Failed(m) => r == Err::<(), KvsError>(KvsError::StringError(m)),
            },
    {
        match self {
            RemoveResponse::Done => Ok(()),
            RemoveResponse::Failed(m) => Err(KvsError::StringError(m)),
        }
    }
}

/// The frame of `payload`: its length, then the payload.
pub open spec fn framed(payload: Seq<u8>) -> Seq<u8> {
    be32(payload.len() as u32) + payload
}

/// Reading one frame from the start of `s`: its payload and the length of
/// the frame, or `None` while the frame is not all there.
pub open spec fn unframed(s: Seq<u8>) -> Option<(Seq<u8>, nat)> {
    if s.len() < 4 || s.len() < 4 + be32_at(s, 0) {
        None
    } else {
        Some((s.subrange(4, 4 + be32_at(s, 0)), (4 + be32_at(s, 0)) as nat))
    }
}

/// Frames `payload`; fails when it is longer than a 32-bit length can say.
pub fn frame(payload: &[u8]) -> (r: Result<Vec<u8>, KvsError>)
    ensures
        payload@.len() <= MAX_FRAME_LEN ==> (r matches Ok(f) && f@ == framed(payload@)),
        payload@.len() > MAX_FRAME_LEN ==> (r matches Err(KvsError::StringError(m)) && m@ == "frame too long"@),
{
    if payload.len() as u64 > MAX_FRAME_LEN {
        return Err(KvsError::StringError(String::from_str("frame too long")));
    }
    let mut out: Vec<u8> = Vec::new();
    append_be32(&mut out, payload.len() as u32);
    append_bytes(&mut out, payload);
    Ok(out)
}

/// Takes the frame at the start of `buf`: its payload and how many bytes the
/// frame took, or `None` while it is not all there.
pub fn unframe(buf: &[u8]) -> (r: Option<(Vec<u8>, usize)>)
    ensures
        match unframed(buf@) {
            Some((p, n)) => r matches Some((q, k)) && q@ == p && k == n,
            None => r is None,
        },
{
    if buf.len() < 4 {
        return None;
    }
    let n = read_be32(buf, 0);
    if ((buf.len() - 4) as u64) < n as u64 {
        return None;
    }
    let end = 4 + n as usize;
    let mut payload: Vec<u8> = Vec::new();
    append_bytes(&mut payload, &buf[4..end]);
    Some((payload, end))
}

/// A frame reads back as its payload, whatever follows it.
pub proof fn law_frame_round_trip(payload: Seq<u8>, rest: Seq<u8>)
    requires
        payload.len() <= MAX_FRAME_LEN,
    ensures
        unframed(framed(payload) + rest) == Some((payload, 4 + payload.len())),
{
    let s = framed(payload) + rest;
    lemma_be32_round_trip(payload.len() as u32);
    assert(be32_at(s, 0) == be32_at(be32(payload.len() as u32), 0));
    assert(s.subrange(4, 4 + payload.len() as int) =~= payload);
}

} // verus!
