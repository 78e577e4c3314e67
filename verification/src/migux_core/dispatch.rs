//! What a location does with a request.
use super::request::{ParsedRequest, ReadOutcome, RequestView};
use crate::chunked::ChunkFault;
use crate::migux_config::location::{LocationConfig, LocationType};
use crate::migux_http::responses::Refusal;
use crate::text::same_str;
use vstd::prelude::*;

verus! {

/// What is done with the body of a request that is not needed.
#[derive(Clone, Copy, Debug, PartialEq, Eq, Structural)]
pub enum Discard {
    /// There is none.
    Nothing,
    /// Its chunks are dropped.
    Chunks,
    /// So many bytes are dropped.
    Bytes(usize),
}

/// What a location does with a request.
#[derive(Clone, Copy, Debug, PartialEq, Eq, Structural)]
pub enum Dispatch {
    /// The method is refused as if nothing were there, and the connection is
    /// closed.
    Refuse,
    /// A file is served; the body of the request is dropped.
    Static { keep_alive: bool, discard: Discard },
    /// The request goes to the upstream.
    Proxy,
}

/// What is done with the body of a request that is not needed.
pub open spec fn discarded(rq: RequestView) -> Discard {
    if rq.is_chunked {
        Discard::Chunks
    } else if rq.content_length > 0 {
        Discard::Bytes(rq.content_length as usize)
    } else {
        Discard::Nothing
    }
}

/// What a location of the given kind does with a request. Files are for `GET`
/// and `HEAD` only.
pub open spec fn dispatched(kind: LocationType, rq: RequestView) -> Dispatch {
    match kind {
        LocationType::Static => if rq.method == "GET"@ || rq.method == "HEAD"@ {
            Dispatch::Static { keep_alive: !rq.close_after, discard: discarded(rq) }
        } else {
            Dispatch::Refuse
        },
        LocationType::Proxy => Dispatch::Proxy,
    }
}

/// What is done with the body of a request that is not needed.
pub fn discard_of(req: &ParsedRequest) -> (r: Discard)
    ensures
        r == discarded(req@),
{
    if req.is_chunked {
        Discard::Chunks
    } else if req.content_length > 0 {
        Discard::Bytes(req.content_length)
    } else {
        Discard::Nothing
    }
}

/// Decides what a location does with a request.
pub fn dispatch_location(location: &LocationConfig, req: &ParsedRequest) -> (r: Dispatch)
    ensures
        r == dispatched(location.kind, req@),
{
    match location.kind {
        LocationType::Static => {
            if !same_str(req.method.as_str(), "GET") && !same_str(req.method.as_str(), "HEAD") {
                return Dispatch::Refuse;
            }
            Dispatch::Static { keep_alive: !req.close_after, discard: discard_of(req) }
        },
        LocationType::Proxy => Dispatch::Proxy,
    }
}

/// Why the rest of a body could not be read.
#[derive(Clone, Copy, Debug, PartialEq, Eq, Structural)]
pub enum ChunkedBodyError {
    /// Nothing came in time.
    Timeout,
    /// The body is no chunked body, or ends too early.
    Invalid,
    /// The body is larger than allowed.
    TooLarge,
    /// Reading failed.
    Io,
}

/// Why a body cannot go on after a read, if it cannot.
pub fn body_read_error(outcome: Option<ReadOutcome>) -> (r: Option<ChunkedBodyError>)
    ensures
        r == (match outcome {
            None => Some(ChunkedBodyError::Io),
            Some(ReadOutcome::Timeout) => Some(ChunkedBodyError::Timeout),
            Some(ReadOutcome::Read(n)) => if n == 0 {
                Some(ChunkedBodyError::Invalid)
            } else {
                None
            },
        }),
{
    match outcome {
        None => Some(ChunkedBodyError::Io),
        Some(ReadOutcome::Timeout) => Some(ChunkedBodyError::Timeout),
        Some(ReadOutcome::Read(n)) => if n == 0 {
            Some(ChunkedBodyError::Invalid)
        } else {
            None
        },
    }
}

/// Why a body is given up at a fault in its chunks.
pub fn body_fault(fault: ChunkFault) -> (r: ChunkedBodyError)
    ensures
        r == (match fault {
            ChunkFault::Invalid => ChunkedBodyError::Invalid,
            ChunkFault::TooLarge => ChunkedBodyError::TooLarge,
        }),
{
    match fault {
        ChunkFault::Invalid => ChunkedBodyError::Invalid,
        ChunkFault::TooLarge => ChunkedBodyError::TooLarge,
    }
}

/// The answer to a request whose body could not be read.
pub fn body_refusal(error: ChunkedBodyError) -> (r: Refusal)
    ensures
        r == (match error {
            ChunkedBodyError::Timeout => Refusal::RequestTimeout,
            ChunkedBodyError::TooLarge => Refusal::PayloadTooLarge,
            ChunkedBodyError::Invalid | ChunkedBodyError::Io => Refusal::BadRequest,
        }),
{
    match error {
        ChunkedBodyError::Timeout => Refusal::RequestTimeout,
        ChunkedBodyError::TooLarge => Refusal::PayloadTooLarge,
        ChunkedBodyError::Invalid | ChunkedBodyError::Io => Refusal::BadRequest,
    }
}

/// Files are for reading: a static location serves `GET` and `HEAD` alone, and
/// drops the body of the request, in chunks or of so many bytes, so that the next
/// request is found. A proxy location takes every method. The connection stays
/// open unless the request closes it.
pub proof fn files_are_for_reading(rq: RequestView)
    ensures
        dispatched(LocationType::Proxy, rq) == Dispatch::Proxy,
        rq.method != "GET"@ && rq.method != "HEAD"@ ==> dispatched(LocationType::Static, rq)
            == Dispatch::Refuse,
        rq.method == "GET"@ || rq.method == "HEAD"@ ==> dispatched(LocationType::Static, rq) == (
        Dispatch::Static {
            keep_alive: !rq.close_after,
            discard: if rq.is_chunked {
                Discard::Chunks
            } else if rq.content_length == 0 {
                Discard::Nothing
            } else {
                Discard::Bytes(rq.content_length as usize)
            },
        }),
{
}

} // verus!
