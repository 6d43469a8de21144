//! Chunk transport: the framing that cuts a byte stream into messages.
//!
//! A chunk travels as a header of two bytes, the payload's length in
//! big-endian order, and then the payload. A payload holds at most
//! `CHUNK_MAX_SIZE` bytes. A chunk with no payload is a chunk like any
//! other; the layers above use it as an end mark.
//!
//! Nothing here touches a stream. The sender frames a payload and writes the
//! bytes; the receiver reads two bytes, asks `chunk_length` how many follow,
//! and reads those, or collects what arrives and lets `parse_chunk` cut it.

use vstd::prelude::*;
use vstd::slice::slice_subrange;

verus! {

/// The most bytes a chunk's payload may hold.
pub const CHUNK_MAX_SIZE: usize = 4096;

/// Length of a chunk's header.
pub const CHUNK_HEADER_SIZE: usize = 2;

/// Why bytes are no chunk, or a payload cannot become one.
#[derive(Copy, Clone, Debug, PartialEq, Eq, Structural)]
pub enum ChunkError {
    /// The payload holds more than `CHUNK_MAX_SIZE` bytes.
    TooLarge,
    /// The header announces more than `CHUNK_MAX_SIZE` bytes.
    Malformed,
}

/// The length that a header announces.
pub open spec fn header_length(header: Seq<u8>) -> int
    recommends
        header.len() >= 2,
{
    header[0] as int * 256 + header[1] as int
}

/// A payload of at most `CHUNK_MAX_SIZE` bytes as it travels: its length in
/// two bytes, then the payload.
pub open spec fn framed(payload: Seq<u8>) -> Seq<u8>
    recommends
        payload.len() <= CHUNK_MAX_SIZE,
{
    seq![(payload.len() / 256) as u8, (payload.len() % 256) as u8] + payload
}

/// What stands at the head of `stream`: a whole chunk, as its payload and
/// the number of bytes it took; nothing yet, while bytes are still to come;
/// or a header that no chunk has.
pub open spec fn parsed(stream: Seq<u8>) -> Result<Option<(Seq<u8>, int)>, ChunkError> {
    if stream.len() < CHUNK_HEADER_SIZE {
        Ok(None)
    } else if header_length(stream) > CHUNK_MAX_SIZE {
        Err(ChunkError::Malformed)
    } else if stream.len() < CHUNK_HEADER_SIZE + header_length(stream) {
        Ok(None)
    } else {
        Ok(
            Some(
                (
                    stream.subrange(
                        CHUNK_HEADER_SIZE as int,
                        CHUNK_HEADER_SIZE + header_length(stream),
                    ),
                    CHUNK_HEADER_SIZE + header_length(stream),
                ),
            ),
        )
    }
}

/// What was framed is what is parsed, whatever follows it on the stream.
pub proof fn lemma_parse_framed(payload: Seq<u8>, rest: Seq<u8>)
    requires
        payload.len() <= CHUNK_MAX_SIZE,
    ensures
        framed(payload).len() == CHUNK_HEADER_SIZE + payload.len(),
        header_length(framed(payload)) == payload.len(),
        parsed(framed(payload) + rest) == Ok::<Option<(Seq<u8>, int)>, ChunkError>(
            Some((payload, CHUNK_HEADER_SIZE + payload.len())),
        ),
{
    let stream = framed(payload) + rest;
    assert(stream[0] == (payload.len() / 256) as u8);
    assert(stream[1] == (payload.len() % 256) as u8);
    assert(header_length(stream) == payload.len());
    assert(stream.subrange(CHUNK_HEADER_SIZE as int, CHUNK_HEADER_SIZE + payload.len())
        =~= payload);
}

/// Frames one chunk: the bytes to write for `payload`. Refuses a payload of
/// more than `CHUNK_MAX_SIZE` bytes.
pub fn frame_chunk(payload: &[u8]) -> (res: Result<Vec<u8>, ChunkError>)
    ensures
        payload@.len() > CHUNK_MAX_SIZE ==> res == Err::<Vec<u8>, ChunkError>(ChunkError::TooLarge),
        payload@.len() <= CHUNK_MAX_SIZE ==> (res matches Ok(bytes) && bytes@ == framed(payload@)),
{
    let len = payload.len();
    if len > CHUNK_MAX_SIZE {
        return Err(ChunkError::TooLarge);
    }
    let mut out: Vec<u8> = Vec::new();
    out.push((len / 256) as u8);
    out.push((len % 256) as u8);
    let mut i: usize = 0;
    while i < len
        invariant
            i <= len,
            len == payload@.len(),
            out@.len() == CHUNK_HEADER_SIZE + i,
            out@[0] == (len / 256) as u8,
            out@[1] == (len % 256) as u8,
            forall|j: int| 0 <= j < i ==> out@[CHUNK_HEADER_SIZE + j] == payload@[j],
        decreases len - i,
    {
        out.push(payload[i]);
        i += 1;
    }
    assert(out@ =~= framed(payload@));
    Ok(out)
}

/// Reads a header: the number of payload bytes that follow it. Refuses a
/// header that announces more than `CHUNK_MAX_SIZE` bytes.
pub fn chunk_length(header: &[u8; 2]) -> (res: Result<usize, ChunkError>)
    ensures
        header_length(header@) > CHUNK_MAX_SIZE ==> res == Err::<usize, ChunkError>(
            ChunkError::Malformed,
        ),
        header_length(header@) <= CHUNK_MAX_SIZE ==> res == Ok::<usize, ChunkError>(
            header_length(header@) as usize,
        ),
{
    let len: usize = (header[0] as usize) * 256 + (header[1] as usize);
    if len > CHUNK_MAX_SIZE {
        Err(ChunkError::Malformed)
    } else {
        Ok(len)
    }
}

/// Cuts the first chunk off the bytes received so far: its payload and the
/// number of bytes it took, `None` while the chunk is not complete, or an
/// error where the header is none.
pub fn parse_chunk(stream: &[u8]) -> (res: Result<Option<(Vec<u8>, usize)>, ChunkError>)
    ensures
        (match parsed(stream@) {
            Ok(Some((payload, used))) => res matches Ok(Some(got)) && got.0@ == payload && got.1
                == used,
            Ok(None) => res matches Ok(None),
            Err(e) => res matches Err(err) && err == e,
        }),
{
    let available = stream.len();
    if available < CHUNK_HEADER_SIZE {
        return Ok(None);
    }
    let len: usize = (stream[0] as usize) * 256 + (stream[1] as usize);
    if len > CHUNK_MAX_SIZE {
        return Err(ChunkError::Malformed);
    }
    if available - CHUNK_HEADER_SIZE < len {
        return Ok(None);
    }
    let body = slice_subrange(stream, CHUNK_HEADER_SIZE, CHUNK_HEADER_SIZE + len);
    let mut payload: Vec<u8> = Vec::new();
    let mut i: usize = 0;
    while i < len
        invariant
            i <= len,
            len == body@.len(),
            payload@.len() == i,
            forall|j: int| 0 <= j < i ==> payload@[j] == body@[j],
        decreases len - i,
    {
        payload.push(body[i]);
        i += 1;
    }
    assert(payload@ =~= body@);
    Ok(Some((payload, CHUNK_HEADER_SIZE + len)))
}

} // verus!
