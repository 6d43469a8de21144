//! The server's side of a connection: what to answer to each request.
//!
//! A connection is a loop: read a chunk, read the request in it, carry it
//! out on the engine, write the reply. Reading and writing belong to
//! whoever owns the socket, and so does appending to the log. What is
//! decided here is the rest: which chunks answer a request, and what the
//! request does to the engine.
//!
//! A put or a delete that the log refused is answered with an `Error`
//! reply and changes nothing; the connection goes on. The pairs of a scan
//! travel in chunks of at most `ROW_PER_CHUNK` pairs, in order, and an
//! empty chunk ends them.

use vstd::prelude::*;
use vstd::slice::slice_subrange;
use std::sync::Arc;
use crate::chunktps::CHUNK_MAX_SIZE;
use crate::kvstorage::disklog::LogRecord;
use crate::kvstorage::model::{applied, is_scan_of, lookup};
use crate::kvstorage::{pairs_view, KVStorage, Key, Value};
use protocol::{
    lemma_pairs_bytes_len,
    pairs_wf,
    Reply,
    ServerReplyChunk,
    KV_PAIR_SERIALIZED_SIZE,
};

pub mod protocol;

verus! {

/// The most pairs that one chunk of a scan's reply holds: what fits beside
/// the tag byte.
pub const ROW_PER_CHUNK: usize = (CHUNK_MAX_SIZE - 1) / KV_PAIR_SERIALIZED_SIZE;

/// With chunks of 4096 bytes and pairs of 264, a chunk holds 15 pairs.
pub proof fn lemma_row_per_chunk()
    ensures
        KV_PAIR_SERIALIZED_SIZE == 264,
        ROW_PER_CHUNK == 15,
        1 + ROW_PER_CHUNK * KV_PAIR_SERIALIZED_SIZE <= CHUNK_MAX_SIZE,
{
}

/// The number of chunks that `rows` pairs fill: `rows / ROW_PER_CHUNK`,
/// rounded up.
pub open spec fn page_count(rows: int) -> int {
    if rows % (ROW_PER_CHUNK as int) == 0 {
        rows / (ROW_PER_CHUNK as int)
    } else {
        rows / (ROW_PER_CHUNK as int) + 1
    }
}

/// The number of chunks is the number of pairs over `ROW_PER_CHUNK`, rounded
/// up: just enough chunks to hold the pairs, and none where there are none.
pub proof fn lemma_page_count_is_ceiling(rows: int)
    requires
        rows >= 0,
    ensures
        page_count(rows) * ROW_PER_CHUNK >= rows,
        (page_count(rows) - 1) * ROW_PER_CHUNK < rows || rows == 0,
        page_count(rows) == 0 <==> rows == 0,
{
    lemma_row_per_chunk();
}

/// The pairs of the chunk number `page`, counting from 0.
pub open spec fn page_of(pairs: Seq<(Seq<u8>, Seq<u8>)>, page: int) -> Seq<(Seq<u8>, Seq<u8>)> {
    let start = page * ROW_PER_CHUNK;
    let end = if start + ROW_PER_CHUNK < pairs.len() {
        start + ROW_PER_CHUNK
    } else {
        pairs.len() as int
    };
    pairs.subrange(start, end)
}

/// Whether `chunks` is the reply to a scan that found `pairs`: the pairs in
/// order, `ROW_PER_CHUNK` to a chunk but for the last, then an empty chunk.
pub open spec fn is_scan_reply(pairs: Seq<(Seq<u8>, Seq<u8>)>, chunks: Seq<Seq<u8>>) -> bool {
    &&& chunks.len() == page_count(pairs.len() as int) + 1
    &&& forall|i: int|
        0 <= i < chunks.len() - 1 ==> #[trigger] chunks[i] == Reply::KVPairs(page_of(pairs, i)).bytes()
    &&& chunks.last() == Seq::<u8>::empty()
}

/// The chunks as plain bytes.
pub open spec fn chunks_view(chunks: Seq<Vec<u8>>) -> Seq<Seq<u8>> {
    Seq::new(chunks.len(), |i: int| chunks[i]@)
}

/// A scan that found nothing is answered by the end mark alone.
pub proof fn lemma_empty_scan_reply(chunks: Seq<Seq<u8>>)
    ensures
        is_scan_reply(Seq::empty(), chunks) <==> chunks == seq![Seq::<u8>::empty()],
{
    lemma_row_per_chunk();
    if is_scan_reply(Seq::empty(), chunks) {
        assert(chunks =~= seq![Seq::<u8>::empty()]);
    }
}

/// No chunk of a scan's reply is larger than a chunk may be, and each but
/// the last of the data chunks is full.
pub proof fn lemma_scan_reply_fits(pairs: Seq<(Seq<u8>, Seq<u8>)>, chunks: Seq<Seq<u8>>, i: int)
    requires
        pairs_wf(pairs),
        is_scan_reply(pairs, chunks),
        0 <= i < chunks.len(),
    ensures
        chunks[i].len() <= CHUNK_MAX_SIZE,
        i < chunks.len() - 2 ==> page_of(pairs, i).len() == ROW_PER_CHUNK,
        i < chunks.len() - 1 ==> 0 < page_of(pairs, i).len() <= ROW_PER_CHUNK,
{
    lemma_row_per_chunk();
    if i < chunks.len() - 1 {
        let page = page_of(pairs, i);
        lemma_pairs_bytes_len(page);
        assert(page.len() * KV_PAIR_SERIALIZED_SIZE <= 15 * 264) by (nonlinear_arith)
            requires
                page.len() <= 15,
                KV_PAIR_SERIALIZED_SIZE == 264,
        ;
    }
}

/// The chunks that carry a scan's result to the client.
pub fn scan_reply_chunks(scan_result: &[(Key, Arc<Value>)]) -> (res: Vec<Vec<u8>>)
    ensures
        is_scan_reply(pairs_view(scan_result@), chunks_view(res@)),
{
    let n = scan_result.len();
    let ghost pairs = pairs_view(scan_result@);
    let mut out: Vec<Vec<u8>> = Vec::new();
    let mut i: usize = 0;
    proof {
        lemma_row_per_chunk();
    }
    while i < n
        invariant
            i <= n,
            n == scan_result@.len(),
            pairs == pairs_view(scan_result@),
            ROW_PER_CHUNK == 15,
            i == n || i == out@.len() * 15,
            out@.len() == page_count(i as int),
            forall|j: int|
                0 <= j < out@.len() ==> (#[trigger] out@[j])@ == Reply::KVPairs(page_of(pairs, j)).bytes(),
        decreases n - i,
    {
        let end = if n - i > ROW_PER_CHUNK {
            i + ROW_PER_CHUNK
        } else {
            n
        };
        let slice = slice_subrange(scan_result, i, end);
        let chunk = ServerReplyChunk::KVPairs(slice).serialize();
        proof {
            assert(pairs_view(slice@) =~= page_of(pairs, out@.len() as int));
        }
        let ghost before = out@;
        out.push(chunk);
        i = end;
        assert forall|j: int| 0 <= j < out@.len() implies (#[trigger] out@[j])@ == Reply::KVPairs(
            page_of(pairs, j),
        ).bytes() by {
            if j < before.len() {
                assert(out@[j] == before[j]);
            }
        }
    }
    let ghost pages = out@;
    out.push(Vec::new());
    proof {
        let chunks = chunks_view(out@);
        assert forall|j: int| 0 <= j < chunks.len() - 1 implies #[trigger] chunks[j]
            == Reply::KVPairs(page_of(pairs, j)).bytes() by {
            assert(out@[j] == pages[j]);
        }
        assert(chunks.last() =~= Seq::<u8>::empty());
    }
    out
}

/// Answers a `Get`: the key's value, or that it has none.
pub fn handle_get(storage: &KVStorage, key: &Key) -> (res: Vec<u8>)
    ensures
        res@ == Reply::SingleValue(lookup(storage.index(), key.spec_encode())).bytes(),
        res@.len() <= CHUNK_MAX_SIZE,
{
    let maybe_value = storage.get(key);
    ServerReplyChunk::SingleValue(maybe_value).serialize()
}

/// Answers a `Scan`: the pairs of the range in chunks, then the end mark.
pub fn handle_scan(storage: &KVStorage, key1: &Key, key2: &Key) -> (res: Vec<Vec<u8>>)
    ensures
        exists|pairs: Seq<(Seq<u8>, Seq<u8>)>|
            ({
                &&& #[trigger] is_scan_of(
                    storage.index(),
                    key1.spec_encode(),
                    key2.spec_encode(),
                    pairs,
                )
                &&& is_scan_reply(pairs, chunks_view(res@))
            }),
        forall|i: int| 0 <= i < res@.len() ==> (#[trigger] res@[i])@.len() <= CHUNK_MAX_SIZE,
{
    let scan_result = storage.scan(key1, key2);
    let res = scan_reply_chunks(scan_result.as_slice());
    proof {
        let pairs = pairs_view(scan_result@);
        let chunks = chunks_view(res@);
        assert forall|i: int| 0 <= i < res@.len() implies (#[trigger] res@[i])@.len()
            <= CHUNK_MAX_SIZE by {
            lemma_scan_reply_fits(pairs, chunks, i);
            assert(chunks[i] == res@[i]@);
        }
    }
    res
}

/// Carries out a `Put` whose record was handed to the log, `logged` being
/// how that append ended, and answers it: `Success` after the index took the
/// value, `Error` after the log refused the record.
pub fn handle_put<E>(storage: &mut KVStorage, key: &Key, value: &Value, logged: Result<(), E>) -> (res:
    Vec<u8>)
    ensures
        final(storage).initial() == old(storage).initial(),
        old(storage).wf() ==> final(storage).wf(),
        (match logged {
            Ok(_) => {
                let record = LogRecord::Put { key: key.data@, value: value.data@ };
                &&& res@ == Reply::Success.bytes()
                &&& final(storage).index() == applied(old(storage).index(), record)
                &&& final(storage).log() == old(storage).log().push(record)
            },
            Err(_) => {
                &&& res@ == Reply::Error.bytes()
                &&& final(storage).index() == old(storage).index()
                &&& final(storage).log() == old(storage).log()
            },
        }),
{
    match storage.put(key, value, logged) {
        Ok(_) => ServerReplyChunk::Success.serialize(),
        Err(_) => ServerReplyChunk::Error.serialize(),
    }
}

/// Carries out a `Del` and answers it. Where the key has no entry the
/// answer is `Number(0)`. Where it has one, its record was handed to the
/// log and `logged` is how that append ended: `Number(1)` after the entry
/// became a tombstone, `Error` after the log refused the record.
pub fn handle_del<E>(storage: &mut KVStorage, key: &Key, logged: Result<(), E>) -> (res: Vec<u8>)
    ensures
        final(storage).initial() == old(storage).initial(),
        old(storage).wf() ==> final(storage).wf(),
        !old(storage).index().contains_key(key.spec_encode()) ==> ({
            &&& res@ == Reply::Number(0).bytes()
            &&& final(storage).index() == old(storage).index()
            &&& final(storage).log() == old(storage).log()
        }),
        old(storage).index().contains_key(key.spec_encode()) ==> (match logged {
            Ok(_) => {
                let record = LogRecord::Delete { key: key.data@ };
                &&& res@ == Reply::Number(1).bytes()
                &&& final(storage).index() == applied(old(storage).index(), record)
                &&& final(storage).log() == old(storage).log().push(record)
            },
            Err(_) => {
                &&& res@ == Reply::Error.bytes()
                &&& final(storage).index() == old(storage).index()
                &&& final(storage).log() == old(storage).log()
            },
        }),
{
    match storage.delete(key, logged) {
        Ok(rows_affected) => ServerReplyChunk::Number(rows_affected).serialize(),
        Err(_) => ServerReplyChunk::Error.serialize(),
    }
}

} // verus!
