//! The wire protocol: requests and replies as the bytes of one chunk each.
//!
//! Every message starts with a tag byte. Keys travel as their 8 bytes,
//! values as their 256 bytes, a row count as 8 bytes in big-endian order.
//!
//! | request          | bytes                                  |
//! |------------------|----------------------------------------|
//! | `Get(key)`       | `REQUEST_GET`, key                     |
//! | `Put(key, value)`| `REQUEST_PUT`, key, value              |
//! | `Del(key)`       | `REQUEST_DEL`, key                     |
//! | `Scan(low, high)`| `REQUEST_SCAN`, low key, high key      |
//! | `Close`          | `REQUEST_CLOSE`                        |
//!
//! | reply               | bytes                                       |
//! |---------------------|---------------------------------------------|
//! | `SingleValue(None)` | `REPLY_SINGLE_VALUE`                        |
//! | `SingleValue(Some)` | `REPLY_SINGLE_VALUE`, value                 |
//! | `Success`           | `REPLY_SUCCESS`                             |
//! | `Error`             | `REPLY_ERROR`                               |
//! | `Number(count)`     | `REPLY_NUMBER`, count                       |
//! | `KVPairs(pairs)`    | `REPLY_KV_PAIRS`, then key and value of each|

use vstd::prelude::*;
use vstd::slice::slice_subrange;
use std::sync::Arc;
use crate::bytes::append_bytes;
use crate::kvstorage::keycode::{
    decode_bytes,
    encode_bytes,
    lemma_decode_then_encode,
    lemma_encode_then_decode,
    spec_decode_raw,
};
use crate::kvstorage::{
    lemma_key_is_its_bytes,
    lemma_value_is_its_bytes,
    pairs_view,
    value_bytes,
    Key,
    Value,
    KEY_SIZE,
    VALUE_SIZE,
};

verus! {

/// Bytes that one key-value pair takes in a reply.
pub const KV_PAIR_SERIALIZED_SIZE: usize = KEY_SIZE + VALUE_SIZE;

/// Tag of a `Get` request.
pub const REQUEST_GET: u8 = 0;

/// Tag of a `Put` request.
pub const REQUEST_PUT: u8 = 1;

/// Tag of a `Del` request.
pub const REQUEST_DEL: u8 = 2;

/// Tag of a `Scan` request.
pub const REQUEST_SCAN: u8 = 3;

/// Tag of a `Close` request.
pub const REQUEST_CLOSE: u8 = 4;

/// Tag of a `SingleValue` reply.
pub const REPLY_SINGLE_VALUE: u8 = 0;

/// Tag of a `Success` reply.
pub const REPLY_SUCCESS: u8 = 1;

/// Tag of an `Error` reply.
pub const REPLY_ERROR: u8 = 2;

/// Tag of a `Number` reply.
pub const REPLY_NUMBER: u8 = 3;

/// Tag of a `KVPairs` reply.
pub const REPLY_KV_PAIRS: u8 = 4;

/// Why a chunk is no message.
#[derive(Copy, Clone, Debug, PartialEq, Eq, Structural)]
pub enum ProtocolError {
    /// The chunk is empty: it has no tag.
    Empty,
    /// The first byte is no tag of this kind of message.
    UnknownTag,
    /// The chunk's length is none that a message with this tag has.
    BadLength,
}

/// What a client asks of the server.
#[derive(Copy, Clone, Debug, PartialEq, Eq)]
pub enum Request {
    Get(Key),
    Put(Key, Value),
    Del(Key),
    Scan(Key, Key),
    Close,
}

/// A reply as the server builds it, from what the engine handed out.
#[derive(Debug)]
pub enum ServerReplyChunk<'a> {
    SingleValue(Option<Arc<Value>>),
    Success,
    Error,
    Number(usize),
    KVPairs(&'a [(Key, Arc<Value>)]),
}

/// A reply as the client reads it.
#[derive(Debug, PartialEq, Eq)]
pub enum ReplyChunk {
    SingleValue(Option<Value>),
    Success,
    Error,
    Number(u64),
    KVPairs(Vec<(Key, Value)>),
}

/// What a reply says, as plain values: the model of both reply types.
pub enum Reply {
    SingleValue(Option<Seq<u8>>),
    Success,
    Error,
    Number(u64),
    KVPairs(Seq<(Seq<u8>, Seq<u8>)>),
}

/// The bytes of some pairs in a reply: key and value of each, in order.
pub open spec fn pairs_bytes(pairs: Seq<(Seq<u8>, Seq<u8>)>) -> Seq<u8>
    decreases pairs.len(),
{
    if pairs.len() == 0 {
        Seq::empty()
    } else {
        pairs_bytes(pairs.drop_last()) + pairs.last().0 + pairs.last().1
    }
}

/// Whether each pair holds a key of 8 and a value of 256 bytes.
pub open spec fn pairs_wf(pairs: Seq<(Seq<u8>, Seq<u8>)>) -> bool {
    forall|i: int|
        0 <= i < pairs.len() ==> (#[trigger] pairs[i]).0.len() == KEY_SIZE && pairs[i].1.len()
            == VALUE_SIZE
}

impl Reply {
    /// Whether the values have the widths the engine stores.
    pub open spec fn wf(self) -> bool {
        match self {
            Reply::SingleValue(Some(value)) => value.len() == VALUE_SIZE,
            Reply::KVPairs(pairs) => pairs_wf(pairs),
            _ => true,
        }
    }

    /// The reply's bytes in a chunk.
    pub open spec fn bytes(self) -> Seq<u8> {
        match self {
            Reply::SingleValue(None) => seq![REPLY_SINGLE_VALUE],
            Reply::SingleValue(Some(value)) => seq![REPLY_SINGLE_VALUE] + value,
            Reply::Success => seq![REPLY_SUCCESS],
            Reply::Error => seq![REPLY_ERROR],
            Reply::Number(count) => seq![REPLY_NUMBER] + spec_decode_raw(count),
            Reply::KVPairs(pairs) => seq![REPLY_KV_PAIRS] + pairs_bytes(pairs),
        }
    }
}

impl<'a> View for ServerReplyChunk<'a> {
    type V = Reply;

    open spec fn view(&self) -> Reply {
        match *self {
            ServerReplyChunk::SingleValue(value) => Reply::SingleValue(value_bytes(value)),
            ServerReplyChunk::Success => Reply::Success,
            ServerReplyChunk::Error => Reply::Error,
            ServerReplyChunk::Number(count) => Reply::Number(count as u64),
            ServerReplyChunk::KVPairs(pairs) => Reply::KVPairs(pairs_view(pairs@)),
        }
    }
}

/// The model of the pairs that a client read.
pub open spec fn plain_pairs_view(pairs: Seq<(Key, Value)>) -> Seq<(Seq<u8>, Seq<u8>)> {
    Seq::new(pairs.len(), |i: int| (pairs[i].0.data@, pairs[i].1.data@))
}

impl View for ReplyChunk {
    type V = Reply;

    open spec fn view(&self) -> Reply {
        match *self {
            ReplyChunk::SingleValue(Some(value)) => Reply::SingleValue(Some(value.data@)),
            ReplyChunk::SingleValue(None) => Reply::SingleValue(None),
            ReplyChunk::Success => Reply::Success,
            ReplyChunk::Error => Reply::Error,
            ReplyChunk::Number(count) => Reply::Number(count),
            ReplyChunk::KVPairs(pairs) => Reply::KVPairs(plain_pairs_view(pairs@)),
        }
    }
}

impl Request {
    /// The request's bytes in a chunk.
    pub open spec fn bytes(self) -> Seq<u8> {
        match self {
            Request::Get(key) => seq![REQUEST_GET] + key.data@,
            Request::Put(key, value) => seq![REQUEST_PUT] + key.data@ + value.data@,
            Request::Del(key) => seq![REQUEST_DEL] + key.data@,
            Request::Scan(low, high) => seq![REQUEST_SCAN] + low.data@ + high.data@,
            Request::Close => seq![REQUEST_CLOSE],
        }
    }
}

/// The length of a request with the tag `tag`.
pub open spec fn request_length(tag: u8) -> int {
    if tag == REQUEST_PUT {
        1 + KEY_SIZE + VALUE_SIZE
    } else if tag == REQUEST_SCAN {
        1 + KEY_SIZE + KEY_SIZE
    } else if tag == REQUEST_CLOSE {
        1
    } else {
        1 + KEY_SIZE
    }
}

/// What is wrong with `bytes` as a request, if anything.
pub open spec fn request_fault(bytes: Seq<u8>) -> Option<ProtocolError> {
    if bytes.len() == 0 {
        Some(ProtocolError::Empty)
    } else if bytes[0] > REQUEST_CLOSE {
        Some(ProtocolError::UnknownTag)
    } else if bytes.len() != request_length(bytes[0]) {
        Some(ProtocolError::BadLength)
    } else {
        None
    }
}

/// What is wrong with `bytes` as a reply, if anything.
pub open spec fn reply_fault(bytes: Seq<u8>) -> Option<ProtocolError> {
    if bytes.len() == 0 {
        Some(ProtocolError::Empty)
    } else if bytes[0] > REPLY_KV_PAIRS {
        Some(ProtocolError::UnknownTag)
    } else if bytes[0] == REPLY_SINGLE_VALUE {
        if bytes.len() == 1 || bytes.len() == 1 + VALUE_SIZE {
            None
        } else {
            Some(ProtocolError::BadLength)
        }
    } else if bytes[0] == REPLY_NUMBER {
        if bytes.len() == 9 {
            None
        } else {
            Some(ProtocolError::BadLength)
        }
    } else if bytes[0] == REPLY_KV_PAIRS {
        if (bytes.len() - 1) % (KV_PAIR_SERIALIZED_SIZE as int) == 0 {
            None
        } else {
            Some(ProtocolError::BadLength)
        }
    } else {
        if bytes.len() == 1 {
            None
        } else {
            Some(ProtocolError::BadLength)
        }
    }
}

/// One more pair adds its key and its value to the bytes.
pub proof fn lemma_pairs_bytes_push(pairs: Seq<(Seq<u8>, Seq<u8>)>, pair: (Seq<u8>, Seq<u8>))
    ensures
        pairs_bytes(pairs.push(pair)) == pairs_bytes(pairs) + pair.0 + pair.1,
{
    assert(pairs.push(pair).drop_last() =~= pairs);
}

/// Pairs of stored widths take `KV_PAIR_SERIALIZED_SIZE` bytes each.
pub proof fn lemma_pairs_bytes_len(pairs: Seq<(Seq<u8>, Seq<u8>)>)
    requires
        pairs_wf(pairs),
    ensures
        pairs_bytes(pairs).len() == pairs.len() * KV_PAIR_SERIALIZED_SIZE,
    decreases pairs.len(),
{
    if pairs.len() > 0 {
        lemma_pairs_bytes_len(pairs.drop_last());
        assert(pairs.len() * KV_PAIR_SERIALIZED_SIZE == (pairs.len() - 1) * KV_PAIR_SERIALIZED_SIZE
            + KV_PAIR_SERIALIZED_SIZE) by (nonlinear_arith);
    }
}

/// Pairs of stored widths are told by their bytes.
pub proof fn lemma_pairs_bytes_injective(a: Seq<(Seq<u8>, Seq<u8>)>, b: Seq<(Seq<u8>, Seq<u8>)>)
    requires
        pairs_wf(a),
        pairs_wf(b),
        pairs_bytes(a) == pairs_bytes(b),
    ensures
        a == b,
    decreases a.len(),
{
    lemma_pairs_bytes_len(a);
    lemma_pairs_bytes_len(b);
    assert(a.len() == b.len()) by (nonlinear_arith)
        requires
            a.len() * KV_PAIR_SERIALIZED_SIZE == b.len() * KV_PAIR_SERIALIZED_SIZE,
    ;
    if a.len() == 0 {
        assert(a =~= b);
    } else {
        let a0 = a.drop_last();
        let b0 = b.drop_last();
        lemma_pairs_bytes_len(a0);
        lemma_pairs_bytes_len(b0);
        let all = pairs_bytes(a);
        let cut = pairs_bytes(a0).len() as int;
        assert(pairs_bytes(a0) =~= all.subrange(0, cut));
        assert(pairs_bytes(b0) =~= all.subrange(0, cut));
        assert(a.last().0 =~= all.subrange(cut, cut + KEY_SIZE));
        assert(b.last().0 =~= all.subrange(cut, cut + KEY_SIZE));
        assert(a.last().1 =~= all.subrange(cut + KEY_SIZE, cut + KV_PAIR_SERIALIZED_SIZE));
        assert(b.last().1 =~= all.subrange(cut + KEY_SIZE, cut + KV_PAIR_SERIALIZED_SIZE));
        lemma_pairs_bytes_injective(a0, b0);
        assert(a =~= a0.push(a.last()));
        assert(b =~= b0.push(b.last()));
    }
}

/// The tag that a reply starts with.
pub open spec fn reply_tag(reply: Reply) -> u8 {
    match reply {
        Reply::SingleValue(_) => REPLY_SINGLE_VALUE,
        Reply::Success => REPLY_SUCCESS,
        Reply::Error => REPLY_ERROR,
        Reply::Number(_) => REPLY_NUMBER,
        Reply::KVPairs(_) => REPLY_KV_PAIRS,
    }
}

/// A reply's bytes start with its tag.
pub proof fn lemma_reply_bytes_start_with_tag(reply: Reply)
    ensures
        reply.bytes().len() >= 1,
        reply.bytes()[0] == reply_tag(reply),
{
    match reply {
        Reply::SingleValue(None) => {},
        Reply::SingleValue(Some(value)) => {
            assert(reply.bytes() == seq![REPLY_SINGLE_VALUE] + value);
        },
        Reply::Success => {},
        Reply::Error => {},
        Reply::Number(count) => {
            assert(reply.bytes() == seq![REPLY_NUMBER] + spec_decode_raw(count));
        },
        Reply::KVPairs(pairs) => {
            assert(reply.bytes() == seq![REPLY_KV_PAIRS] + pairs_bytes(pairs));
        },
    }
}

/// A reply is told by its bytes: no two replies of stored widths travel as
/// the same chunk.
pub proof fn lemma_reply_bytes_injective(a: Reply, b: Reply)
    requires
        a.wf(),
        b.wf(),
        a.bytes() == b.bytes(),
    ensures
        a == b,
{
    lemma_reply_bytes_start_with_tag(a);
    lemma_reply_bytes_start_with_tag(b);
    match a {
        Reply::SingleValue(Some(x)) => {
            assert(x =~= a.bytes().subrange(1, 1 + VALUE_SIZE as int));
            assert(b->SingleValue_0->0 =~= b.bytes().subrange(1, 1 + VALUE_SIZE as int));
        },
        Reply::SingleValue(None) | Reply::Success | Reply::Error => {},
        Reply::Number(x) => {
            let y = b->Number_0;
            assert(spec_decode_raw(x) =~= a.bytes().subrange(1, 9));
            assert(spec_decode_raw(y) =~= b.bytes().subrange(1, 9));
            lemma_decode_then_encode(x);
            lemma_decode_then_encode(y);
        },
        Reply::KVPairs(x) => {
            let y = b->KVPairs_0;
            assert(pairs_bytes(x) =~= a.bytes().subrange(1, a.bytes().len() as int));
            assert(pairs_bytes(y) =~= b.bytes().subrange(1, b.bytes().len() as int));
            lemma_pairs_bytes_injective(x, y);
        },
    }
}

/// Every reply of stored widths is a well-formed chunk.
pub proof fn lemma_reply_bytes_have_no_fault(reply: Reply)
    requires
        reply.wf(),
    ensures
        reply_fault(reply.bytes()) is None,
{
    match reply {
        Reply::KVPairs(pairs) => {
            lemma_pairs_bytes_len(pairs);
            let n = pairs.len() as int;
            assert((n * KV_PAIR_SERIALIZED_SIZE) % (KV_PAIR_SERIALIZED_SIZE as int) == 0) by {
                vstd::arithmetic::div_mod::lemma_mod_multiples_basic(
                    n,
                    KV_PAIR_SERIALIZED_SIZE as int,
                );
            }
        },
        _ => {},
    }
}

/// A request is told by its bytes, and every request is a well-formed chunk.
pub proof fn lemma_request_bytes_injective(a: Request, b: Request)
    ensures
        request_fault(a.bytes()) is None,
        a.bytes() == b.bytes() ==> a == b,
{
    if a.bytes() == b.bytes() {
        assert(a.bytes()[0] == b.bytes()[0]);
        match (a, b) {
            (Request::Get(k1), Request::Get(k2)) => {
                assert(k1.data@ =~= a.bytes().subrange(1, 9));
                assert(k2.data@ =~= b.bytes().subrange(1, 9));
                lemma_key_is_its_bytes(k1, k2);
            },
            (Request::Del(k1), Request::Del(k2)) => {
                assert(k1.data@ =~= a.bytes().subrange(1, 9));
                assert(k2.data@ =~= b.bytes().subrange(1, 9));
                lemma_key_is_its_bytes(k1, k2);
            },
            (Request::Put(k1, v1), Request::Put(k2, v2)) => {
                assert(k1.data@ =~= a.bytes().subrange(1, 9));
                assert(k2.data@ =~= b.bytes().subrange(1, 9));
                assert(v1.data@ =~= a.bytes().subrange(9, 265));
                assert(v2.data@ =~= b.bytes().subrange(9, 265));
                lemma_key_is_its_bytes(k1, k2);
                lemma_value_is_its_bytes(v1, v2);
            },
            (Request::Scan(l1, h1), Request::Scan(l2, h2)) => {
                assert(l1.data@ =~= a.bytes().subrange(1, 9));
                assert(l2.data@ =~= b.bytes().subrange(1, 9));
                assert(h1.data@ =~= a.bytes().subrange(9, 17));
                assert(h2.data@ =~= b.bytes().subrange(9, 17));
                lemma_key_is_its_bytes(l1, l2);
                lemma_key_is_its_bytes(h1, h2);
            },
            _ => {},
        }
    }
}

impl Request {
    /// The bytes of the chunk that carries this request.
    pub fn serialize(&self) -> (res: Vec<u8>)
        ensures
            res@ == self.bytes(),
    {
        let mut out: Vec<u8> = Vec::new();
        match self {
            Request::Get(key) => {
                out.push(REQUEST_GET);
                append_bytes(&mut out, key.data.as_slice());
            },
            Request::Put(key, value) => {
                out.push(REQUEST_PUT);
                append_bytes(&mut out, key.data.as_slice());
                append_bytes(&mut out, value.data.as_slice());
            },
            Request::Del(key) => {
                out.push(REQUEST_DEL);
                append_bytes(&mut out, key.data.as_slice());
            },
            Request::Scan(low, high) => {
                out.push(REQUEST_SCAN);
                append_bytes(&mut out, low.data.as_slice());
                append_bytes(&mut out, high.data.as_slice());
            },
            Request::Close => {
                out.push(REQUEST_CLOSE);
            },
        }
        assert(out@ =~= self.bytes());
        out
    }

    /// Reads the request that a chunk carries.
    pub fn deserialize_from(bytes: Vec<u8>) -> (res: Result<Request, ProtocolError>)
        ensures
            (match request_fault(bytes@) {
                Some(e) => res == Err::<Request, ProtocolError>(e),
                None => res matches Ok(request) && request.bytes() == bytes@,
            }),
    {
        let len = bytes.len();
        if len == 0 {
            return Err(ProtocolError::Empty);
        }
        let tag = bytes[0];
        if tag > REQUEST_CLOSE {
            return Err(ProtocolError::UnknownTag);
        }
        let expected: usize = if tag == REQUEST_PUT {
            1 + KEY_SIZE + VALUE_SIZE
        } else if tag == REQUEST_SCAN {
            1 + KEY_SIZE + KEY_SIZE
        } else if tag == REQUEST_CLOSE {
            1
        } else {
            1 + KEY_SIZE
        };
        if len != expected {
            return Err(ProtocolError::BadLength);
        }
        let all = bytes.as_slice();
        let request = if tag == REQUEST_CLOSE {
            Request::Close
        } else {
            let key = Key::from_slice(slice_subrange(all, 1, 1 + KEY_SIZE));
            if tag == REQUEST_GET {
                Request::Get(key)
            } else if tag == REQUEST_DEL {
                Request::Del(key)
            } else if tag == REQUEST_PUT {
                let value = Value::from_slice(slice_subrange(all, 1 + KEY_SIZE, len));
                Request::Put(key, value)
            } else {
                let high = Key::from_slice(slice_subrange(all, 1 + KEY_SIZE, len));
                Request::Scan(key, high)
            }
        };
        assert(request.bytes() =~= bytes@);
        Ok(request)
    }
}

impl<'a> ServerReplyChunk<'a> {
    /// The bytes of the chunk that carries this reply.
    pub fn serialize(&self) -> (res: Vec<u8>)
        ensures
            res@ == self@.bytes(),
            self@.wf(),
    {
        let mut out: Vec<u8> = Vec::new();
        match self {
            ServerReplyChunk::SingleValue(None) => {
                out.push(REPLY_SINGLE_VALUE);
            },
            ServerReplyChunk::SingleValue(Some(value)) => {
                out.push(REPLY_SINGLE_VALUE);
                append_bytes(&mut out, value.data.as_slice());
            },
            ServerReplyChunk::Success => {
                out.push(REPLY_SUCCESS);
            },
            ServerReplyChunk::Error => {
                out.push(REPLY_ERROR);
            },
            ServerReplyChunk::Number(count) => {
                out.push(REPLY_NUMBER);
                let digits = decode_bytes(*count as u64);
                append_bytes(&mut out, digits.as_slice());
            },
            ServerReplyChunk::KVPairs(pairs) => {
                out.push(REPLY_KV_PAIRS);
                let n = pairs.len();
                let mut i: usize = 0;
                assert(pairs_view(pairs@).take(0) =~= Seq::<(Seq<u8>, Seq<u8>)>::empty());
                while i < n
                    invariant
                        i <= n,
                        n == pairs@.len(),
                        out@ == seq![REPLY_KV_PAIRS] + pairs_bytes(
                            pairs_view(pairs@).take(i as int),
                        ),
                    decreases n - i,
                {
                    let ghost done = pairs_view(pairs@).take(i as int);
                    let ghost pair = pairs_view(pairs@)[i as int];
                    append_bytes(&mut out, pairs[i].0.data.as_slice());
                    append_bytes(&mut out, pairs[i].1.data.as_slice());
                    i += 1;
                    proof {
                        lemma_pairs_bytes_push(done, pair);
                        assert(pairs_view(pairs@).take(i as int) =~= done.push(pair));
                        assert(out@ =~= seq![REPLY_KV_PAIRS] + pairs_bytes(done.push(pair)));
                    }
                }
                assert(pairs_view(pairs@).take(n as int) =~= pairs_view(pairs@));
            },
        }
        assert(out@ =~= self@.bytes());
        out
    }
}

impl ReplyChunk {
    /// Reads the reply that a chunk carries.
    pub fn deserialize(bytes: Vec<u8>) -> (res: Result<ReplyChunk, ProtocolError>)
        ensures
            (match reply_fault(bytes@) {
                Some(e) => res matches Err(err) && err == e,
                None => res matches Ok(reply) && reply@.bytes() == bytes@ && reply@.wf(),
            }),
    {
        let len = bytes.len();
        if len == 0 {
            return Err(ProtocolError::Empty);
        }
        let tag = bytes[0];
        let all = bytes.as_slice();
        if tag > REPLY_KV_PAIRS {
            Err(ProtocolError::UnknownTag)
        } else if tag == REPLY_SINGLE_VALUE {
            if len == 1 {
                let reply = ReplyChunk::SingleValue(None);
                assert(reply@.bytes() =~= bytes@);
                Ok(reply)
            } else if len == 1 + VALUE_SIZE {
                let value = Value::from_slice(slice_subrange(all, 1, len));
                let reply = ReplyChunk::SingleValue(Some(value));
                assert(reply@.bytes() =~= bytes@);
                Ok(reply)
            } else {
                Err(ProtocolError::BadLength)
            }
        } else if tag == REPLY_NUMBER {
            if len != 9 {
                return Err(ProtocolError::BadLength);
            }
            let digits = Key::from_slice(slice_subrange(all, 1, 9));
            let count = encode_bytes(&digits.data);
            let reply = ReplyChunk::Number(count);
            proof {
                lemma_encode_then_decode(digits.data@);
                assert(reply@.bytes() =~= bytes@);
            }
            Ok(reply)
        } else if tag == REPLY_KV_PAIRS {
            if (len - 1) % KV_PAIR_SERIALIZED_SIZE != 0 {
                return Err(ProtocolError::BadLength);
            }
            let mut pairs: Vec<(Key, Value)> = Vec::new();
            let mut pos: usize = 1;
            assert(bytes@.subrange(1, 1) =~= Seq::<u8>::empty());
            while pos < len
                invariant
                    1 <= pos <= len,
                    len == bytes@.len(),
                    all@ == bytes@,
                    (len - pos) % 264 == 0,
                    pairs_wf(plain_pairs_view(pairs@)),
                    pairs_bytes(plain_pairs_view(pairs@)) == bytes@.subrange(1, pos as int),
                decreases len - pos,
            {
                assert(len - pos >= 264);
                let key = Key::from_slice(slice_subrange(all, pos, pos + KEY_SIZE));
                let value = Value::from_slice(
                    slice_subrange(all, pos + KEY_SIZE, pos + KV_PAIR_SERIALIZED_SIZE),
                );
                let ghost done = plain_pairs_view(pairs@);
                let ghost start = pos as int;
                pairs.push((key, value));
                pos += KV_PAIR_SERIALIZED_SIZE;
                proof {
                    let pair = (key.data@, value.data@);
                    lemma_pairs_bytes_push(done, pair);
                    assert(plain_pairs_view(pairs@) =~= done.push(pair));
                    assert(bytes@.subrange(1, pos as int) =~= bytes@.subrange(1, start) + pair.0
                        + pair.1);
                }
            }
            let reply = ReplyChunk::KVPairs(pairs);
            assert(reply@.bytes() =~= bytes@);
            Ok(reply)
        } else {
            if len != 1 {
                return Err(ProtocolError::BadLength);
            }
            let reply = if tag == REPLY_SUCCESS {
                ReplyChunk::Success
            } else {
                ReplyChunk::Error
            };
            assert(reply@.bytes() =~= bytes@);
            Ok(reply)
        }
    }
}

} // verus!
