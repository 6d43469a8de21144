use kvsys::kvserver::protocol::{
    ProtocolError, ReplyChunk, Request, ServerReplyChunk, KV_PAIR_SERIALIZED_SIZE,
    REPLY_ERROR, REPLY_KV_PAIRS, REPLY_NUMBER, REPLY_SINGLE_VALUE, REPLY_SUCCESS, REQUEST_CLOSE,
    REQUEST_DEL, REQUEST_GET, REQUEST_PUT, REQUEST_SCAN,
};
use kvsys::kvstorage::{Key, Value};
use std::sync::Arc;

fn pkey(n: u8) -> Key {
    Key { data: [b'k', b'e', b'y', 0, 0, 0, 0, n] }
}

fn pvalue(n: u8) -> Value {
    let mut data = [n; 256];
    data[255] = 0x5a;
    Value { data }
}

#[test]
fn tags_and_sizes() {
    assert_eq!(KV_PAIR_SERIALIZED_SIZE, 264);
    assert_eq!(
        [REQUEST_GET, REQUEST_PUT, REQUEST_DEL, REQUEST_SCAN, REQUEST_CLOSE],
        [0, 1, 2, 3, 4]
    );
    assert_eq!(
        [REPLY_SINGLE_VALUE, REPLY_SUCCESS, REPLY_ERROR, REPLY_NUMBER, REPLY_KV_PAIRS],
        [0, 1, 2, 3, 4]
    );
}

#[test]
fn request_bytes() {
    assert_eq!(Request::Get(pkey(1)).serialize(), vec![0, b'k', b'e', b'y', 0, 0, 0, 0, 1]);
    assert_eq!(Request::Del(pkey(2)).serialize(), vec![2, b'k', b'e', b'y', 0, 0, 0, 0, 2]);
    assert_eq!(Request::Close.serialize(), vec![4]);
    let scan = Request::Scan(pkey(1), pkey(9)).serialize();
    assert_eq!(scan.len(), 17);
    assert_eq!(scan[0], 3);
    assert_eq!(&scan[1..9], &pkey(1).data);
    assert_eq!(&scan[9..], &pkey(9).data);
    let put = Request::Put(pkey(3), pvalue(7)).serialize();
    assert_eq!(put.len(), 265);
    assert_eq!(put[0], 1);
    assert_eq!(&put[1..9], &pkey(3).data);
    assert_eq!(&put[9..], &pvalue(7).data[..]);
}

#[test]
fn request_round_trip() {
    let requests = vec![
        Request::Get(pkey(1)),
        Request::Put(pkey(2), pvalue(3)),
        Request::Del(pkey(4)),
        Request::Scan(pkey(5), pkey(6)),
        Request::Close,
    ];
    for request in requests {
        assert_eq!(Request::deserialize_from(request.serialize()), Ok(request));
    }
}

#[test]
fn empty_request_is_refused() {
    assert_eq!(Request::deserialize_from(vec![]), Err(ProtocolError::Empty));
}

#[test]
fn request_with_unknown_tag_is_refused() {
    assert_eq!(Request::deserialize_from(vec![5]), Err(ProtocolError::UnknownTag));
    assert_eq!(Request::deserialize_from(vec![0xff; 9]), Err(ProtocolError::UnknownTag));
}

#[test]
fn request_of_wrong_length_is_refused() {
    assert_eq!(Request::deserialize_from(vec![0]), Err(ProtocolError::BadLength));
    assert_eq!(Request::deserialize_from(vec![0; 8]), Err(ProtocolError::BadLength));
    assert_eq!(Request::deserialize_from(vec![0; 10]), Err(ProtocolError::BadLength));
    assert_eq!(Request::deserialize_from(vec![1; 9]), Err(ProtocolError::BadLength));
    assert_eq!(Request::deserialize_from(vec![1; 266]), Err(ProtocolError::BadLength));
    assert_eq!(Request::deserialize_from(vec![2; 17]), Err(ProtocolError::BadLength));
    assert_eq!(Request::deserialize_from(vec![3; 9]), Err(ProtocolError::BadLength));
    assert_eq!(Request::deserialize_from(vec![4, 0]), Err(ProtocolError::BadLength));
}

#[test]
fn reply_bytes() {
    assert_eq!(ServerReplyChunk::SingleValue(None).serialize(), vec![0]);
    let single = ServerReplyChunk::SingleValue(Some(Arc::new(pvalue(8)))).serialize();
    assert_eq!(single.len(), 257);
    assert_eq!(single[0], 0);
    assert_eq!(&single[1..], &pvalue(8).data[..]);
    assert_eq!(ServerReplyChunk::Success.serialize(), vec![1]);
    assert_eq!(ServerReplyChunk::Error.serialize(), vec![2]);
    assert_eq!(ServerReplyChunk::Number(0).serialize(), vec![3, 0, 0, 0, 0, 0, 0, 0, 0]);
    assert_eq!(ServerReplyChunk::Number(1).serialize(), vec![3, 0, 0, 0, 0, 0, 0, 0, 1]);
    assert_eq!(ServerReplyChunk::Number(0x0102).serialize(), vec![3, 0, 0, 0, 0, 0, 0, 1, 2]);
    assert_eq!(ServerReplyChunk::KVPairs(&[]).serialize(), vec![4]);
    let rows = vec![(pkey(1), Arc::new(pvalue(1))), (pkey(2), Arc::new(pvalue(2)))];
    let bytes = ServerReplyChunk::KVPairs(&rows).serialize();
    assert_eq!(bytes.len(), 1 + 2 * 264);
    assert_eq!(bytes[0], 4);
    assert_eq!(&bytes[1..9], &pkey(1).data);
    assert_eq!(&bytes[9..265], &pvalue(1).data[..]);
    assert_eq!(&bytes[265..273], &pkey(2).data);
    assert_eq!(&bytes[273..], &pvalue(2).data[..]);
}

#[test]
fn reply_round_trip() {
    assert_eq!(
        ReplyChunk::deserialize(ServerReplyChunk::SingleValue(None).serialize()),
        Ok(ReplyChunk::SingleValue(None))
    );
    assert_eq!(
        ReplyChunk::deserialize(ServerReplyChunk::SingleValue(Some(Arc::new(pvalue(3)))).serialize()),
        Ok(ReplyChunk::SingleValue(Some(pvalue(3))))
    );
    assert_eq!(ReplyChunk::deserialize(ServerReplyChunk::Success.serialize()), Ok(ReplyChunk::Success));
    assert_eq!(ReplyChunk::deserialize(ServerReplyChunk::Error.serialize()), Ok(ReplyChunk::Error));
    assert_eq!(
        ReplyChunk::deserialize(ServerReplyChunk::Number(1).serialize()),
        Ok(ReplyChunk::Number(1))
    );
    assert_eq!(
        ReplyChunk::deserialize(ServerReplyChunk::Number(0xdead_beef).serialize()),
        Ok(ReplyChunk::Number(0xdead_beef))
    );
    let rows = vec![
        (pkey(1), Arc::new(pvalue(1))),
        (pkey(2), Arc::new(pvalue(2))),
        (pkey(3), Arc::new(pvalue(3))),
    ];
    assert_eq!(
        ReplyChunk::deserialize(ServerReplyChunk::KVPairs(&rows).serialize()),
        Ok(ReplyChunk::KVPairs(vec![(pkey(1), pvalue(1)), (pkey(2), pvalue(2)), (pkey(3), pvalue(3))]))
    );
    assert_eq!(
        ReplyChunk::deserialize(ServerReplyChunk::KVPairs(&[]).serialize()),
        Ok(ReplyChunk::KVPairs(vec![]))
    );
}

#[test]
fn empty_reply_is_refused() {
    assert_eq!(ReplyChunk::deserialize(vec![]), Err(ProtocolError::Empty));
}

#[test]
fn reply_with_unknown_tag_is_refused() {
    assert_eq!(ReplyChunk::deserialize(vec![5]), Err(ProtocolError::UnknownTag));
    assert_eq!(ReplyChunk::deserialize(vec![200, 1, 2]), Err(ProtocolError::UnknownTag));
}

#[test]
fn reply_of_wrong_length_is_refused() {
    assert_eq!(ReplyChunk::deserialize(vec![0; 2]), Err(ProtocolError::BadLength));
    assert_eq!(ReplyChunk::deserialize(vec![0; 256]), Err(ProtocolError::BadLength));
    assert_eq!(ReplyChunk::deserialize(vec![0; 258]), Err(ProtocolError::BadLength));
    assert_eq!(ReplyChunk::deserialize(vec![1, 1]), Err(ProtocolError::BadLength));
    assert_eq!(ReplyChunk::deserialize(vec![2, 0, 0]), Err(ProtocolError::BadLength));
    assert_eq!(ReplyChunk::deserialize(vec![3]), Err(ProtocolError::BadLength));
    assert_eq!(ReplyChunk::deserialize(vec![3; 8]), Err(ProtocolError::BadLength));
    assert_eq!(ReplyChunk::deserialize(vec![3; 10]), Err(ProtocolError::BadLength));
    assert_eq!(ReplyChunk::deserialize(vec![4; 2]), Err(ProtocolError::BadLength));
    assert_eq!(ReplyChunk::deserialize(vec![4; 264]), Err(ProtocolError::BadLength));
    assert_eq!(ReplyChunk::deserialize(vec![4; 266]), Err(ProtocolError::BadLength));
}
