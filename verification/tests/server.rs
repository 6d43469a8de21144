use kvsys::chunktps::{frame_chunk, CHUNK_MAX_SIZE};
use kvsys::kvserver::protocol::{ReplyChunk, Request};
use kvsys::kvserver::{
    handle_del, handle_get, handle_put, handle_scan, scan_reply_chunks, ROW_PER_CHUNK,
};
use kvsys::kvstorage::{KVStorage, Key, Value};
use std::sync::Arc;

fn gen_key() -> Key {
    Key::from_slice(b"thekey00")
}

fn gen_key_n(n: u64) -> Key {
    Key::decode(0x6b00_0000_0000_0000 + n)
}

fn gen_value() -> Value {
    let mut data = [0u8; 256];
    for (i, byte) in data.iter_mut().enumerate() {
        *byte = (i as u8) ^ 0xa5;
    }
    Value { data }
}

fn appended() -> Result<(), String> {
    Ok(())
}

/// Serves one chunk as the connection loop does, with a log that takes every record.
fn serve(storage: &mut KVStorage, chunk: Vec<u8>) -> Option<Vec<Vec<u8>>> {
    match Request::deserialize_from(chunk).unwrap() {
        Request::Get(key) => Some(vec![handle_get(storage, &key)]),
        Request::Put(key, value) => Some(vec![handle_put(storage, &key, &value, appended())]),
        Request::Del(key) => Some(vec![handle_del(storage, &key, appended())]),
        Request::Scan(key1, key2) => Some(handle_scan(storage, &key1, &key2)),
        Request::Close => None,
    }
}

#[test]
fn row_per_chunk_is_what_fits_beside_the_tag() {
    assert_eq!(ROW_PER_CHUNK, 15);
    assert_eq!(ROW_PER_CHUNK, (CHUNK_MAX_SIZE - 1) / 264);
    assert!(1 + ROW_PER_CHUNK * 264 <= CHUNK_MAX_SIZE);
    assert!(1 + (ROW_PER_CHUNK + 1) * 264 > CHUNK_MAX_SIZE);
}

#[test]
fn test_handle_put() {
    let mut storage = KVStorage::new();
    let key = gen_key();
    let value = gen_value();
    let replies = serve(&mut storage, Request::Put(key, value).serialize()).unwrap();
    assert_eq!(replies.len(), 1);
    assert_eq!(ReplyChunk::deserialize(replies[0].clone()), Ok(ReplyChunk::Success));
    assert!(serve(&mut storage, Request::Close.serialize()).is_none());
    assert_eq!(storage.get(&key).unwrap().data.to_vec(), value.data.to_vec());
}

#[test]
fn test_handle_get() {
    let mut storage = KVStorage::new();
    let key = gen_key();
    let value = gen_value();
    storage.put(&key, &value, appended()).unwrap();
    let replies = serve(&mut storage, Request::Get(key).serialize()).unwrap();
    assert_eq!(replies.len(), 1);
    let reply = ReplyChunk::deserialize(replies[0].clone()).unwrap();
    match reply {
        ReplyChunk::SingleValue(v) => {
            assert_eq!(v.unwrap(), value)
        }
        _ => panic!(),
    }
    assert!(serve(&mut storage, Request::Close.serialize()).is_none());
}

#[test]
fn test_handle_scan() {
    let mut storage = KVStorage::new();
    for i in 0..2048 {
        let key = gen_key_n(i);
        let value = gen_value();
        storage.put(&key, &value, appended()).unwrap();
    }
    let chunks =
        serve(&mut storage, Request::Scan(gen_key_n(0), gen_key_n(2048)).serialize()).unwrap();

    let mut total_data: usize = 0;
    let mut data_chunks: usize = 0;
    let mut ended = false;
    for data in chunks {
        assert!(!ended);
        if data.len() == 0 {
            ended = true;
            continue;
        }
        data_chunks += 1;
        let chunk = ReplyChunk::deserialize(data).unwrap();
        match chunk {
            ReplyChunk::KVPairs(kv_pairs) => {
                total_data += kv_pairs.len();
                for (k, v) in kv_pairs.iter() {
                    let value = storage.get(k).unwrap();
                    assert_eq!(&*value, v);
                }
            }
            _ => panic!(),
        }
    }
    assert!(ended);
    assert_eq!(total_data, 2048);
    assert_eq!(data_chunks, 137);
}

#[test]
fn get_of_a_missing_key_answers_no_value() {
    let storage = KVStorage::new();
    let reply = handle_get(&storage, &gen_key());
    assert_eq!(reply, vec![0]);
    assert_eq!(ReplyChunk::deserialize(reply), Ok(ReplyChunk::SingleValue(None)));
}

#[test]
fn failed_put_answers_error_and_the_connection_goes_on() {
    let mut storage = KVStorage::new();
    let key = gen_key();
    let refused: Result<(), String> = Err(String::from("no space left"));
    let reply = handle_put(&mut storage, &key, &gen_value(), refused);
    assert_eq!(ReplyChunk::deserialize(reply), Ok(ReplyChunk::Error));
    assert!(storage.get(&key).is_none());
    let reply = handle_put(&mut storage, &key, &gen_value(), appended());
    assert_eq!(ReplyChunk::deserialize(reply), Ok(ReplyChunk::Success));
    assert_eq!(*storage.get(&key).unwrap(), gen_value());
}

#[test]
fn del_answers_the_rows_affected() {
    let mut storage = KVStorage::new();
    let key = gen_key();
    let reply = handle_del(&mut storage, &key, appended());
    assert_eq!(ReplyChunk::deserialize(reply), Ok(ReplyChunk::Number(0)));
    storage.put(&key, &gen_value(), appended()).unwrap();
    let reply = handle_del(&mut storage, &key, appended());
    assert_eq!(ReplyChunk::deserialize(reply), Ok(ReplyChunk::Number(1)));
    assert!(storage.get(&key).is_none());
    let reply = handle_del(&mut storage, &key, appended());
    assert_eq!(ReplyChunk::deserialize(reply), Ok(ReplyChunk::Number(1)));
}

#[test]
fn failed_del_answers_error_and_keeps_the_value() {
    let mut storage = KVStorage::new();
    let key = gen_key();
    storage.put(&key, &gen_value(), appended()).unwrap();
    let refused: Result<(), String> = Err(String::from("no space left"));
    let reply = handle_del(&mut storage, &key, refused);
    assert_eq!(ReplyChunk::deserialize(reply), Ok(ReplyChunk::Error));
    assert_eq!(*storage.get(&key).unwrap(), gen_value());
}

#[test]
fn scan_that_finds_nothing_sends_the_end_mark_alone() {
    let storage = KVStorage::new();
    let chunks = handle_scan(&storage, &gen_key_n(0), &gen_key_n(100));
    assert_eq!(chunks, vec![Vec::<u8>::new()]);
    assert_eq!(scan_reply_chunks(&[]), vec![Vec::<u8>::new()]);
}

#[test]
fn scan_reply_has_ceil_n_over_p_data_chunks() {
    let value = Arc::new(gen_value());
    let counts: [usize; 9] = [0, 1, 14, 15, 16, 29, 30, 31, 45];
    let data_chunks: [usize; 9] = [0, 1, 1, 1, 2, 2, 2, 3, 3];
    for (n, expected) in counts.iter().zip(data_chunks.iter()) {
        let rows: Vec<(Key, Arc<Value>)> =
            (0..*n).map(|i| (gen_key_n(i as u64), value.clone())).collect();
        let chunks = scan_reply_chunks(&rows);
        assert_eq!(chunks.len(), expected + 1);
        assert!(chunks[chunks.len() - 1].is_empty());
        let mut seen: Vec<Key> = Vec::new();
        for (at, chunk) in chunks[..chunks.len() - 1].iter().enumerate() {
            assert!(chunk.len() <= CHUNK_MAX_SIZE);
            assert!(frame_chunk(chunk).is_ok());
            match ReplyChunk::deserialize(chunk.clone()).unwrap() {
                ReplyChunk::KVPairs(pairs) => {
                    if at + 2 < chunks.len() {
                        assert_eq!(pairs.len(), ROW_PER_CHUNK);
                    } else {
                        assert_eq!(pairs.len(), n - at * ROW_PER_CHUNK);
                    }
                    seen.extend(pairs.iter().map(|p| p.0));
                }
                _ => panic!("a data chunk holds pairs"),
            }
        }
        let sent: Vec<Key> = rows.iter().map(|r| r.0).collect();
        assert_eq!(seen, sent);
    }
}

#[test]
fn scan_reply_chunk_sizes() {
    let value = Arc::new(gen_value());
    let rows: Vec<(Key, Arc<Value>)> = (0..16u64).map(|i| (gen_key_n(i), value.clone())).collect();
    let chunks = scan_reply_chunks(&rows);
    let sizes: Vec<usize> = chunks.iter().map(|c| c.len()).collect();
    assert_eq!(sizes, vec![3961, 265, 0]);
}

#[test]
fn a_session_over_framed_chunks() {
    let mut storage = KVStorage::new();
    let k1 = gen_key_n(1);
    let k2 = gen_key_n(2);
    let k3 = gen_key_n(3);
    let requests = vec![
        Request::Put(k1, gen_value()),
        Request::Put(k2, gen_value()),
        Request::Scan(k1, k3),
        Request::Del(k1),
        Request::Get(k1),
        Request::Scan(k1, k3),
        Request::Close,
    ];
    let mut inbound: Vec<u8> = Vec::new();
    for request in requests.iter() {
        inbound.extend(frame_chunk(&request.serialize()).unwrap());
    }
    let mut replies: Vec<Vec<u8>> = Vec::new();
    let mut at: usize = 0;
    let mut closed = false;
    while let Some((chunk, used)) = kvsys::chunktps::parse_chunk(&inbound[at..]).unwrap() {
        at += used;
        match serve(&mut storage, chunk) {
            Some(chunks) => replies.extend(chunks),
            None => {
                closed = true;
                break;
            }
        }
    }
    assert!(closed);
    assert_eq!(at, inbound.len());
    let read: Vec<Option<ReplyChunk>> = replies
        .into_iter()
        .map(|c| if c.is_empty() { None } else { Some(ReplyChunk::deserialize(c).unwrap()) })
        .collect();
    assert_eq!(
        read,
        vec![
            Some(ReplyChunk::Success),
            Some(ReplyChunk::Success),
            Some(ReplyChunk::KVPairs(vec![(k1, gen_value()), (k2, gen_value())])),
            None,
            Some(ReplyChunk::Number(1)),
            Some(ReplyChunk::SingleValue(None)),
            Some(ReplyChunk::KVPairs(vec![(k2, gen_value())])),
            None,
        ]
    );
}
