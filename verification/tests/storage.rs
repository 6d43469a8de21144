use kvsys::kvstorage::disklog::DiskLogMessage;
use kvsys::kvstorage::{KVStorage, Key, Value};
use std::sync::Arc;

fn skey(text: &[u8; 8]) -> Key {
    Key::from_slice(text)
}

fn svalue(n: u8) -> Value {
    let mut data = [0u8; 256];
    for (i, byte) in data.iter_mut().enumerate() {
        *byte = n.wrapping_add(i as u8);
    }
    Value { data }
}

fn logged() -> Result<(), String> {
    Ok(())
}

fn refused() -> Result<(), String> {
    Err(String::from("disk full"))
}

fn pairs(found: Vec<(Key, Arc<Value>)>) -> Vec<(Key, Value)> {
    found.into_iter().map(|(k, v)| (k, *v)).collect()
}

#[test]
fn get_on_an_empty_engine_is_none() {
    let storage = KVStorage::new();
    assert!(storage.get(&skey(b"nothing!")).is_none());
    assert!(storage.scan(&skey(b"\0\0\0\0\0\0\0\0"), &skey(b"\xff\xff\xff\xff\xff\xff\xff\xff")).is_empty());
}

#[test]
fn put_then_get_gives_the_value() {
    let mut storage = KVStorage::new();
    let key = skey(b"key00001");
    assert_eq!(storage.put(&key, &svalue(1), logged()), Ok(()));
    assert_eq!(*storage.get(&key).unwrap(), svalue(1));
    assert!(storage.get(&skey(b"key00002")).is_none());
}

#[test]
fn put_replaces_and_leaves_other_keys_alone() {
    let mut storage = KVStorage::new();
    let a = skey(b"key0000a");
    let b = skey(b"key0000b");
    storage.put(&a, &svalue(1), logged()).unwrap();
    storage.put(&b, &svalue(2), logged()).unwrap();
    let before = storage.get(&a).unwrap();
    storage.put(&a, &svalue(3), logged()).unwrap();
    assert_eq!(*storage.get(&a).unwrap(), svalue(3));
    assert_eq!(*storage.get(&b).unwrap(), svalue(2));
    assert_eq!(*before, svalue(1));
}

#[test]
fn put_after_a_failed_append_changes_nothing() {
    let mut storage = KVStorage::new();
    let key = skey(b"key00001");
    assert_eq!(storage.put(&key, &svalue(1), refused()), Err(String::from("disk full")));
    assert!(storage.get(&key).is_none());
    storage.put(&key, &svalue(1), logged()).unwrap();
    assert_eq!(storage.put(&key, &svalue(2), refused()), Err(String::from("disk full")));
    assert_eq!(*storage.get(&key).unwrap(), svalue(1));
}

#[test]
fn put_record_names_the_key_and_the_value() {
    let key = skey(b"key00001");
    match KVStorage::put_record(&key, &svalue(7)) {
        DiskLogMessage::Put(k, v) => {
            assert_eq!(k, key);
            assert_eq!(*v, svalue(7));
        }
        DiskLogMessage::Delete(_) => panic!("a put is logged as a put"),
    }
}

#[test]
fn delete_of_a_key_never_set_is_zero_rows_and_no_record() {
    let mut storage = KVStorage::new();
    let key = skey(b"key00001");
    assert!(storage.delete_record(&key).is_none());
    assert_eq!(storage.delete(&key, logged()), Ok(0));
    assert_eq!(storage.delete(&key, refused()), Ok(0));
    assert!(storage.delete_record(&key).is_none());
    assert!(storage.get(&key).is_none());
}

#[test]
fn delete_of_a_set_key_is_one_row() {
    let mut storage = KVStorage::new();
    let key = skey(b"key00001");
    storage.put(&key, &svalue(1), logged()).unwrap();
    match storage.delete_record(&key) {
        Some(DiskLogMessage::Delete(k)) => assert_eq!(k, key),
        _ => panic!("a delete of a set key is logged"),
    }
    assert_eq!(storage.delete(&key, logged()), Ok(1));
    assert!(storage.get(&key).is_none());
}

#[test]
fn delete_of_a_deleted_key_is_one_row_again() {
    let mut storage = KVStorage::new();
    let key = skey(b"key00001");
    storage.put(&key, &svalue(1), logged()).unwrap();
    assert_eq!(storage.delete(&key, logged()), Ok(1));
    assert!(matches!(storage.delete_record(&key), Some(DiskLogMessage::Delete(_))));
    assert_eq!(storage.delete(&key, logged()), Ok(1));
    assert!(matches!(storage.delete_record(&key), Some(DiskLogMessage::Delete(_))));
    assert_eq!(storage.delete(&key, logged()), Ok(1));
    assert!(storage.get(&key).is_none());
}

#[test]
fn delete_after_a_failed_append_changes_nothing() {
    let mut storage = KVStorage::new();
    let key = skey(b"key00001");
    storage.put(&key, &svalue(1), logged()).unwrap();
    assert_eq!(storage.delete(&key, refused()), Err(String::from("disk full")));
    assert_eq!(*storage.get(&key).unwrap(), svalue(1));
}

#[test]
fn put_after_delete_sets_the_key_again() {
    let mut storage = KVStorage::new();
    let key = skey(b"key00001");
    storage.put(&key, &svalue(1), logged()).unwrap();
    storage.delete(&key, logged()).unwrap();
    storage.put(&key, &svalue(2), logged()).unwrap();
    assert_eq!(*storage.get(&key).unwrap(), svalue(2));
    assert_eq!(pairs(storage.scan(&key, &skey(b"key00002"))), vec![(key, svalue(2))]);
}

#[test]
fn scan_is_half_open_and_ascending() {
    let mut storage = KVStorage::new();
    let names: [&[u8; 8]; 5] = [b"key00005", b"key00001", b"key00003", b"key00002", b"key00004"];
    for (i, name) in names.iter().enumerate() {
        storage.put(&skey(name), &svalue(i as u8), logged()).unwrap();
    }
    let found = pairs(storage.scan(&skey(b"key00002"), &skey(b"key00005")));
    assert_eq!(
        found,
        vec![
            (skey(b"key00002"), svalue(3)),
            (skey(b"key00003"), svalue(2)),
            (skey(b"key00004"), svalue(4)),
        ]
    );
    let all = pairs(storage.scan(&skey(b"\0\0\0\0\0\0\0\0"), &skey(b"\xff\xff\xff\xff\xff\xff\xff\xff")));
    assert_eq!(all.len(), 5);
    for pair in all.windows(2) {
        assert!(pair[0].0.data < pair[1].0.data);
    }
}

#[test]
fn scan_of_an_empty_or_reversed_range_is_empty() {
    let mut storage = KVStorage::new();
    storage.put(&skey(b"key00001"), &svalue(1), logged()).unwrap();
    storage.put(&skey(b"key00002"), &svalue(2), logged()).unwrap();
    assert!(storage.scan(&skey(b"key00001"), &skey(b"key00001")).is_empty());
    assert!(storage.scan(&skey(b"key00002"), &skey(b"key00002")).is_empty());
    assert!(storage.scan(&skey(b"key00009"), &skey(b"key00009")).is_empty());
    assert!(storage.scan(&skey(b"key00002"), &skey(b"key00001")).is_empty());
    assert!(storage.scan(&skey(b"key00003"), &skey(b"key00009")).is_empty());
}

#[test]
fn scan_leaves_deleted_keys_out() {
    let mut storage = KVStorage::new();
    storage.put(&skey(b"key00001"), &svalue(1), logged()).unwrap();
    storage.put(&skey(b"key00002"), &svalue(2), logged()).unwrap();
    storage.put(&skey(b"key00003"), &svalue(3), logged()).unwrap();
    storage.delete(&skey(b"key00002"), logged()).unwrap();
    let found = pairs(storage.scan(&skey(b"key00001"), &skey(b"key00004")));
    assert_eq!(found, vec![(skey(b"key00001"), svalue(1)), (skey(b"key00003"), svalue(3))]);
}

#[test]
fn scan_orders_by_bytes_not_by_sign() {
    let mut storage = KVStorage::new();
    let low = Key { data: [0x7f, 0xff, 0xff, 0xff, 0xff, 0xff, 0xff, 0xff] };
    let high = Key { data: [0x80, 0, 0, 0, 0, 0, 0, 0] };
    let top = Key { data: [0xff; 8] };
    storage.put(&high, &svalue(2), logged()).unwrap();
    storage.put(&low, &svalue(1), logged()).unwrap();
    storage.put(&top, &svalue(3), logged()).unwrap();
    let found = pairs(storage.scan(&Key { data: [0; 8] }, &top));
    assert_eq!(found, vec![(low, svalue(1)), (high, svalue(2))]);
}

#[test]
fn replay_of_the_log_shows_what_the_engine_showed() {
    let mut storage = KVStorage::new();
    let mut file: Vec<u8> = Vec::new();
    let keys: Vec<Key> = (0..40u8).map(|n| Key { data: [0, 0, 0, 0, 0, 0, n / 7, n % 7] }).collect();
    let mut x: u32 = 12345;
    for step in 0..400u32 {
        x = x.wrapping_mul(1664525).wrapping_add(1013904223);
        let key = keys[(x >> 16) as usize % keys.len()];
        if (x >> 8) % 3 == 0 {
            if let Some(record) = storage.delete_record(&key) {
                file.extend(record.serialize());
            }
            storage.delete(&key, logged()).unwrap();
        } else if (x >> 8) % 17 == 1 {
            assert!(storage.put(&key, &svalue(step as u8), refused()).is_err());
        } else {
            file.extend(KVStorage::put_record(&key, &svalue(step as u8)).serialize());
            storage.put(&key, &svalue(step as u8), logged()).unwrap();
        }
    }
    let rebuilt = KVStorage::with_content(KVStorage::read_log_file(file).unwrap());
    for key in keys.iter() {
        assert_eq!(storage.get(key).map(|v| *v), rebuilt.get(key).map(|v| *v));
    }
    let low = Key { data: [0; 8] };
    let high = Key { data: [0xff; 8] };
    assert_eq!(pairs(storage.scan(&low, &high)), pairs(rebuilt.scan(&low, &high)));
    assert_eq!(pairs(storage.scan(&keys[5], &keys[30])), pairs(rebuilt.scan(&keys[5], &keys[30])));
    assert!(!storage.scan(&low, &high).is_empty());
}

#[test]
fn replay_forgets_tombstones() {
    let key = skey(b"key00001");
    let mut file: Vec<u8> = Vec::new();
    let mut storage = KVStorage::new();
    file.extend(KVStorage::put_record(&key, &svalue(1)).serialize());
    storage.put(&key, &svalue(1), logged()).unwrap();
    file.extend(storage.delete_record(&key).unwrap().serialize());
    storage.delete(&key, logged()).unwrap();
    assert!(storage.delete_record(&key).is_some());
    let mut rebuilt = KVStorage::with_content(KVStorage::read_log_file(file).unwrap());
    assert!(rebuilt.get(&key).is_none());
    assert!(rebuilt.delete_record(&key).is_none());
    assert_eq!(rebuilt.delete(&key, logged()), Ok(0));
}

#[test]
fn end_to_end_scenario() {
    let k1 = skey(b"key00001");
    let k2 = skey(b"key00002");
    let k3 = skey(b"key00003");
    let v1 = svalue(10);
    let v2 = svalue(20);
    let mut file: Vec<u8> = Vec::new();
    let mut storage = KVStorage::new();

    file.extend(KVStorage::put_record(&k1, &v1).serialize());
    storage.put(&k1, &v1, logged()).unwrap();
    file.extend(KVStorage::put_record(&k2, &v2).serialize());
    storage.put(&k2, &v2, logged()).unwrap();
    assert_eq!(pairs(storage.scan(&k1, &k3)), vec![(k1, v1), (k2, v2)]);

    file.extend(storage.delete_record(&k1).unwrap().serialize());
    assert_eq!(storage.delete(&k1, logged()), Ok(1));
    assert!(storage.get(&k1).is_none());
    assert_eq!(pairs(storage.scan(&k1, &k3)), vec![(k2, v2)]);
    assert_eq!(file.len(), 265 + 265 + 9);

    let restarted = KVStorage::with_content(KVStorage::read_log_file(file).unwrap());
    assert!(restarted.get(&k1).is_none());
    assert_eq!(*restarted.get(&k2).unwrap(), v2);
    assert_eq!(pairs(restarted.scan(&k1, &k3)), vec![(k2, v2)]);
}

#[test]
fn puts_to_distinct_keys_all_show_in_any_order() {
    let keys: Vec<Key> = (0..32u8).map(|n| Key { data: [n, 1, 2, 3, 4, 5, 6, 7] }).collect();
    let mut forward = KVStorage::new();
    for (i, key) in keys.iter().enumerate() {
        forward.put(key, &svalue(i as u8), logged()).unwrap();
    }
    let mut backward = KVStorage::new();
    for (i, key) in keys.iter().enumerate().rev() {
        backward.put(key, &svalue(i as u8), logged()).unwrap();
    }
    for (i, key) in keys.iter().enumerate() {
        assert_eq!(*forward.get(key).unwrap(), svalue(i as u8));
        assert_eq!(*backward.get(key).unwrap(), svalue(i as u8));
    }
    let low = Key { data: [0; 8] };
    let high = Key { data: [0xff; 8] };
    assert_eq!(pairs(forward.scan(&low, &high)), pairs(backward.scan(&low, &high)));
    assert_eq!(forward.scan(&low, &high).len(), 32);
}
