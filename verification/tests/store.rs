//! End-to-end tests of the storage engine, each starting from an empty
//! log.

use kvs::codec::decode_record;
use kvs::codec::encode_command;
use kvs::Command;
use kvs::KvStore;
use kvs::KvsError;
use kvs::COMPACTION_THRESHOLD;

fn open_empty() -> KvStore {
    KvStore::open(Vec::new()).unwrap()
}

fn b(s: &str) -> Vec<u8> {
    s.as_bytes().to_vec()
}

#[test]
fn two_keys_two_values() {
    let mut store = open_empty();
    store.set(b("key1"), b("value1")).unwrap();
    store.set(b("key2"), b("value2")).unwrap();
    assert_eq!(store.get(b("key1")).unwrap(), Some(b("value1")));
    assert_eq!(store.get(b("key2")).unwrap(), Some(b("value2")));
}

#[test]
fn overwritten_value() {
    let mut store = open_empty();
    store.set(b("key1"), b("value1")).unwrap();
    store.set(b("key1"), b("value2")).unwrap();
    assert_eq!(store.get(b("key1")).unwrap(), Some(b("value2")));
}

#[test]
fn missing_key() {
    let store = open_empty();
    assert_eq!(store.get(b("missing")).unwrap(), None);
}

#[test]
fn remove_then_get() {
    let mut store = open_empty();
    store.set(b("key1"), b("value1")).unwrap();
    store.remove(b("key1")).unwrap();
    assert_eq!(store.get(b("key1")).unwrap(), None);
    match store.remove(b("key1")) {
        Err(KvsError::NonExistentKey(k)) => assert_eq!(k, b("key1")),
        other => panic!("expected NonExistentKey, got {:?}", other),
    }
}

#[test]
fn reopen_after_set() {
    let mut store = KvStore::open(Vec::new()).unwrap();
    store.set(b("k"), b("v")).unwrap();
    let log = store.log_bytes().clone();
    drop(store);
    let store2 = KvStore::open(log).unwrap();
    assert_eq!(store2.get(b("k")).unwrap(), Some(b("v")));
}

#[test]
fn remove_of_absent_key_leaves_log_untouched() {
    let mut store = open_empty();
    store.set(b("kept"), b("datum")).unwrap();
    let before = store.log_len();
    match store.remove(b("ghost")) {
        Err(KvsError::NonExistentKey(k)) => assert_eq!(k, b("ghost")),
        other => panic!("expected NonExistentKey, got {:?}", other),
    }
    assert_eq!(store.log_len(), before);
}

#[test]
fn writes_leave_other_keys_alone() {
    let mut store = open_empty();
    store.set(b("k2"), b("stays")).unwrap();
    store.set(b("k1"), b("one")).unwrap();
    store.set(b("k1"), b("two")).unwrap();
    assert_eq!(store.get(b("k2")).unwrap(), Some(b("stays")));
    store.remove(b("k1")).unwrap();
    assert_eq!(store.get(b("k2")).unwrap(), Some(b("stays")));
}

#[test]
fn replay_rebuilds_the_same_mapping() {
    let mut store = open_empty();
    store.set(b("alpha"), b("1")).unwrap();
    store.set(b("beta"), b("2")).unwrap();
    store.set(b("alpha"), b("3")).unwrap();
    store.remove(b("beta")).unwrap();
    store.set(b("gamma"), b("4")).unwrap();
    let reopened = KvStore::open(store.log_bytes().clone()).unwrap();
    for key in ["alpha", "beta", "gamma", "delta"] {
        assert_eq!(
            reopened.get(b(key)).unwrap(),
            store.get(b(key)).unwrap(),
            "diverged on {key}"
        );
    }
}

#[test]
fn dead_byte_counter_is_exact() {
    let mut store = open_empty();
    // A one-byte key and one-byte value frame as 17 + 1 + 1 bytes.
    store.set(b("a"), b("v")).unwrap();
    assert_eq!(store.uncompacted(), 0);
    assert_eq!(store.log_len(), 19);
    store.set(b("a"), b("w")).unwrap();
    assert_eq!(store.uncompacted(), 19);
    // Removing writes a 9 + 1 byte record and orphans the live one.
    store.remove(b("a")).unwrap();
    assert_eq!(store.uncompacted(), 19 + 19 + 10);
}

#[test]
fn compaction_preserves_content_and_resets_counter() {
    let mut store = open_empty();
    for i in 0..50 {
        store.set(b(&format!("key{i}")), b(&format!("value{i}"))).unwrap();
    }
    for i in 0..50 {
        store.set(b(&format!("key{i}")), b(&format!("fresh{i}"))).unwrap();
    }
    store.remove(b("key7")).unwrap();
    let before_len = store.log_len();
    store.compact();
    assert_eq!(store.uncompacted(), 0);
    assert!(store.log_len() < before_len);
    assert_eq!(store.get(b("key7")).unwrap(), None);
    for i in 0..50 {
        if i != 7 {
            assert_eq!(store.get(b(&format!("key{i}"))).unwrap(), Some(b(&format!("fresh{i}"))));
        }
    }
    // The compacted log replays to the same store.
    let reopened = KvStore::open(store.log_bytes().clone()).unwrap();
    assert_eq!(reopened.get(b("key33")).unwrap(), Some(b("fresh33")));
}

#[test]
fn overwrites_keep_the_log_bounded() {
    let mut store = open_empty();
    let keys: Vec<Vec<u8>> = (0..1000).map(|i| b(&format!("key{i:04}"))).collect();
    let kib = vec![b'x'; 1024];
    for key in &keys {
        store.set(key.clone(), kib.clone()).unwrap();
    }
    let mut value = vec![b'y'; 1024];
    for round in 0..1000u32 {
        value[0] = (round % 256) as u8;
        for key in &keys {
            store.set(key.clone(), value.clone()).unwrap();
        }
    }
    // Dead bytes never linger past the threshold, so the log stays a
    // small multiple of it no matter how many writes happened.
    let live = 1000 * (17 + 7 + 1024);
    assert!(store.log_len() <= COMPACTION_THRESHOLD as usize + live);
    for key in &keys {
        let got = store.get(key.clone()).unwrap().unwrap();
        assert_eq!(got.len(), 1024);
        assert_eq!(got[0], (999 % 256) as u8);
    }
}

#[test]
fn records_round_trip_through_the_frame() {
    let rec = encode_command(&Command::set(b("a"), b("b")));
    assert_eq!(rec.len(), 19);
    assert_eq!(rec[0], 0);
    assert_eq!(rec[1], 1);
    assert_eq!(rec[9], b'a');
    match decode_record(&rec, 0) {
        Some((Command::Put { key, value }, used)) => {
            assert_eq!(used, 19);
            assert_eq!(key, b("a"));
            assert_eq!(value, b("b"));
        },
        other => panic!("unexpected decode: {:?}", other.map(|p| p.1)),
    }
    let rm = encode_command(&Command::remove(b("gone")));
    assert_eq!(rm.len(), 13);
    match decode_record(&rm, 0) {
        Some((Command::Rm { key }, used)) => {
            assert_eq!(used, 13);
            assert_eq!(key, b("gone"));
        },
        other => panic!("unexpected decode: {:?}", other.map(|p| p.1)),
    }
}

#[test]
fn corrupt_log_is_surfaced() {
    match KvStore::open(vec![7, 7, 7]) {
        Err(KvsError::Des) => {},
        other => panic!("expected a deserialization failure, got {:?}", other.map(|_| ())),
    }
    // A log truncated mid-record fails replay too.
    let mut store = open_empty();
    store.set(b("key"), b("value")).unwrap();
    let mut log = store.log_bytes().clone();
    log.pop();
    match KvStore::open(log) {
        Err(KvsError::Des) => {},
        other => panic!("expected a deserialization failure, got {:?}", other.map(|_| ())),
    }
}

#[test]
fn empty_key_and_empty_value_are_values_like_any_other() {
    let mut store = open_empty();
    store.set(b(""), b("empty key")).unwrap();
    store.set(b("empty value"), b("")).unwrap();
    assert_eq!(store.get(b("")).unwrap(), Some(b("empty key")));
    assert_eq!(store.get(b("empty value")).unwrap(), Some(b("")));
    store.remove(b("")).unwrap();
    assert_eq!(store.get(b("")).unwrap(), None);
}
