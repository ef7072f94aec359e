//! Tests of the store: lookup semantics, replay on reopen, tombstones, and
//! compaction behaviour around the threshold.

use kvs::store::{KvStore, COMPACT_LIMIT};
use kvs::KvError;

fn s(text: &str) -> String {
    String::from(text)
}

#[test]
fn get_on_empty_store_is_none() {
    let store = KvStore::open(Vec::new()).unwrap();
    assert_eq!(store.get(s("nonexistent")), Ok(None));
}

#[test]
fn default_store_is_empty() {
    let store = KvStore::default();
    assert_eq!(store.get(s("any")), Ok(None));
    assert_eq!(store.record_count(), 0);
    assert!(store.log_bytes().is_empty());
}

#[test]
fn set_then_get() {
    let mut store = KvStore::new();
    store.set(s("k"), s("a")).unwrap();
    assert_eq!(store.get(s("k")), Ok(Some(s("a"))));
}

#[test]
fn last_write_wins() {
    let mut store = KvStore::new();
    store.set(s("k"), s("a")).unwrap();
    store.set(s("k"), s("b")).unwrap();
    assert_eq!(store.get(s("k")), Ok(Some(s("b"))));
}

#[test]
fn tombstone_semantics() {
    let mut store = KvStore::new();
    store.set(s("k"), s("a")).unwrap();
    assert_eq!(store.remove(s("k")), Ok(s("a")));
    assert_eq!(store.get(s("k")), Ok(None));
    assert_eq!(store.remove(s("k")), Err(KvError::KeyNotFound));
}

#[test]
fn remove_missing_key_fails() {
    let mut store = KvStore::new();
    assert_eq!(store.remove(s("ghost")), Err(KvError::KeyNotFound));
}

#[test]
fn replay_rebuilds_state() {
    let mut store = KvStore::new();
    store.set(s("a"), s("1")).unwrap();
    store.set(s("b"), s("2")).unwrap();
    store.set(s("a"), s("3")).unwrap();
    store.set(s("c"), s("4")).unwrap();
    store.remove(s("b")).unwrap();
    let bytes = store.log_bytes().clone();
    let reopened = KvStore::open(bytes).unwrap();
    for key in ["a", "b", "c", "d"] {
        assert_eq!(reopened.get(s(key)), store.get(s(key)));
    }
    assert_eq!(reopened.get(s("a")), Ok(Some(s("3"))));
    assert_eq!(reopened.get(s("b")), Ok(None));
}

#[test]
fn open_garbage_is_corrupt() {
    let bytes = vec![0x42u8, 0x13, 0x07];
    assert_eq!(KvStore::open(bytes).err(), Some(KvError::CorruptRecord));
}

#[test]
fn open_truncated_log_is_corrupt() {
    let mut store = KvStore::new();
    store.set(s("k"), s("a")).unwrap();
    let bytes = store.log_bytes().clone();
    let cut: Vec<u8> = bytes[..bytes.len() - 1].to_vec();
    assert_eq!(KvStore::open(cut).err(), Some(KvError::CorruptRecord));
}

#[test]
fn compaction_preserves_visible_state() {
    let mut store = KvStore::new();
    // leave one mutation of room below the threshold
    let rounds = COMPACT_LIMIT - 1;
    for i in 0..rounds {
        let key = if i % 2 == 0 { "even" } else { "odd" };
        store.set(s(key), format!("{}", i)).unwrap();
    }
    assert_eq!(store.record_count(), rounds);
    let even_before = store.get(s("even"));
    // this mutation crosses the threshold and triggers compaction
    store.set(s("fresh"), s("new")).unwrap();
    assert_eq!(store.get(s("even")), even_before);
    assert_eq!(store.get(s("odd")), Ok(Some(format!("{}", rounds - 2))));
    assert_eq!(store.get(s("fresh")), Ok(Some(s("new"))));
    // the compacted log holds exactly one record per distinct live key
    assert_eq!(store.record_count(), 3);
}

#[test]
fn compaction_drops_tombstones_and_stale_records() {
    let mut store = KvStore::new();
    store.set(s("keep"), s("x")).unwrap();
    store.set(s("gone"), s("y")).unwrap();
    store.remove(s("gone")).unwrap();
    for i in 0..COMPACT_LIMIT {
        store.set(s("churn"), format!("{}", i)).unwrap();
    }
    // the threshold was crossed three mutations before the end: compaction
    // left one record per live key, and the last three appends sit after it
    assert_eq!(store.record_count(), 5);
    assert_eq!(store.get(s("keep")), Ok(Some(s("x"))));
    assert_eq!(store.get(s("gone")), Ok(None));
    assert_eq!(store.get(s("churn")), Ok(Some(format!("{}", COMPACT_LIMIT - 1))));
}

#[test]
fn interrupted_compaction_leaves_original_log_valid() {
    // the rewrite phase never touches the old log: if it is interrupted, the
    // original bytes still replay to the full pre-compaction state
    let mut store = KvStore::new();
    let rounds = COMPACT_LIMIT - 1;
    for i in 0..rounds {
        let key = format!("k{}", i % 5);
        store.set(key, format!("{}", i)).unwrap();
    }
    let original = store.log_bytes().clone();
    // the next mutation compacts and swaps in a new log elsewhere
    store.set(s("k0"), s("last")).unwrap();
    // a store opened over the untouched original log sees the old state
    let recovered = KvStore::open(original).unwrap();
    assert_eq!(recovered.record_count(), rounds);
    for i in 0..5u64 {
        let key = format!("k{}", i);
        assert!(recovered.get(key).unwrap().is_some());
    }
    assert_eq!(recovered.get(s("k0")), Ok(Some(format!("{}", rounds - 1))));
}

#[test]
fn log_bytes_round_trip_after_mixed_mutations() {
    let mut store = KvStore::new();
    store.set(s("x"), s("1")).unwrap();
    store.remove(s("x")).unwrap();
    store.set(s("x"), s("2")).unwrap();
    let reopened = KvStore::open(store.log_bytes().clone()).unwrap();
    assert_eq!(reopened.get(s("x")), Ok(Some(s("2"))));
    assert_eq!(reopened.record_count(), 3);
}
