use std::collections::BTreeMap;

use kvs::kv::storage::FileAction;
use kvs::{KVError, KvStore};

fn apply(disk: &mut BTreeMap<usize, Vec<u8>>, actions: Vec<FileAction>) {
    for a in actions {
        match a {
            FileAction::Create(s) => {
                disk.entry(s).or_default();
            }
            FileAction::Append(s, b) => disk.entry(s).or_default().extend_from_slice(&b),
            FileAction::Delete(s) => {
                disk.remove(&s);
            }
        }
    }
}

fn files_of(disk: &BTreeMap<usize, Vec<u8>>) -> Vec<(String, Vec<u8>)> {
    disk.iter().map(|(s, b)| (s.to_string(), b.clone())).collect()
}

fn fresh() -> KvStore {
    KvStore::open(Vec::new()).unwrap()
}

#[test]
fn set_then_get_returns_value() {
    let mut kv = fresh();
    kv.set("k".to_string(), "v".to_string()).unwrap();
    assert_eq!(kv.get("k".to_string()).unwrap(), Some("v".to_string()));
}

#[test]
fn get_of_absent_key_is_none() {
    let kv = fresh();
    assert_eq!(kv.get("nothing".to_string()).unwrap(), None);
}

#[test]
fn remove_then_get_is_absent_and_second_remove_fails() {
    let mut kv = fresh();
    kv.set("k".to_string(), "v".to_string()).unwrap();
    kv.remove("k".to_string()).unwrap();
    assert_eq!(kv.get("k".to_string()).unwrap(), None);
    assert!(matches!(kv.remove("k".to_string()), Err(KVError::KeyNotFound(_))));
}

#[test]
fn overwrite_keeps_last_value() {
    let mut kv = fresh();
    kv.set("k".to_string(), "v1".to_string()).unwrap();
    kv.set("k".to_string(), "v2".to_string()).unwrap();
    assert_eq!(kv.get("k".to_string()).unwrap(), Some("v2".to_string()));
}

#[test]
fn scenario_set_set_get_remove() {
    let mut kv = fresh();
    kv.set("a".to_string(), "1".to_string()).unwrap();
    kv.set("a".to_string(), "2".to_string()).unwrap();
    assert_eq!(kv.get("a".to_string()).unwrap(), Some("2".to_string()));
    kv.remove("a".to_string()).unwrap();
    assert_eq!(kv.get("a".to_string()).unwrap(), None);
    assert!(matches!(kv.remove("a".to_string()), Err(KVError::KeyNotFound(_))));
}

#[test]
fn escaped_keys_and_values_round_trip() {
    let mut kv = fresh();
    let key = "q\"uo\\te\n\u{1}é".to_string();
    let value = "tab\tand ✓ unicode".to_string();
    kv.set(key.clone(), value.clone()).unwrap();
    assert_eq!(kv.get(key).unwrap(), Some(value));
}

#[test]
fn compaction_keeps_contents() {
    let mut kv = fresh();
    let mut disk = BTreeMap::new();
    for i in 0..400 {
        kv.set(format!("key{}", i % 20), format!("value{}", i)).unwrap();
    }
    apply(&mut disk, kv.take_actions());
    for i in 0..20 {
        let want = format!("value{}", 380 + i);
        assert_eq!(kv.get(format!("key{}", i)).unwrap(), Some(want));
    }
    // compaction has run: the log is far smaller than all the writes made
    let total: usize = disk.values().map(|b| b.len()).sum();
    assert!(total < 10_000 + 4_000);
    assert!(!disk.contains_key(&0));
}

#[test]
fn reopen_yields_same_contents() {
    let mut kv = fresh();
    let mut disk = BTreeMap::new();
    for i in 0..300 {
        kv.set(format!("k{}", i % 37), format!("v{}", i)).unwrap();
        if i % 5 == 0 {
            let _ = kv.remove(format!("k{}", (i + 3) % 37));
        }
    }
    apply(&mut disk, kv.take_actions());
    let reopened = KvStore::open(files_of(&disk)).unwrap();
    for i in 0..40 {
        let k = format!("k{}", i);
        assert_eq!(reopened.get(k.clone()).unwrap(), kv.get(k).unwrap());
    }
}

#[test]
fn open_rejects_bad_file_name() {
    let files = vec![("notaserial".to_string(), Vec::new())];
    assert!(matches!(KvStore::open(files), Err(KVError::ParseError(_))));
}

#[test]
fn open_rejects_remove_of_missing_key() {
    let files = vec![("0".to_string(), b"{\"Remove\":\"a\"}".to_vec())];
    assert!(matches!(KvStore::open(files), Err(KVError::Corruption(_))));
}

#[test]
fn open_rejects_get_on_disk() {
    let files = vec![("0".to_string(), b"{\"Get\":\"a\"}".to_vec())];
    assert!(matches!(KvStore::open(files), Err(KVError::Corruption(_))));
}

#[test]
fn open_rejects_garbage_segment() {
    let files = vec![("3".to_string(), b"{\"Set\":[\"a\"".to_vec())];
    assert!(matches!(KvStore::open(files), Err(KVError::ParseError(_))));
}

#[test]
fn open_replays_segments_in_serial_order() {
    let files = vec![
        ("10".to_string(), b"{\"Set\":[\"a\",\"late\"]}".to_vec()),
        ("2".to_string(), b"{\"Set\":[\"a\",\"early\"]}{\"Set\":[\"b\",\"x\"]}{\"Remove\":\"b\"}".to_vec()),
    ];
    let kv = KvStore::open(files).unwrap();
    assert_eq!(kv.get("a".to_string()).unwrap(), Some("late".to_string()));
    assert_eq!(kv.get("b".to_string()).unwrap(), None);
}

#[test]
fn counters_are_readable() {
    let mut kv = fresh();
    assert_eq!(kv.storage_size(), 0);
    assert_eq!(kv.current_serial(), 0);
    kv.set("a".to_string(), "1".to_string()).unwrap();
    assert_eq!(kv.storage_size(), b"{\"Set\":[\"a\",\"1\"]}".len());
    let mut disk = BTreeMap::new();
    apply(&mut disk, kv.take_actions());
    let reopened = KvStore::open(files_of(&disk)).unwrap();
    assert_eq!(reopened.current_serial(), 1);
    assert_eq!(reopened.storage_size(), kv.storage_size());
}

#[test]
fn remove_of_absent_key_records_nothing() {
    let mut kv = fresh();
    let _ = kv.take_actions();
    assert!(matches!(kv.remove("k".to_string()), Err(KVError::KeyNotFound(_))));
    assert!(kv.take_actions().is_empty());
    assert_eq!(kv.storage_size(), 0);
}

#[test]
fn explicit_merge_keeps_contents_and_shrinks() {
    let mut kv = fresh();
    for i in 0..50 {
        kv.set("k".to_string(), format!("v{}", i)).unwrap();
    }
    kv.set("other".to_string(), "x".to_string()).unwrap();
    let before = kv.storage_size();
    kv.merge().unwrap();
    assert!(kv.storage_size() <= before);
    assert_eq!(kv.get("k".to_string()).unwrap(), Some("v49".to_string()));
    assert_eq!(kv.get("other".to_string()).unwrap(), Some("x".to_string()));
}
