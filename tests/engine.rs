use yakv::command::Command;
use yakv::engine::{DiskOp, KvStore, COMPACTION_THRESHOLD};
use yakv::error::KvError;
use yakv::BufReaderWithPos;

fn reopen(store: &KvStore) -> KvStore {
    KvStore::open(store.files()).unwrap()
}

fn get(store: &mut KvStore, key: &str) -> Option<String> {
    store.get(key.to_string()).unwrap()
}

#[test]
fn set_get_round_trip_survives_reopen() {
    let mut store = KvStore::open(Vec::new()).unwrap();
    store.set("a".to_string(), "1".to_string()).unwrap();
    assert_eq!(get(&mut store, "a"), Some("1".to_string()));
    let mut again = reopen(&store);
    assert_eq!(get(&mut again, "a"), Some("1".to_string()));
}

#[test]
fn overwrite_survives_reopen() {
    let mut store = KvStore::open(Vec::new()).unwrap();
    store.set("k".to_string(), "v1".to_string()).unwrap();
    store.set("k".to_string(), "v2".to_string()).unwrap();
    assert_eq!(get(&mut store, "k"), Some("v2".to_string()));
    let mut again = reopen(&store);
    assert_eq!(get(&mut again, "k"), Some("v2".to_string()));
}

#[test]
fn remove_then_get() {
    let mut store = KvStore::open(Vec::new()).unwrap();
    store.set("k".to_string(), "v".to_string()).unwrap();
    store.remove("k".to_string()).unwrap();
    assert_eq!(get(&mut store, "k"), None);
    assert_eq!(store.remove("k".to_string()), Err(KvError::NotFound("k".to_string())));
    let mut again = reopen(&store);
    assert_eq!(get(&mut again, "k"), None);
}

#[test]
fn remove_absent_changes_nothing() {
    let mut store = KvStore::open(Vec::new()).unwrap();
    store.set("a".to_string(), "1".to_string()).unwrap();
    let files = store.files();
    let stale = store.stale_bytes();
    assert_eq!(store.remove("b".to_string()), Err(KvError::NotFound("b".to_string())));
    assert_eq!(store.files(), files);
    assert_eq!(store.stale_bytes(), stale);
    assert_eq!(get(&mut store, "a"), Some("1".to_string()));
}

#[test]
fn compaction_trigger() {
    let mut store = KvStore::open(Vec::new()).unwrap();
    assert_eq!(store.segment_ids(), vec![1]);
    let mut last = String::new();
    for i in 0..5u8 {
        last = std::iter::repeat((b'a' + i) as char).take(256 * 1024).collect();
        store.set("x".to_string(), last.clone()).unwrap();
        if i < 4 {
            assert!(store.stale_bytes() > 0 || i == 0);
        }
    }
    assert_eq!(store.stale_bytes(), 0);
    assert_eq!(store.segment_ids(), vec![2, 3]);
    let ids_from_three: Vec<u64> = store.segment_ids().into_iter().filter(|id| *id >= 3).collect();
    assert_eq!(ids_from_three, vec![3]);
    assert_eq!(get(&mut store, "x"), Some(last.clone()));
    let mut again = reopen(&store);
    assert_eq!(get(&mut again, "x"), Some(last));
}

#[test]
fn stale_bytes_count_superseded_records() {
    let mut store = KvStore::open(Vec::new()).unwrap();
    store.set("k".to_string(), "v1".to_string()).unwrap();
    assert_eq!(store.stale_bytes(), 0);
    let first = Command::set("k".to_string(), "v1".to_string()).encode().len() as u64;
    store.set("k".to_string(), "v2".to_string()).unwrap();
    assert_eq!(store.stale_bytes(), first);
    let second = Command::set("k".to_string(), "v2".to_string()).encode().len() as u64;
    let tomb = Command::remove("k".to_string()).encode().len() as u64;
    store.remove("k".to_string()).unwrap();
    assert_eq!(store.stale_bytes(), first + second + tomb);
}

#[test]
fn compaction_keeps_contents() {
    let mut store = KvStore::open(Vec::new()).unwrap();
    for i in 0..20 {
        store.set(format!("key{}", i), format!("value{}", i)).unwrap();
    }
    for i in 0..20 {
        if i % 3 == 0 {
            store.remove(format!("key{}", i)).unwrap();
        }
    }
    store.set("key1".to_string(), "changed".to_string()).unwrap();
    store.compact().unwrap();
    assert_eq!(store.stale_bytes(), 0);
    assert_eq!(store.segment_ids(), vec![2, 3]);
    for i in 0..20 {
        let expected = if i % 3 == 0 {
            None
        } else if i == 1 {
            Some("changed".to_string())
        } else {
            Some(format!("value{}", i))
        };
        assert_eq!(get(&mut store, &format!("key{}", i)), expected);
    }
    assert_eq!(store.remove("key0".to_string()), Err(KvError::NotFound("key0".to_string())));
    assert!(store.remove("key2".to_string()).is_ok());
}

#[test]
fn compaction_leaves_only_live_records() {
    let mut store = KvStore::open(Vec::new()).unwrap();
    store.set("a".to_string(), "1".to_string()).unwrap();
    store.set("b".to_string(), "2".to_string()).unwrap();
    store.set("a".to_string(), "3".to_string()).unwrap();
    store.remove("b".to_string()).unwrap();
    store.set("c".to_string(), "4".to_string()).unwrap();
    store.compact().unwrap();
    let files = store.files();
    let mut live = Command::set("a".to_string(), "3".to_string()).encode();
    live.extend(Command::set("c".to_string(), "4".to_string()).encode());
    assert_eq!(files, vec![(2, live), (3, Vec::new())]);
}

#[test]
fn disk_operations_follow_the_log() {
    let mut store = KvStore::open(Vec::new()).unwrap();
    assert_eq!(store.take_disk_ops(), vec![DiskOp::Create { id: 1 }]);
    store.set("a".to_string(), "1".to_string()).unwrap();
    let rec = Command::set("a".to_string(), "1".to_string()).encode();
    assert_eq!(store.take_disk_ops(), vec![DiskOp::Append { id: 1, bytes: rec.clone() }]);
    assert_eq!(store.take_disk_ops(), Vec::new());
    store.compact().unwrap();
    assert_eq!(
        store.take_disk_ops(),
        vec![
            DiskOp::Create { id: 2 },
            DiskOp::Append { id: 2, bytes: rec },
            DiskOp::Create { id: 3 },
            DiskOp::Delete { id: 1 },
        ]
    );
}

#[test]
fn open_replays_segments_in_order() {
    let mut one = Command::set("a".to_string(), "1".to_string()).encode();
    one.extend(Command::set("b".to_string(), "2".to_string()).encode());
    let mut two = Command::remove("a".to_string()).encode();
    two.extend(Command::set("b".to_string(), "3".to_string()).encode());
    two.extend(Command::remove("zzz".to_string()).encode());
    let mut store = KvStore::open(vec![(4, one), (9, two), (10, Vec::new())]).unwrap();
    assert_eq!(store.segment_ids(), vec![4, 9, 10, 11]);
    assert_eq!(get(&mut store, "a"), None);
    assert_eq!(get(&mut store, "b"), Some("3".to_string()));
    assert!(store.stale_bytes() > 0);
}

#[test]
fn open_rejects_bad_directories() {
    let rec = Command::set("a".to_string(), "1".to_string()).encode();
    assert!(matches!(
        KvStore::open(vec![(2, rec.clone()), (1, Vec::new())]),
        Err(KvError::Other(_))
    ));
    assert!(KvStore::open(vec![(1, Vec::new()), (1, Vec::new())]).is_err());
    let mut cut = rec.clone();
    cut.pop();
    assert!(matches!(KvStore::open(vec![(1, cut)]), Err(KvError::Serialization(_))));
    assert!(matches!(
        KvStore::open(vec![(1, b"garbage".to_vec())]),
        Err(KvError::Serialization(_))
    ));
    assert!(KvStore::open(vec![(u64::MAX, Vec::new())]).is_err());
    assert!(KvStore::open(vec![(u64::MAX - 1, rec)]).is_ok());
}

#[test]
fn durability_after_many_operations() {
    let mut store = KvStore::open_with_threshold(Vec::new(), 200).unwrap();
    let mut expected: std::collections::BTreeMap<String, String> = std::collections::BTreeMap::new();
    for i in 0..60u32 {
        let key = format!("k{}", i % 7);
        if i % 5 == 4 {
            let r = store.remove(key.clone());
            assert_eq!(r.is_ok(), expected.remove(&key).is_some());
        } else {
            let value = format!("v{}", i);
            store.set(key.clone(), value.clone()).unwrap();
            expected.insert(key, value);
        }
    }
    let mut again = reopen(&store);
    for i in 0..7 {
        let key = format!("k{}", i);
        assert_eq!(get(&mut again, &key), expected.get(&key).cloned());
        assert_eq!(get(&mut store, &key), expected.get(&key).cloned());
    }
}

#[test]
fn default_threshold_is_one_mebibyte() {
    assert_eq!(COMPACTION_THRESHOLD, 1024 * 1024);
}

#[test]
fn compaction_copies_records_in_key_order() {
    let mut store = KvStore::open(Vec::new()).unwrap();
    store.set("b".to_string(), "2".to_string()).unwrap();
    store.set("a".to_string(), "1".to_string()).unwrap();
    store.set("ab".to_string(), "3".to_string()).unwrap();
    store.compact().unwrap();
    let mut live = Command::set("a".to_string(), "1".to_string()).encode();
    live.extend(Command::set("ab".to_string(), "3".to_string()).encode());
    live.extend(Command::set("b".to_string(), "2".to_string()).encode());
    assert_eq!(store.files(), vec![(2, live), (3, Vec::new())]);
}

#[test]
fn reader_tracks_its_position() {

    let mut r = BufReaderWithPos::new(b"0123456789".to_vec());
    assert_eq!(r.len(), 10);
    assert_eq!(r.read_exact(3), Some(b"012".to_vec()));
    assert_eq!(r.read_exact(2), Some(b"34".to_vec()));
    assert_eq!(r.seek(8), 8);
    assert_eq!(r.read_exact(3), None);
    assert_eq!(r.read_exact(2), Some(b"89".to_vec()));
    assert_eq!(r.read_at(1, 4), Some(b"1234".to_vec()));
    assert_eq!(r.read_at(7, 4), None);
    assert_eq!(r.read_at(10, 0), Some(Vec::new()));
}
