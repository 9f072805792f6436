use rskvs::error::ErrorKind;
use rskvs::kv::{log_file_name, KvStore, Segment};

fn reopen(store: &KvStore) -> KvStore {
    let mut files: Vec<Segment> = Vec::new();
    for seg in store.segments() {
        files.push(Segment {
            file_id: seg.file_id,
            data: seg.data.clone(),
        });
    }
    KvStore::open(files).unwrap()
}

fn total_size(store: &KvStore) -> usize {
    store.segments().iter().map(|s| s.data.len()).sum()
}

#[test]
fn set_get_remove_reopen() {
    let mut store = KvStore::open(Vec::new()).unwrap();
    store.set("a".to_string(), "1".to_string()).unwrap();
    store.set("b".to_string(), "2".to_string()).unwrap();
    store.set("a".to_string(), "3".to_string()).unwrap();
    assert_eq!(store.get("a".to_string()).unwrap(), Some("3".to_string()));
    store.remove("b".to_string()).unwrap();
    assert_eq!(store.get("b".to_string()).unwrap(), None);
    let stale_before = store.uncompact_bytes();
    let size_before = total_size(&store);
    let err = store.remove("b".to_string()).unwrap_err();
    assert!(matches!(err.kind(), ErrorKind::KeyNotFound));
    // the tombstone of the failed remove still landed and is dead weight
    assert!(total_size(&store) > size_before);
    assert!(store.uncompact_bytes() > stale_before);
    let mut store = reopen(&store);
    assert_eq!(store.get("a".to_string()).unwrap(), Some("3".to_string()));
    assert_eq!(store.get("b".to_string()).unwrap(), None);
    store.set("b".to_string(), "4".to_string()).unwrap();
    assert_eq!(store.get("b".to_string()).unwrap(), Some("4".to_string()));
}

#[test]
fn compaction_triggers_and_shrinks() {
    let mut store = KvStore::open(Vec::new()).unwrap();
    let gen_before = store.current_generation();
    let big = "x".repeat(60);
    store.set("k".to_string(), big.clone()).unwrap();
    store.set("k".to_string(), big.clone()).unwrap();
    let size_before = total_size(&store);
    // this overwrite pushes the stale bytes past the threshold
    store.set("k".to_string(), big.clone()).unwrap();
    assert_eq!(store.uncompact_bytes(), 0);
    assert!(store.current_generation() >= gen_before + 2);
    assert!(total_size(&store) < size_before);
    assert_eq!(store.get("k".to_string()).unwrap(), Some(big));
}

#[test]
fn explicit_compaction_is_idempotent() {
    let mut store = KvStore::open(Vec::new()).unwrap();
    store.set("a".to_string(), "1".to_string()).unwrap();
    store.set("b".to_string(), "2".to_string()).unwrap();
    store.set("a".to_string(), "9".to_string()).unwrap();
    store.remove("b".to_string()).unwrap();
    store.compact().unwrap();
    assert_eq!(store.uncompact_bytes(), 0);
    let size_one = total_size(&store);
    assert_eq!(store.get("a".to_string()).unwrap(), Some("9".to_string()));
    store.compact().unwrap();
    assert_eq!(store.uncompact_bytes(), 0);
    assert_eq!(total_size(&store), size_one);
    assert_eq!(store.get("a".to_string()).unwrap(), Some("9".to_string()));
    assert_eq!(store.get("b".to_string()).unwrap(), None);
}

#[test]
fn recovery_counts_stale_bytes() {
    let mut store = KvStore::open(Vec::new()).unwrap();
    store.set("a".to_string(), "1".to_string()).unwrap();
    store.set("a".to_string(), "2".to_string()).unwrap();
    store.remove("a".to_string()).unwrap();
    let stale = store.uncompact_bytes();
    // a superseded set, a removed set and the remove record itself are dead
    assert!(stale > 0);
    let store = reopen(&store);
    assert_eq!(store.uncompact_bytes(), stale);
}

#[test]
fn open_rejects_corrupt_segment() {
    let seg = Segment {
        file_id: 1,
        data: b"S1,a1,1S1,".to_vec(),
    };
    assert!(KvStore::open(vec![seg]).is_err());
}

#[test]
fn open_rejects_unsorted_ids() {
    let a = Segment {
        file_id: 2,
        data: Vec::new(),
    };
    let b = Segment {
        file_id: 1,
        data: Vec::new(),
    };
    assert!(KvStore::open(vec![a, b]).is_err());
}

#[test]
fn record_format_on_disk() {
    let mut store = KvStore::open(Vec::new()).unwrap();
    store.set("a".to_string(), "1".to_string()).unwrap();
    let segs = store.segments();
    // generation 1 is the active segment of a fresh store
    assert_eq!(segs[0].file_id, 1);
    assert_eq!(&segs[0].data[0..7], b"S1,a1,1");
}

#[test]
fn log_file_names() {
    assert_eq!(log_file_name(0), "0.log");
    assert_eq!(log_file_name(42), "42.log");
    assert_eq!(log_file_name(1230), "1230.log");
}
