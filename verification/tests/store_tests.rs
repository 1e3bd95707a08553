use kvs::KvStore;

fn open_empty() -> KvStore {
    KvStore::open(Vec::new()).expect("open of an empty directory succeeds")
}

fn reopen(store: &KvStore) -> KvStore {
    KvStore::open(store.snapshot()).expect("reopen from the store's own files succeeds")
}

#[test]
fn set_then_get_and_miss() {
    let mut store = open_empty();
    store.set("a".to_string(), "1".to_string()).unwrap();
    assert_eq!(store.get("a".to_string()).unwrap(), Some("1".to_string()));
    assert_eq!(store.get("b".to_string()).unwrap(), None);
}

#[test]
fn overwrite_and_reopen() {
    let mut store = open_empty();
    store.set("k".to_string(), "v1".to_string()).unwrap();
    store.set("k".to_string(), "v2".to_string()).unwrap();
    assert_eq!(store.get("k".to_string()).unwrap(), Some("v2".to_string()));
    let mut store2 = reopen(&store);
    assert_eq!(store2.get("k".to_string()).unwrap(), Some("v2".to_string()));
}

#[test]
fn remove_and_reopen() {
    let mut store = open_empty();
    store.set("k".to_string(), "v".to_string()).unwrap();
    store.remove("k".to_string()).unwrap();
    assert_eq!(store.get("k".to_string()).unwrap(), None);
    assert!(matches!(
        store.remove("k".to_string()),
        Err(kvs::KvsErr::KeyNotFound)
    ));
    let mut store2 = reopen(&store);
    assert_eq!(store2.get("k".to_string()).unwrap(), None);
}

#[test]
fn durability_after_single_set() {
    let mut store = open_empty();
    store.set("alpha".to_string(), "beta".to_string()).unwrap();
    let mut store2 = reopen(&store);
    assert_eq!(
        store2.get("alpha".to_string()).unwrap(),
        Some("beta".to_string())
    );
}

#[test]
fn keys_needing_escapes_round_trip() {
    let mut store = open_empty();
    let key = "qu\"ote\\back\n\ttab".to_string();
    let value = "\u{1}\u{2} control \u{1F600} emoji \"x\"".to_string();
    store.set(key.clone(), value.clone()).unwrap();
    assert_eq!(store.get(key.clone()).unwrap(), Some(value.clone()));
    let mut store2 = reopen(&store);
    assert_eq!(store2.get(key).unwrap(), Some(value));
}

#[test]
fn empty_key_and_value() {
    let mut store = open_empty();
    store.set(String::new(), String::new()).unwrap();
    assert_eq!(store.get(String::new()).unwrap(), Some(String::new()));
}

#[test]
fn non_segment_files_are_ignored() {
    let files = vec![
        ("engine".to_string(), b"kvs".to_vec()),
        ("notes.txt".to_string(), b"hello".to_vec()),
        ("x.log".to_string(), b"junk".to_vec().into_iter().take(0).collect()),
    ];
    let mut store = KvStore::open(files).unwrap();
    assert_eq!(store.get("a".to_string()).unwrap(), None);
}

#[test]
fn corrupt_segment_is_an_error() {
    let files = vec![("1.log".to_string(), b"{\"Set\":{\"key\":\"a\"".to_vec())];
    assert!(matches!(KvStore::open(files), Err(kvs::KvsErr::Serde(_))));
    let files = vec![("1.log".to_string(), b"garbage".to_vec())];
    assert!(matches!(KvStore::open(files), Err(kvs::KvsErr::Serde(_))));
}

#[test]
fn recovery_replays_in_version_order() {
    let mut store = open_empty();
    store.set("k".to_string(), "old".to_string()).unwrap();
    let mut files = store.snapshot();
    // a later segment with a newer record for the same key
    files.push((
        "9.log".to_string(),
        b"{\"Set\":{\"key\":\"k\",\"value\":\"new\"}}".to_vec(),
    ));
    files.reverse();
    let mut store2 = KvStore::open(files).unwrap();
    assert_eq!(store2.get("k".to_string()).unwrap(), Some("new".to_string()));
}

#[test]
fn tombstone_survives_reopen_of_raw_segments() {
    let files = vec![(
        "1.log".to_string(),
        b"{\"Set\":{\"key\":\"a\",\"value\":\"1\"}}{\"Remove\":{\"key\":\"a\"}}".to_vec(),
    )];
    let mut store = KvStore::open(files).unwrap();
    assert_eq!(store.get("a".to_string()).unwrap(), None);
}

#[test]
fn compaction_bounds_disk_use() {
    let mut store = open_empty();
    let big_x = "x".repeat(200);
    let big_y = "y".repeat(200);
    for i in 0..10_000u32 {
        store.set(format!("key{:05}", i), big_x.clone()).unwrap();
    }
    for i in 0..10_000u32 {
        store.set(format!("key{:05}", i), big_y.clone()).unwrap();
    }
    for i in 0..10_000u32 {
        assert_eq!(
            store.get(format!("key{:05}", i)).unwrap(),
            Some(big_y.clone())
        );
    }
    let total = store.total_segment_bytes();
    assert!(total <= 2 * 10_000 * 220, "total bytes {} too large", total);
    let mut store2 = reopen(&store);
    for i in (0..10_000u32).step_by(997) {
        assert_eq!(
            store2.get(format!("key{:05}", i)).unwrap(),
            Some(big_y.clone())
        );
    }
}

#[test]
fn last_writer_wins_interleaving() {
    let mut store = open_empty();
    store.set("k".to_string(), "v1".to_string()).unwrap();
    store.remove("k".to_string()).unwrap();
    store.set("k".to_string(), "v2".to_string()).unwrap();
    store.set("k".to_string(), "v3".to_string()).unwrap();
    assert_eq!(store.get("k".to_string()).unwrap(), Some("v3".to_string()));
    store.remove("k".to_string()).unwrap();
    assert_eq!(store.get("k".to_string()).unwrap(), None);
}

#[test]
fn error_messages() {
    assert_eq!(kvs::KvsErr::KeyNotFound.message(), "Key not found");
    assert_eq!(
        kvs::KvsErr::UnexpectedCommandType.message(),
        "Unexpected command type"
    );
    assert_eq!(
        kvs::KvsErr::StringErr("Key not found".to_string()).message(),
        "Key not found"
    );
}
