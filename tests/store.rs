use kvs::codec::{deserialize, serialize, Command};
use kvs::segments::Segment;
use kvs::{KvStore, KvsEngine, KvsError};

fn segments_of(store: &KvStore) -> Vec<Segment> {
    let mut out = Vec::new();
    let mut id = store.first_segment_id();
    loop {
        let data = store.segment(id).expect("segment in range").clone();
        out.push(Segment { id, data });
        if id == store.active_segment_id() {
            break;
        }
        id += 1;
    }
    out
}

fn reopen(store: &KvStore) -> KvStore {
    KvStore::open(segments_of(store), 1 << 20, u64::MAX).expect("log replays")
}

fn s(text: &str) -> String {
    text.to_string()
}

#[test]
fn get_returns_latest_set() {
    let mut store = KvStore::new(1, 1 << 20, u64::MAX);
    store.set(s("k"), s("v1")).unwrap();
    store.set(s("k"), s("v2")).unwrap();
    assert_eq!(store.get(s("k")).unwrap(), Some(s("v2")));
    assert_eq!(store.get(s("other")).unwrap(), None);
    store.remove(s("k")).unwrap();
    assert_eq!(store.get(s("k")).unwrap(), None);
    store.set(s("k"), s("v3")).unwrap();
    assert_eq!(store.get(s("k")).unwrap(), Some(s("v3")));
}

#[test]
fn empty_value_is_not_absent() {
    let mut store = KvStore::new(1, 1 << 20, u64::MAX);
    store.set(s("k"), s("")).unwrap();
    assert_eq!(store.get(s("k")).unwrap(), Some(s("")));
}

#[test]
fn serialize_round_trip() {
    let cmds = vec![
        Command::Put { key: s("key"), value: s("value") },
        Command::Remove { key: s("key") },
        Command::Put { key: s(""), value: s("") },
        Command::Put { key: s("ké"), value: s("✓") },
    ];
    for cmd in cmds {
        let bytes = serialize(&cmd);
        let (back, n) = deserialize(&bytes).unwrap().expect("whole record");
        assert_eq!(n, bytes.len());
        assert_eq!(serialize(&back), bytes);
    }
}

#[test]
fn record_bytes() {
    let bytes = serialize(&Command::Put { key: s("a"), value: s("bc") });
    assert_eq!(bytes, vec![0, 1, 0, 0, 0, 0, 0, 0, 0, b'a', 2, 0, 0, 0, 0, 0, 0, 0, b'b', b'c']);
    let bytes = serialize(&Command::Remove { key: s("é") });
    assert_eq!(bytes, vec![1, 2, 0, 0, 0, 0, 0, 0, 0, 0xc3, 0xa9]);
}

#[test]
fn deserialize_reads_utf8_text() {
    let bytes = vec![1, 2, 0, 0, 0, 0, 0, 0, 0, 0xc3, 0xa9];
    match deserialize(&bytes).unwrap() {
        Some((Command::Remove { key }, 11)) => assert_eq!(key, "é"),
        other => panic!("unexpected {:?}", other),
    }
}

#[test]
fn deserialize_errors() {
    assert!(matches!(deserialize(&[7, 0, 0]), Err(KvsError::UnexpectedCommandType)));
    let bad_text = vec![1, 1, 0, 0, 0, 0, 0, 0, 0, 0xff];
    assert!(matches!(deserialize(&bad_text), Err(KvsError::Utf8(_))));
    assert!(matches!(deserialize(&[]), Ok(None)));
    assert!(matches!(deserialize(&[0, 1, 0]), Ok(None)));
}

#[test]
fn get_twice_gives_same_result() {
    let mut store = KvStore::new(1, 1 << 20, u64::MAX);
    store.set(s("k"), s("v")).unwrap();
    let first = store.get(s("k")).unwrap();
    let second = store.get(s("k")).unwrap();
    assert_eq!(first, second);
    assert_eq!(store.get(s("none")).unwrap(), store.get(s("none")).unwrap());
}

#[test]
fn crash_drops_partial_last_record() {
    let mut store = KvStore::new(1, 1 << 20, u64::MAX);
    store.set(s("a"), s("1")).unwrap();
    store.set(s("b"), s("2")).unwrap();
    let before_last = store.log_size() as usize;
    store.set(s("a"), s("3")).unwrap();
    let segs = segments_of(&store);
    let full = segs[0].data.len();
    for cut in before_last..full {
        let mut crashed = segs.clone();
        crashed[0].data.truncate(cut);
        let mut back = KvStore::open(crashed, 1 << 20, u64::MAX).expect("replays");
        assert_eq!(back.get(s("a")).unwrap(), Some(s("1")));
        assert_eq!(back.get(s("b")).unwrap(), Some(s("2")));
        assert_eq!(back.log_size() as usize, before_last);
    }
    let mut back = KvStore::open(segs, 1 << 20, u64::MAX).unwrap();
    assert_eq!(back.get(s("a")).unwrap(), Some(s("3")));
}

#[test]
fn truncated_sealed_segment_is_corruption() {
    let mut store = KvStore::new(1, 1, u64::MAX);
    store.set(s("a"), s("1")).unwrap();
    store.set(s("b"), s("2")).unwrap();
    let mut segs = segments_of(&store);
    assert_eq!(segs.len(), 2);
    let n = segs[0].data.len();
    segs[0].data.truncate(n - 1);
    assert!(matches!(KvStore::open(segs, 1, u64::MAX), Err(KvsError::UnexpectedCommandType)));
}

#[test]
fn corrupt_record_is_an_error() {
    let segs = vec![Segment { id: 3, data: vec![9, 9, 9] }];
    assert!(matches!(KvStore::open(segs, 1 << 20, u64::MAX), Err(KvsError::UnexpectedCommandType)));
    let segs = vec![Segment { id: 3, data: vec![1, 1, 0, 0, 0, 0, 0, 0, 0, 0xff] }];
    assert!(matches!(KvStore::open(segs, 1 << 20, u64::MAX), Err(KvsError::Utf8(_))));
}

#[test]
fn segment_ids_must_follow_one_another() {
    let segs = vec![Segment { id: 1, data: vec![] }, Segment { id: 3, data: vec![] }];
    assert!(matches!(KvStore::open(segs, 1 << 20, u64::MAX), Err(KvsError::StringError(_))));
}

#[test]
fn open_empty_directory() {
    let mut store = KvStore::open(Vec::new(), 1 << 20, u64::MAX).unwrap();
    assert_eq!(store.get(s("a")).unwrap(), None);
    store.set(s("a"), s("1")).unwrap();
    assert_eq!(store.get(s("a")).unwrap(), Some(s("1")));
}

#[test]
fn compaction_keeps_values_and_shrinks_log() {
    let mut store = KvStore::new(1, 64, u64::MAX);
    for i in 0..50 {
        store.set(format!("key{}", i % 7), format!("value{}", i)).unwrap();
    }
    store.remove(s("key3")).unwrap();
    let mut before = Vec::new();
    for i in 0..8 {
        before.push(store.get(format!("key{}", i)).unwrap());
    }
    let size_before = store.log_size();
    store.compact();
    for i in 0..8 {
        assert_eq!(store.get(format!("key{}", i)).unwrap(), before[i]);
    }
    assert!(store.log_size() <= size_before);
    assert_eq!(store.first_segment_id(), store.active_segment_id());
    let mut back = reopen(&store);
    for i in 0..8 {
        assert_eq!(back.get(format!("key{}", i)).unwrap(), before[i]);
    }
}

#[test]
fn reopen_after_set_set_remove() {
    let mut store = KvStore::new(1, 1 << 20, u64::MAX);
    store.set(s("a"), s("1")).unwrap();
    store.set(s("b"), s("2")).unwrap();
    store.remove(s("a")).unwrap();
    let mut back = reopen(&store);
    assert_eq!(back.get(s("a")).unwrap(), None);
    assert_eq!(back.get(s("b")).unwrap(), Some(s("2")));
}

#[test]
fn remove_missing_key_fails_and_changes_nothing() {
    let mut store = KvStore::new(1, 1 << 20, u64::MAX);
    store.set(s("x"), s("1")).unwrap();
    let size = store.log_size();
    assert!(matches!(store.remove(s("nonexistent")), Err(KvsError::KeyNotFound)));
    assert_eq!(store.log_size(), size);
    assert_eq!(store.get(s("nonexistent")).unwrap(), None);
    assert_eq!(store.get(s("x")).unwrap(), Some(s("1")));
}

#[test]
fn ten_thousand_sets_compact_to_one_record() {
    let mut store = KvStore::new(1, 4096, u64::MAX);
    for i in 0..10_000 {
        store.set(s("key"), format!("{}", i)).unwrap();
    }
    store.compact();
    let last = serialize(&Command::Put { key: s("key"), value: s("9999") });
    assert_eq!(store.log_size() as usize, last.len());
    assert_eq!(store.segment(store.active_segment_id()).unwrap(), &last);
    assert_eq!(store.get(s("key")).unwrap(), Some(s("9999")));
}

#[test]
fn stale_bytes_trigger_compaction() {
    let mut store = KvStore::new(1, 1 << 20, 100);
    for i in 0..1000 {
        store.set(s("key"), format!("{}", i)).unwrap();
    }
    assert!(store.log_size() < 200);
    assert_eq!(store.get(s("key")).unwrap(), Some(s("999")));
}

#[test]
fn segments_roll_over() {
    let mut store = KvStore::new(5, 32, u64::MAX);
    for i in 0..20 {
        store.set(format!("k{}", i), format!("v{}", i)).unwrap();
    }
    assert_eq!(store.first_segment_id(), 5);
    assert!(store.active_segment_id() > 5);
    let mut back = reopen(&store);
    for i in 0..20 {
        assert_eq!(back.get(format!("k{}", i)).unwrap(), Some(format!("v{}", i)));
    }
}

fn through_engine<E: KvsEngine>(engine: &mut E) {
    engine.set(s("k"), s("v")).unwrap();
    assert_eq!(engine.get(s("k")).unwrap(), Some(s("v")));
    engine.remove(s("k")).unwrap();
    assert!(matches!(engine.remove(s("k")), Err(KvsError::KeyNotFound)));
}

#[test]
fn engine_interface() {
    let mut store = KvStore::new(1, 1 << 20, u64::MAX);
    through_engine(&mut store);
}

#[test]
fn error_messages() {
    assert_eq!(KvsError::KeyNotFound.message(), "Key not found");
    assert_eq!(KvsError::UnexpectedCommandType.message(), "Unexpected command type");
    assert_eq!(KvsError::StringError(s("boom")).message(), "boom");
    assert_eq!(KvsError::Sled(s("tree")).message(), "tree");
}

#[test]
fn lower_level_errors_convert() {
    let io = std::io::Error::new(std::io::ErrorKind::Other, "disk");
    assert!(matches!(KvsError::from(io), KvsError::Io(_)));
    let json = serde_json::from_str::<u32>("not a number").unwrap_err();
    assert!(matches!(KvsError::from(json), KvsError::Serde(_)));
    let utf8 = String::from_utf8(vec![0xff]).unwrap_err();
    assert!(matches!(KvsError::from(utf8), KvsError::Utf8(_)));
}

#[test]
fn crash_in_last_of_several_segments() {
    let mut store = KvStore::new(1, 16, u64::MAX);
    store.set(s("a"), s("1")).unwrap();
    store.set(s("b"), s("2")).unwrap();
    store.set(s("c"), s("3")).unwrap();
    let mut segs = segments_of(&store);
    assert!(segs.len() >= 2);
    let last = segs.len() - 1;
    let n = segs[last].data.len();
    segs[last].data.truncate(n - 1);
    let mut back = KvStore::open(segs, 16, u64::MAX).unwrap();
    assert_eq!(back.get(s("a")).unwrap(), Some(s("1")));
    assert_eq!(back.get(s("b")).unwrap(), Some(s("2")));
    assert_eq!(back.get(s("c")).unwrap(), None);
}
