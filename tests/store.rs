use rust_kv::{
    decode_command, encode_command, encode_record, frame_record, Command, KvStore, StoreError,
    HEADER_LEN,
};

fn s(x: &str) -> String {
    x.to_string()
}

fn put(store: &mut KvStore, log: &mut Vec<u8>, k: &str, v: &str) {
    let rec = store.set_record(&s(k), &s(v)).unwrap();
    log.extend_from_slice(&rec);
    store.set(s(k), s(v));
}

fn del(store: &mut KvStore, log: &mut Vec<u8>, k: &str) {
    let rec = store.remove_record(&s(k)).unwrap();
    log.extend_from_slice(&rec);
    store.remove(s(k)).unwrap();
}

fn pairs(v: &[(&str, &str)]) -> Vec<(String, String)> {
    v.iter().map(|(k, v)| (s(k), s(v))).collect()
}

#[test]
fn set_then_get_returns_value() {
    let mut store = KvStore::new();
    store.set(s("k"), s("v"));
    assert_eq!(store.get(s("k")), Some(s("v")));
    store.set(s("k"), s("w"));
    assert_eq!(store.get(s("k")), Some(s("w")));
    assert_eq!(store.get(s("other")), None);
}

#[test]
fn set_with_empty_key_and_value() {
    let mut store = KvStore::new();
    store.set(s(""), s(""));
    assert_eq!(store.get(s("")), Some(s("")));
}

#[test]
fn remove_absent_key_is_not_found_and_changes_nothing() {
    let mut store = KvStore::new();
    store.set(s("a"), s("1"));
    assert_eq!(store.remove(s("b")), Err(StoreError::NotFound));
    assert_eq!(store.remove_record(&s("b")), Err(StoreError::NotFound));
    assert_eq!(store.scan(s("a"), s("z")), pairs(&[("a", "1")]));
}

#[test]
fn remove_present_key_then_get_is_absent() {
    let mut store = KvStore::new();
    store.set(s("a"), s("1"));
    store.set(s("b"), s("2"));
    assert_eq!(store.remove(s("a")), Ok(()));
    assert_eq!(store.get(s("a")), None);
    assert_eq!(store.get(s("b")), Some(s("2")));
}

#[test]
fn scan_is_half_open_and_ascending() {
    let mut store = KvStore::new();
    for (k, v) in [("d", "4"), ("b", "2"), ("a", "1"), ("c", "3"), ("e", "5")] {
        store.set(s(k), s(v));
    }
    assert_eq!(store.scan(s("b"), s("d")), pairs(&[("b", "2"), ("c", "3")]));
    assert_eq!(store.scan(s("a"), s("z")).len(), 5);
    assert_eq!(store.scan(s("c"), s("c")), pairs(&[]));
    assert_eq!(store.scan(s("d"), s("b")), pairs(&[]));
}

#[test]
fn scan_matches_linear_filter() {
    let keys = ["m", "a", "zz", "ab", "", "b", "mm", "é", "z"];
    let mut store = KvStore::new();
    for (i, k) in keys.iter().enumerate() {
        store.set(s(k), format!("v{}", i));
    }
    let mut all: Vec<(String, String)> =
        keys.iter().enumerate().map(|(i, k)| (s(k), format!("v{}", i))).collect();
    all.sort();
    for (a, b) in [("a", "m"), ("", "zz"), ("ab", "b"), ("b", "é"), ("", "")] {
        let expected: Vec<(String, String)> =
            all.iter().filter(|(k, _)| k.as_str() >= a && k.as_str() < b).cloned().collect();
        assert_eq!(store.scan(s(a), s(b)), expected);
    }
}

#[test]
fn command_encoding_is_tagged_little_endian() {
    let bytes = encode_command(&Command::Put { key: s("a"), value: s("xy") });
    let expected: Vec<u8> = vec![
        0, 0, 0, 0, 1, 0, 0, 0, 0, 0, 0, 0, b'a', 2, 0, 0, 0, 0, 0, 0, 0, b'x', b'y',
    ];
    assert_eq!(bytes, expected);
    let bytes = encode_command(&Command::Remove { key: s("k") });
    assert_eq!(bytes, vec![1, 0, 0, 0, 1, 0, 0, 0, 0, 0, 0, 0, b'k']);
}

#[test]
fn command_decoding_round_trips_and_rejects_garbage() {
    let c = Command::Put { key: s("clé"), value: s("valeur") };
    match decode_command(&encode_command(&c)) {
        Some(Command::Put { key, value }) => {
            assert_eq!(key, "clé");
            assert_eq!(value, "valeur");
        }
        other => panic!("unexpected {:?}", other),
    }
    assert!(decode_command(&[2, 0, 0, 0]).is_none());
    assert!(decode_command(&[1, 0, 0, 0, 1, 0, 0, 0, 0, 0, 0, 0, 0xff]).is_none());
    let mut trailing = encode_command(&Command::Remove { key: s("k") });
    trailing.push(0);
    assert!(decode_command(&trailing).is_none());
}

#[test]
fn record_holds_crc_length_and_compressed_payload() {
    let c = Command::Put { key: s("key"), value: "v".repeat(200) };
    let raw = encode_command(&c);
    let rec = encode_record(&c).unwrap();
    let payload = &rec[HEADER_LEN..];
    let expected_payload = snap::raw::Encoder::new().compress_vec(&raw).unwrap();
    assert_eq!(payload, &expected_payload[..]);
    assert!(payload.len() < raw.len());
    assert_eq!(&rec[0..4], &crc32fast::hash(payload).to_le_bytes());
    assert_eq!(&rec[4..12], &(payload.len() as u64).to_le_bytes());
    assert_eq!(frame_record(crc32fast::hash(payload), payload), rec);
}

#[test]
fn open_empty_log_gives_empty_index() {
    let store = KvStore::open(&[]).unwrap();
    assert_eq!(store.scan(s(""), s("\u{10FFFF}")), pairs(&[]));
}

#[test]
fn open_replays_sets_and_removes() {
    let mut store = KvStore::new();
    let mut log = Vec::new();
    put(&mut store, &mut log, "a", "1");
    put(&mut store, &mut log, "b", "2");
    put(&mut store, &mut log, "a", "3");
    del(&mut store, &mut log, "b");
    let reopened = KvStore::open(&log).unwrap();
    assert_eq!(reopened.get(s("a")), Some(s("3")));
    assert_eq!(reopened.get(s("b")), None);
    assert_eq!(reopened.scan(s(""), s("z")), store.scan(s(""), s("z")));
}

#[test]
fn compaction_keeps_reads_identical() {
    let mut store = KvStore::new();
    let mut log = Vec::new();
    put(&mut store, &mut log, "x", "1");
    put(&mut store, &mut log, "y", "2");
    put(&mut store, &mut log, "x", "3");
    put(&mut store, &mut log, "z", "4");
    del(&mut store, &mut log, "y");
    let before = store.scan(s(""), s("zz"));
    let compacted = store.compact().unwrap();
    assert!(compacted.len() < log.len());
    assert_eq!(store.scan(s(""), s("zz")), before);
    let reopened = KvStore::open(&compacted).unwrap();
    assert_eq!(reopened.scan(s(""), s("zz")), before);
    assert_eq!(reopened.get(s("x")), Some(s("3")));
    assert_eq!(reopened.get(s("y")), None);
    let again = reopened.compact().unwrap();
    assert_eq!(again, compacted);
}

#[test]
fn compaction_of_empty_index_is_empty_log() {
    let store = KvStore::new();
    assert_eq!(store.compact().unwrap(), Vec::<u8>::new());
}

#[test]
fn torn_tail_recovers_committed_prefix() {
    let mut store = KvStore::new();
    let mut log = Vec::new();
    put(&mut store, &mut log, "a", "1");
    put(&mut store, &mut log, "b", "2");
    let committed = log.len();
    put(&mut store, &mut log, "c", "3");
    for cut in committed..log.len() {
        let reopened = KvStore::open(&log[..cut]).unwrap();
        assert_eq!(reopened.scan(s(""), s("z")), pairs(&[("a", "1"), ("b", "2")]));
    }
}

#[test]
fn recovery_reports_where_it_stopped() {
    let mut store = KvStore::new();
    let mut log = Vec::new();
    put(&mut store, &mut log, "a", "1");
    let committed = log.len();
    put(&mut store, &mut log, "b", "2");
    let torn = &log[..log.len() - 3];
    let (reopened, end) = KvStore::recover(torn).unwrap();
    assert_eq!(end, committed);
    assert_eq!(reopened.get(s("b")), None);

    let mut cut = torn[..end].to_vec();
    let mut index = reopened;
    put(&mut index, &mut cut, "c", "3");
    let again = KvStore::open(&cut).unwrap();
    assert_eq!(again.scan(s(""), s("z")), pairs(&[("a", "1"), ("c", "3")]));
    let (_, end) = KvStore::recover(&cut).unwrap();
    assert_eq!(end, cut.len());
}

#[test]
fn checksum_mismatch_is_corruption() {
    let mut store = KvStore::new();
    let mut log = Vec::new();
    put(&mut store, &mut log, "a", "1");
    let first = log.len();
    put(&mut store, &mut log, "b", "2");
    let mut bad = log.clone();
    bad[first] ^= 0x01;
    assert!(matches!(KvStore::open(&bad), Err(StoreError::Corruption)));
    let mut bad_payload = log.clone();
    let last = bad_payload.len() - 1;
    bad_payload[last] ^= 0x40;
    assert!(matches!(KvStore::open(&bad_payload), Err(StoreError::Corruption)));
}

#[test]
fn verified_record_with_bad_payload_is_malformed() {
    let payload = [0xffu8, 0xff, 0xff, 0xff, 0xff, 0xff];
    let rec = frame_record(crc32fast::hash(&payload), &payload);
    assert!(matches!(KvStore::open(&rec), Err(StoreError::Malformed)));
}

#[test]
fn error_messages() {
    assert_eq!(StoreError::NotFound.message(), "key not found");
    assert_eq!(StoreError::Corruption.message(), "data corruption detected: CRC mismatch");
}
