use knowsql::bitcask::BitCask;
use knowsql::entry::Entry;

fn fresh() -> BitCask {
    BitCask::open("./data".to_string(), Vec::new())
}

#[test]
fn entry_serialize_layout() {
    let e = Entry {
        timestamp: 1,
        key_size: 1,
        value_size: 2,
        key: b"k".to_vec(),
        value: b"vw".to_vec(),
    };
    let bytes = e.serialize();
    let expected: Vec<u8> = vec![
        0, 0, 0, 0, 0, 0, 0, 1, // timestamp, big-endian
        0, 0, 0, 1, // key size
        0, 0, 0, 2, // value size
        107, // "k"
        118, 119, // "vw"
    ];
    assert_eq!(bytes, expected);
}

#[test]
fn entry_serialize_negative_timestamp() {
    let e = Entry {
        timestamp: -2,
        key_size: 0,
        value_size: 0,
        key: Vec::new(),
        value: Vec::new(),
    };
    assert_eq!(e.serialize(), vec![255, 255, 255, 255, 255, 255, 255, 254, 0, 0, 0, 0, 0, 0, 0, 0]);
}

#[test]
fn put_then_get_round_trip() {
    let mut cask = fresh();
    cask.put(b"alpha", b"one");
    cask.put(b"beta", b"two");
    cask.put(b"gamma", b"three");
    assert_eq!(cask.get(b"alpha"), Some(b"one".to_vec()));
    assert_eq!(cask.get(b"beta"), Some(b"two".to_vec()));
    assert_eq!(cask.get(b"gamma"), Some(b"three".to_vec()));
    assert_eq!(cask.get(b"delta"), None);
}

#[test]
fn last_writer_wins() {
    let mut cask = fresh();
    cask.put(b"k", b"v1");
    cask.put(b"k", b"v2");
    assert_eq!(cask.get(b"k"), Some(b"v2".to_vec()));
    assert_eq!(cask.keys().len(), 1);
}

#[test]
fn delete_removes_key() {
    let mut cask = fresh();
    cask.put(b"k", b"v");
    assert_eq!(cask.delete(b"k"), Some(()));
    assert_eq!(cask.get(b"k"), None);
    assert!(!cask.keys().contains(&b"k".to_vec()));
    assert_eq!(cask.delete(b"k"), None);
}

#[test]
fn reopen_recovers_puts() {
    let mut cask = fresh();
    let mut segment: Vec<u8> = Vec::new();
    segment.extend_from_slice(&cask.put(b"a", b"1"));
    segment.extend_from_slice(&cask.put(b"b", b"2"));
    segment.extend_from_slice(&cask.put(b"a", b"3"));
    let reopened = BitCask::open("./data".to_string(), segment);
    assert_eq!(reopened.get(b"a"), Some(b"3".to_vec()));
    assert_eq!(reopened.get(b"b"), Some(b"2".to_vec()));
    assert_eq!(reopened.keys().len(), 2);
}

#[test]
fn replay_equivalence_ignoring_order() {
    let mut cask = fresh();
    let mut segment: Vec<u8> = Vec::new();
    let pairs: Vec<(&[u8], &[u8])> = vec![
        (b"one", b"1"),
        (b"two", b"22"),
        (b"three", b"333"),
        (b"two", b"2b"),
    ];
    for (k, v) in &pairs {
        segment.extend_from_slice(&cask.put(k, v));
    }
    let reopened = BitCask::open("./data".to_string(), segment);
    let mut live: Vec<Vec<u8>> = cask.keys();
    let mut recovered: Vec<Vec<u8>> = reopened.keys();
    live.sort();
    recovered.sort();
    assert_eq!(live, recovered);
    for k in &live {
        assert_eq!(cask.get(k), reopened.get(k));
    }
}

#[test]
fn replay_stops_at_corrupt_tail() {
    let mut cask = fresh();
    let mut segment: Vec<u8> = Vec::new();
    segment.extend_from_slice(&cask.put(b"good", b"value"));
    // a truncated trailing record: header promising more bytes than exist
    segment.extend_from_slice(&[0, 0, 0, 0, 0, 0, 0, 9, 0, 0, 0, 4, 0, 0, 0, 4, 116]);
    let reopened = BitCask::open("./data".to_string(), segment);
    assert_eq!(reopened.keys().len(), 1);
    assert_eq!(reopened.get(b"good"), Some(b"value".to_vec()));
}

#[test]
fn get_active_file_names_segment_zero() {
    let cask = BitCask::open("/var/lib/kv".to_string(), Vec::new());
    assert_eq!(cask.get_active_file(), b"/var/lib/kv/0.data".to_vec());
}

#[test]
fn list_keys_matches_keys() {
    let mut cask = fresh();
    cask.put(b"x", b"1");
    cask.put(b"y", b"2");
    assert_eq!(cask.keys(), cask.list_keys());
    assert_eq!(cask.keys().len(), 2);
}

#[test]
fn reopen_after_delete_revives_the_key() {
    // delete drops the key from memory only: no tombstone reaches the
    // segment, so replay of the log brings the key back
    let mut cask = fresh();
    let mut segment: Vec<u8> = Vec::new();
    segment.extend_from_slice(&cask.put(b"k", b"v"));
    cask.delete(b"k");
    assert_eq!(cask.get(b"k"), None);
    let reopened = BitCask::open("./data".to_string(), segment);
    assert_eq!(reopened.get(b"k"), Some(b"v".to_vec()));
}
