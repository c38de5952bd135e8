use lsm_engine::engine::wal::{encode_record, replay};
use lsm_engine::Entry;

fn log_of(entries: &[Entry]) -> Vec<u8> {
    let mut data = Vec::new();
    for e in entries {
        data.extend_from_slice(&encode_record(e));
    }
    data
}

#[test]
fn test_wal_append_replay() {
    let entries = vec![
        Entry::new(b"key1".to_vec(), Some(b"val1".to_vec()), 1),
        Entry::new(b"key2".to_vec(), Some(b"val2".to_vec()), 2),
        Entry::new(b"key3".to_vec(), None, 3),
    ];
    let data = log_of(&entries);

    let replayed = replay(&data);
    assert_eq!(replayed.len(), 3);
    assert_eq!(replayed[0].key, b"key1");
    assert_eq!(replayed[1].value.as_ref().unwrap(), b"val2");
    assert!(replayed[2].is_tombstone());
}

#[test]
fn test_wal_truncate() {
    let data = log_of(&[Entry::new(b"k".to_vec(), Some(b"v".to_vec()), 1)]);
    let replayed = replay(&data);
    assert_eq!(replayed.len(), 1);

    // a truncated log holds no bytes
    let replayed = replay(&[]);
    assert_eq!(replayed.len(), 0);
}

#[test]
fn wal_record_layout() {
    let r = encode_record(&Entry::new(b"ab".to_vec(), Some(b"xyz".to_vec()), 9));
    let mut expected = Vec::new();
    expected.extend_from_slice(&2u32.to_le_bytes());
    expected.extend_from_slice(b"ab");
    expected.push(1);
    expected.extend_from_slice(&3u32.to_le_bytes());
    expected.extend_from_slice(b"xyz");
    expected.extend_from_slice(&9u64.to_le_bytes());
    assert_eq!(r, expected);
    let t = encode_record(&Entry::new(b"ab".to_vec(), None, 9));
    assert_eq!(t.len(), 4 + 2 + 1 + 8);
    assert_eq!(t[6], 0);
}

#[test]
fn wal_torn_record_is_dropped() {
    let entries = vec![
        Entry::new(b"a".to_vec(), Some(b"1".to_vec()), 1),
        Entry::new(b"b".to_vec(), Some(b"2".to_vec()), 2),
    ];
    let mut data = log_of(&entries);
    let last = encode_record(&Entry::new(b"c".to_vec(), Some(b"3".to_vec()), 3));
    for cut in 0..last.len() {
        let mut torn = data.clone();
        torn.extend_from_slice(&last[..cut]);
        let back = replay(&torn);
        assert_eq!(back.len(), 2, "cut at {}", cut);
        assert_eq!(back[1].key, b"b".to_vec());
    }
    data.extend_from_slice(&last);
    assert_eq!(replay(&data).len(), 3);
}
