use lsm_engine::engine::memtable::Memtable;

#[test]
fn test_memtable_put_get() {
    let mut mt = Memtable::new(1024 * 1024);
    mt.put(b"key1".to_vec(), Some(b"val1".to_vec()), 1);
    mt.put(b"key2".to_vec(), Some(b"val2".to_vec()), 2);

    let entry = mt.get(b"key1").unwrap();
    assert_eq!(entry.value.as_ref().unwrap(), b"val1");

    let entry = mt.get(b"key2").unwrap();
    assert_eq!(entry.value.as_ref().unwrap(), b"val2");

    assert!(mt.get(b"key3").is_none());
}

#[test]
fn test_memtable_tombstone() {
    let mut mt = Memtable::new(1024 * 1024);
    mt.put(b"key1".to_vec(), Some(b"val1".to_vec()), 1);
    mt.put(b"key1".to_vec(), None, 2);

    let entry = mt.get(b"key1").unwrap();
    assert!(entry.is_tombstone());
}

#[test]
fn test_memtable_range_scan() {
    let mut mt = Memtable::new(1024 * 1024);
    for i in 0..10u64 {
        let key = format!("key{:02}", i);
        let val = format!("val{}", i);
        mt.put(key.into_bytes(), Some(val.into_bytes()), i);
    }

    let results = mt.range_scan(b"key03", b"key07");
    assert_eq!(results.len(), 5);
}

#[test]
fn test_memtable_overwrite() {
    let mut mt = Memtable::new(1024 * 1024);
    mt.put(b"key1".to_vec(), Some(b"v1".to_vec()), 1);
    mt.put(b"key1".to_vec(), Some(b"v2".to_vec()), 2);

    let entry = mt.get(b"key1").unwrap();
    assert_eq!(entry.value.as_ref().unwrap(), b"v2");
    assert_eq!(entry.sequence, 2);
}

#[test]
fn memtable_newest_write_wins_over_older() {
    let mut mt = Memtable::new(1 << 20);
    mt.put(b"k".to_vec(), Some(b"old".to_vec()), 5);
    mt.put(b"k".to_vec(), Some(b"new".to_vec()), 9);
    mt.put(b"k".to_vec(), Some(b"stale".to_vec()), 3);
    let e = mt.get(b"k").unwrap();
    assert_eq!(e.value.unwrap(), b"new".to_vec());
    assert_eq!(e.sequence, 9);
    assert_eq!(mt.len(), 3);
}

#[test]
fn memtable_put_leaves_other_keys() {
    let mut mt = Memtable::new(1 << 20);
    mt.put(b"a".to_vec(), Some(b"1".to_vec()), 1);
    mt.put(b"b".to_vec(), Some(b"2".to_vec()), 2);
    mt.put(b"c".to_vec(), None, 3);
    assert_eq!(mt.get(b"a").unwrap().value.unwrap(), b"1".to_vec());
    assert!(mt.get(b"c").unwrap().is_tombstone());
    assert!(mt.get(b"d").is_none());
}

#[test]
fn memtable_iterates_in_key_order_and_counts_size() {
    let mut mt = Memtable::new(1 << 20);
    assert!(mt.is_empty());
    mt.put(b"zz".to_vec(), Some(b"1".to_vec()), 1);
    mt.put(b"aa".to_vec(), Some(b"22".to_vec()), 2);
    mt.put(b"mm".to_vec(), None, 3);
    let mut it = mt.iter();
    let mut keys = Vec::new();
    while let Some(e) = it.next() {
        keys.push(e.key.clone());
    }
    assert_eq!(keys, vec![b"aa".to_vec(), b"mm".to_vec(), b"zz".to_vec()]);
    // key + value + 8 per entry
    assert_eq!(mt.size_bytes(), (2 + 1 + 8) + (2 + 2 + 8) + (2 + 0 + 8));
    assert!(mt.has_room(10, 10));
    mt.clear();
    assert!(mt.is_empty());
    assert_eq!(mt.size_bytes(), 0);
    assert!(mt.get(b"aa").is_none());
}

#[test]
fn memtable_range_scan_keeps_all_versions_inclusive() {
    let mut mt = Memtable::new(1 << 20);
    mt.put(b"b".to_vec(), Some(b"1".to_vec()), 1);
    mt.put(b"b".to_vec(), Some(b"2".to_vec()), 2);
    mt.put(b"a".to_vec(), Some(b"0".to_vec()), 3);
    mt.put(b"c".to_vec(), Some(b"3".to_vec()), 4);
    let r = mt.range_scan(b"b", b"c");
    let seqs: Vec<u64> = r.iter().map(|e| e.sequence).collect();
    assert_eq!(seqs, vec![2, 1, 4]);
    assert!(mt.range_scan(b"d", b"z").is_empty());
}

#[test]
fn memtable_older_version_goes_after_newer() {
    let mut m = Memtable::new(1024);
    m.put(b"k".to_vec(), Some(b"a".to_vec()), 5);
    m.put(b"k".to_vec(), Some(b"b".to_vec()), 3);
    let mut it = m.iter();
    let mut seqs: Vec<u64> = Vec::new();
    while let Some(e) = it.next() {
        seqs.push(e.sequence);
    }
    assert_eq!(seqs, vec![5, 3]);
    assert_eq!(m.get(b"k").unwrap().value.unwrap(), b"a".to_vec());
}

#[test]
fn memtable_holds_every_write_since_clear_in_order() {
    let mut m = Memtable::new(1 << 20);
    m.put(b"a".to_vec(), Some(b"0".to_vec()), 1);
    m.put(b"b".to_vec(), Some(b"0".to_vec()), 2);
    m.clear();
    m.put(b"c".to_vec(), Some(b"x".to_vec()), 1);
    m.put(b"a".to_vec(), Some(b"y".to_vec()), 3);
    m.put(b"c".to_vec(), Some(b"z".to_vec()), 2);
    m.put(b"b".to_vec(), None, 4);
    let mut it = m.iter();
    let mut got: Vec<(Vec<u8>, u64, bool)> = Vec::new();
    while let Some(e) = it.next() {
        got.push((e.key.clone(), e.sequence, e.value.is_some()));
    }
    assert_eq!(
        got,
        vec![
            (b"a".to_vec(), 3, true),
            (b"b".to_vec(), 4, false),
            (b"c".to_vec(), 2, true),
            (b"c".to_vec(), 1, true),
        ]
    );
    assert_eq!(m.len(), 4);
}
