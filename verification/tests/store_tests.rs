use lsm_engine::engine::compaction::CompactionError;
use lsm_engine::engine::manifest::Manifest;
use lsm_engine::engine::store::{Store, StoreConfig, StoreError};
use lsm_engine::engine::wal::{encode_record, replay};
use lsm_engine::{Entry, IndexType, LookupResult};

fn config(memtable: usize, level0_max: usize) -> StoreConfig {
    StoreConfig {
        memtable_size_bytes: memtable,
        block_size_bytes: 128,
        index_type: IndexType::Bloom,
        sstable_level0_max: level0_max,
        bloom_bits_per_element: 10,
    }
}

fn write(store: &mut Store, key: &str, value: Option<&str>) -> bool {
    let e = store.next_write(key.as_bytes().to_vec(), value.map(|v| v.as_bytes().to_vec()));
    store.apply(e).unwrap()
}

fn flush(store: &mut Store) -> bool {
    let id = store.take_table_id();
    let entries = store.memtable_entries();
    let path = format!("sst_0_{}.dat", id);
    let result = store.build_flush(&entries, path.clone(), &[]).unwrap();
    assert!(result.sst.check());
    store.commit_flush(id, path, result)
}

fn found(store: &Store, key: &str) -> Option<Vec<u8>> {
    match store.get(key.as_bytes()).unwrap() {
        LookupResult::Found(v) => Some(v),
        _ => None,
    }
}

#[test]
fn writes_get_sequence_numbers_and_flush_when_full() {
    let mut s = Store::new(config(40, 2), Vec::new(), Manifest::new("m.json".to_string(), Vec::new()));
    let e = s.next_write(b"k".to_vec(), Some(b"v".to_vec()));
    assert_eq!(e.sequence, 1);
    // 1 + 1 + 8 bytes: not yet full
    assert!(!s.apply(e).unwrap());
    assert!(!write(&mut s, "a", Some("xxxxxxxxxx")));
    // 10 + 20 + 8 more: over 40 bytes
    assert!(write(&mut s, "bbbbbbbbbb", Some("yyyyyyyyyyyyyyyyyyyy")));
    assert_eq!(s.memtable_len(), 3);
    assert!(!flush(&mut s));
    assert_eq!(s.memtable_len(), 0);
    assert_eq!(s.levels().level_len(0), 1);
    assert_eq!(s.manifest().entries().len(), 1);
    assert_eq!(found(&s, "a"), Some(b"xxxxxxxxxx".to_vec()));
    let e = s.next_write(b"z".to_vec(), None);
    assert_eq!(e.sequence, 4);
}

#[test]
fn reads_see_newest_writes_across_flushes_and_compaction() {
    let mut s = Store::new(config(1 << 20, 2), Vec::new(), Manifest::new("m.json".to_string(), Vec::new()));
    write(&mut s, "a", Some("1"));
    write(&mut s, "b", Some("1"));
    assert!(!flush(&mut s));
    write(&mut s, "a", Some("2"));
    write(&mut s, "c", None);
    assert!(flush(&mut s));
    write(&mut s, "b", None);
    assert_eq!(found(&s, "a"), Some(b"2".to_vec()));
    assert!(matches!(s.get(b"b").unwrap(), LookupResult::NotFound));

    let (newer, older) = s.prepare_compaction(0);
    assert_eq!(s.levels().num_levels(), 2);
    assert_eq!(newer.len(), 2);
    assert_eq!(older.len(), 0);
    assert_eq!(s.levels().level_len(0), 0);
    let entries = s.compaction_entries(&newer, &older, 0).unwrap();
    // `c` was only ever a tombstone and goes; `a` keeps its newest version
    assert_eq!(entries.len(), 2);
    let id = s.take_table_id();
    let result = s.build_compaction(&newer, &older, 0, format!("sst_1_{}.dat", id), &[]).unwrap();
    s.commit_compaction(0, id, format!("sst_1_{}.dat", id), result, &newer, &older);
    assert_eq!(s.levels().level_len(0), 0);
    assert_eq!(s.levels().level_len(1), 1);
    let recs = s.manifest().entries();
    assert_eq!(recs.len(), 1);
    assert_eq!(recs[0].level, 1);
    assert_eq!(found(&s, "a"), Some(b"2".to_vec()));
    assert!(matches!(s.get(b"b").unwrap(), LookupResult::NotFound));
    assert!(matches!(s.get(b"c").unwrap(), LookupResult::NotFound));
    let scanned = s.scan(b"a", b"z").unwrap();
    assert_eq!(scanned.len(), 1);
    assert_eq!(scanned[0].key, b"a".to_vec());
}

#[test]
fn replay_restores_memtable_and_sequence() {
    let mut s = Store::new(config(1 << 20, 4), Vec::new(), Manifest::new("m.json".to_string(), Vec::new()));
    let log = vec![
        Entry::new(b"x".to_vec(), Some(b"1".to_vec()), 7),
        Entry::new(b"y".to_vec(), None, 3),
    ];
    s.replay(log).unwrap();
    assert_eq!(s.memtable_len(), 2);
    assert_eq!(found(&s, "x"), Some(b"1".to_vec()));
    assert_eq!(s.next_write(b"z".to_vec(), None).sequence, 8);
    let mut empty = Store::new(config(1 << 20, 4), Vec::new(), Manifest::new("m.json".to_string(), Vec::new()));
    empty.replay(Vec::new()).unwrap();
    assert_eq!(empty.next_write(b"z".to_vec(), None).sequence, 1);
    let _ = StoreError::Full;
    let _ = CompactionError::Empty;
}

#[test]
fn a_flush_keeps_every_lookup() {
    let mut s = Store::new(config(1 << 20, 8), Vec::new(), Manifest::new("m.json".to_string(), Vec::new()));
    write(&mut s, "old", Some("0"));
    write(&mut s, "gone", Some("0"));
    assert!(!flush(&mut s));
    write(&mut s, "k1", Some("v1"));
    write(&mut s, "k2", None);
    write(&mut s, "old", Some("1"));
    let keys = ["k1", "k2", "old", "gone", "missing", "a", "zz"];
    let before: Vec<String> = keys.iter().map(|k| format!("{:?}", describe(&s, k))).collect();
    assert!(!flush(&mut s));
    assert_eq!(s.memtable_len(), 0);
    let after: Vec<String> = keys.iter().map(|k| format!("{:?}", describe(&s, k))).collect();
    assert_eq!(before, after);
    assert_eq!(describe(&s, "old"), Some(Some(b"1".to_vec())));
    assert_eq!(describe(&s, "k2"), None);
    assert_eq!(describe(&s, "missing"), None);
}

fn describe(store: &Store, key: &str) -> Option<Option<Vec<u8>>> {
    match store.get(key.as_bytes()).unwrap() {
        LookupResult::Found(v) => Some(Some(v)),
        LookupResult::Tombstone => panic!("a lookup never answers a tombstone"),
        LookupResult::NotFound => None,
    }
}

#[test]
fn replaying_the_log_rebuilds_the_memtable() {
    let mut s = Store::new(config(1 << 20, 8), Vec::new(), Manifest::new("m.json".to_string(), Vec::new()));
    let mut log: Vec<u8> = Vec::new();
    for (k, v) in [("b", Some("1")), ("a", Some("2")), ("b", None), ("c", Some("3"))] {
        let e = s.next_write(k.as_bytes().to_vec(), v.map(|x| x.as_bytes().to_vec()));
        log.extend_from_slice(&encode_record(&e));
        s.apply(e).unwrap();
    }
    let mut recovered = Store::new(config(1 << 20, 8), Vec::new(), Manifest::new("m.json".to_string(), Vec::new()));
    recovered.replay(replay(&log)).unwrap();
    let a: Vec<(Vec<u8>, Option<Vec<u8>>, u64)> =
        s.memtable_entries().into_iter().map(|e| (e.key, e.value, e.sequence)).collect();
    let b: Vec<(Vec<u8>, Option<Vec<u8>>, u64)> =
        recovered.memtable_entries().into_iter().map(|e| (e.key, e.value, e.sequence)).collect();
    assert_eq!(a, b);
    assert_eq!(a.len(), 4);
    assert_eq!(recovered.next_write(b"d".to_vec(), None).sequence, 5);
}

#[test]
fn a_compaction_keeps_every_lookup_of_a_surviving_key() {
    let mut s = Store::new(config(1 << 20, 2), Vec::new(), Manifest::new("m.json".to_string(), Vec::new()));
    write(&mut s, "a", Some("1"));
    write(&mut s, "b", Some("1"));
    write(&mut s, "d", Some("1"));
    assert!(!flush(&mut s));
    write(&mut s, "a", Some("2"));
    write(&mut s, "b", None);
    write(&mut s, "c", Some("2"));
    assert!(flush(&mut s));
    let keys = ["a", "b", "c", "d", "e", "0"];
    let before: Vec<String> = keys.iter().map(|k| format!("{:?}", describe(&s, k))).collect();
    let (newer, older) = s.prepare_compaction(0);
    let id = s.take_table_id();
    let path = format!("sst_1_{}.dat", id);
    let result = s.build_compaction(&newer, &older, 0, path.clone(), &[]).unwrap();
    s.commit_compaction(0, id, path, result, &newer, &older);
    assert_eq!(s.levels().level_len(0), 0);
    let after: Vec<String> = keys.iter().map(|k| format!("{:?}", describe(&s, k))).collect();
    assert_eq!(before, after);
    assert_eq!(describe(&s, "a"), Some(Some(b"2".to_vec())));
    assert_eq!(describe(&s, "b"), None);
}

#[test]
fn a_flush_keeps_every_scan() {
    let mut s = Store::new(config(1 << 20, 8), Vec::new(), Manifest::new("m.json".to_string(), Vec::new()));
    write(&mut s, "b", Some("0"));
    write(&mut s, "d", Some("0"));
    assert!(!flush(&mut s));
    write(&mut s, "a", Some("1"));
    write(&mut s, "b", None);
    write(&mut s, "c", Some("1"));
    let ranges = [("a", "z"), ("b", "c"), ("c", "c"), ("e", "z"), ("0", "a")];
    let scan = |st: &Store, lo: &str, hi: &str| -> Vec<(Vec<u8>, Option<Vec<u8>>)> {
        st.scan(lo.as_bytes(), hi.as_bytes()).unwrap().into_iter().map(|e| (e.key, e.value)).collect()
    };
    let before: Vec<_> = ranges.iter().map(|(lo, hi)| scan(&s, lo, hi)).collect();
    assert!(!flush(&mut s));
    let after: Vec<_> = ranges.iter().map(|(lo, hi)| scan(&s, lo, hi)).collect();
    assert_eq!(before, after);
    assert_eq!(after[0].len(), 3);
    assert_eq!(after[0][0].0, b"a".to_vec());
    assert_eq!(after[1], vec![(b"c".to_vec(), Some(b"1".to_vec()))]);
}

#[test]
fn compacting_an_empty_level_drops_the_next_levels_tables() {
    let mut s = Store::new(config(1 << 20, 1), Vec::new(), Manifest::new("m.json".to_string(), Vec::new()));
    write(&mut s, "a", Some("1"));
    assert!(flush(&mut s));
    let (newer, older) = s.prepare_compaction(0);
    let id = s.take_table_id();
    let path = format!("sst_1_{}.dat", id);
    let result = s.build_compaction(&newer, &older, 0, path.clone(), &[]).unwrap();
    s.commit_compaction(0, id, path, result, &newer, &older);
    assert_eq!(s.levels().level_len(1), 1);
    // level 0 is now empty: taking it for a compaction takes level 1 too
    let (newer, older) = s.prepare_compaction(0);
    assert_eq!(newer.len(), 0);
    assert_eq!(older.len(), 1);
    assert_eq!(s.levels().level_len(0), 0);
    assert_eq!(s.levels().level_len(1), 0);
    assert!(matches!(s.get(b"a").unwrap(), LookupResult::NotFound));
    // the manifest still records the table
    assert_eq!(s.manifest().entries().len(), 1);
}
