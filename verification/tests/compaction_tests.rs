use lsm_engine::engine::compaction::{CompactionError, Compactor};
use lsm_engine::engine::sstable::SSTableBuilder;
use lsm_engine::{Entry, IndexType, LookupResult};

#[test]
fn test_compaction_merge() {
    let entries1: Vec<Entry> = (0..50u64)
        .map(|i| Entry::new(format!("key{:04}", i).into_bytes(), Some(format!("v1_{}", i).into_bytes()), i * 2))
        .collect();

    let entries2: Vec<Entry> = (25..75u64)
        .map(|i| Entry::new(format!("key{:04}", i).into_bytes(), Some(format!("v2_{}", i).into_bytes()), i * 2 + 1))
        .collect();

    let builder1 = SSTableBuilder::new("sst1.dat".to_string(), 256, IndexType::Bloom, 10);
    let result1 = builder1.build_from_entries(&entries1, &[]).unwrap();

    let builder2 = SSTableBuilder::new("sst2.dat".to_string(), 256, IndexType::Bloom, 10);
    let result2 = builder2.build_from_entries(&entries2, &[]).unwrap();

    let compactor = Compactor::new(256, IndexType::Bloom, 10);
    let result = compactor
        .compact(&[result1.sst], &[result2.sst], "merged.dat".to_string(), 1, &[])
        .unwrap();

    match result.sst.get(b"key0010").unwrap() {
        LookupResult::Found(v) => assert_eq!(v, b"v1_10"),
        _ => panic!("expected from sst1"),
    }

    match result.sst.get(b"key0050").unwrap() {
        LookupResult::Found(v) => assert_eq!(v, b"v2_50"),
        _ => panic!("expected from sst2"),
    }
}

fn table(path: &str, entries: &[Entry]) -> lsm_engine::engine::sstable::SSTable {
    SSTableBuilder::new(path.to_string(), 128, IndexType::Bloom, 10).build_from_entries(entries, &[]).unwrap().sst
}

#[test]
fn compaction_drops_lone_tombstones_below_level_zero() {
    let newer = table("n.dat", &[Entry::new(b"a".to_vec(), None, 10), Entry::new(b"b".to_vec(), None, 11)]);
    let older = table("o.dat", &[Entry::new(b"b".to_vec(), Some(b"x".to_vec()), 1)]);
    let c = Compactor::new(128, IndexType::Bloom, 10);
    let merged = c.merged_entries(&[newer], &[older], 1).unwrap();
    // `a` has only its tombstone and goes; `b` keeps its newest version, a tombstone
    assert_eq!(merged.len(), 1);
    assert_eq!(merged[0].key, b"b".to_vec());
    assert!(merged[0].is_tombstone());
    let only = table("p.dat", &[Entry::new(b"a".to_vec(), None, 10)]);
    let level0 = c.merged_entries(&[only], &[], 0).unwrap();
    assert_eq!(level0.len(), 1);
}

#[test]
fn compaction_with_nothing_left_fails() {
    let only = table("p.dat", &[Entry::new(b"a".to_vec(), None, 10)]);
    let c = Compactor::new(128, IndexType::Bloom, 10);
    assert!(matches!(c.compact(&[only], &[], "out.dat".to_string(), 1, &[]), Err(CompactionError::Empty)));
}

#[test]
fn compaction_result_range_and_size() {
    let t1 = table("1.dat", &[Entry::new(b"m".to_vec(), Some(b"1".to_vec()), 3)]);
    let t2 = table("2.dat", &[Entry::new(b"c".to_vec(), Some(b"2".to_vec()), 1), Entry::new(b"x".to_vec(), Some(b"3".to_vec()), 2)]);
    let c = Compactor::new(128, IndexType::Bloom, 10);
    let r = c.compact(&[t1], &[t2], "dir/sst_1_5.dat".to_string(), 1, &[]).unwrap();
    assert_eq!(r.min_key, b"c".to_vec());
    assert_eq!(r.max_key, b"x".to_vec());
    assert_eq!(r.size_bytes, r.sst.data().len() as u64);
    assert_eq!(r.sst.id(), 5);
    assert_eq!(r.sst.scan(b"a", b"z").unwrap().len(), 3);
}
