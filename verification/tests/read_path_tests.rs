use lsm_engine::engine::levels::{assemble_levels, get_from, scan_from, Levels};
use lsm_engine::engine::memtable::Memtable;
use lsm_engine::engine::merge::{merge_for_compaction, merge_visible};
use lsm_engine::engine::sstable::{SSTable, SSTableBuilder};
use lsm_engine::{Entry, IndexType, LookupResult};

fn table(entries: &[Entry]) -> SSTable {
    SSTableBuilder::new("t.dat".to_string(), 128, IndexType::Bloom, 10).build_from_entries(entries, &[]).unwrap().sst
}

fn e(k: &str, v: Option<&str>, s: u64) -> Entry {
    Entry::new(k.as_bytes().to_vec(), v.map(|v| v.as_bytes().to_vec()), s)
}

#[test]
fn lookups_consult_memtable_then_newest_tables() {
    let old = table(&[e("a", Some("a0"), 1), e("b", Some("b0"), 2), e("c", Some("c0"), 3)]);
    let newer = table(&[e("b", Some("b1"), 4), e("c", None, 5)]);
    let deeper = table(&[e("d", Some("d0"), 0)]);
    let mut levels = Levels::new(Vec::new());
    levels.add_table(0, old);
    levels.add_table(0, newer);
    levels.add_table(1, deeper);
    assert_eq!(levels.num_levels(), 2);
    assert_eq!(levels.level_len(0), 2);
    assert_eq!(levels.level_len(5), 0);
    assert!(levels.needs_compaction(2));
    assert!(!levels.needs_compaction(3));

    let mut mt = Memtable::new(1 << 20);
    mt.put(b"a".to_vec(), Some(b"a9".to_vec()), 9);

    assert!(matches!(get_from(&mt, &levels, b"a").unwrap().unwrap(), LookupResult::Found(v) if v == b"a9".to_vec()));
    assert!(matches!(get_from(&mt, &levels, b"b").unwrap().unwrap(), LookupResult::Found(v) if v == b"b1".to_vec()));
    assert!(matches!(get_from(&mt, &levels, b"c").unwrap().unwrap(), LookupResult::Tombstone));
    assert!(matches!(get_from(&mt, &levels, b"d").unwrap().unwrap(), LookupResult::Found(v) if v == b"d0".to_vec()));
    assert!(matches!(get_from(&mt, &levels, b"e").unwrap().unwrap(), LookupResult::NotFound));

    let scanned = scan_from(&mt, &levels, b"a", b"z").unwrap();
    let got: Vec<(Vec<u8>, Vec<u8>)> = scanned.iter().map(|x| (x.key.clone(), x.value.clone().unwrap())).collect();
    assert_eq!(
        got,
        vec![
            (b"a".to_vec(), b"a9".to_vec()),
            (b"b".to_vec(), b"b1".to_vec()),
            (b"d".to_vec(), b"d0".to_vec()),
        ]
    );

    let taken = levels.take_level(0);
    assert_eq!(taken.len(), 2);
    assert_eq!(levels.level_len(0), 0);
    levels.set_level(1, taken);
    assert_eq!(levels.level_len(1), 2);
}

#[test]
fn merge_rules() {
    let entries = vec![e("b", Some("old"), 1), e("a", None, 5), e("b", Some("new"), 3), e("c", Some("c"), 2)];
    let visible = merge_visible(&entries);
    let keys: Vec<Vec<u8>> = visible.iter().map(|x| x.key.clone()).collect();
    assert_eq!(keys, vec![b"b".to_vec(), b"c".to_vec()]);
    assert_eq!(visible[0].value.clone().unwrap(), b"new".to_vec());

    let kept = merge_for_compaction(&entries, 1);
    assert_eq!(kept.len(), 2);
    let kept0 = merge_for_compaction(&entries, 0);
    assert_eq!(kept0.len(), 3);
    assert!(kept0[0].is_tombstone());
}

#[test]
fn recorded_tables_are_placed_by_level() {
    let a = table(&[e("a", Some("1"), 1)]);
    let b = table(&[e("b", Some("1"), 2)]);
    let c = table(&[e("c", Some("1"), 3)]);
    let levels = assemble_levels(2, vec![(1, a), (0, b), (1, c)]);
    assert_eq!(levels.len(), 3);
    assert_eq!(levels[0].len(), 1);
    assert_eq!(levels[0][0].min_key(), b"b");
    assert_eq!(levels[1].len(), 2);
    assert_eq!(levels[1][0].min_key(), b"a");
    assert_eq!(levels[1][1].min_key(), b"c");
    assert!(levels[2].is_empty());
}
