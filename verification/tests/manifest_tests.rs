use lsm_engine::engine::manifest::{Manifest, SSTableMeta};
use lsm_engine::IndexType;

fn meta(id: u64, level: usize) -> SSTableMeta {
    SSTableMeta {
        id,
        level,
        path: format!("sst_{}_{}.dat", level, id),
        min_key: b"aaa".to_vec(),
        max_key: b"zzz".to_vec(),
        size_bytes: 1024,
        index_type: IndexType::Bloom,
    }
}

#[test]
fn test_manifest_persist_load() {
    let mut manifest = Manifest::new("tables.json".to_string(), Vec::new());

    manifest.add(SSTableMeta {
        id: 1,
        level: 0,
        path: "sst_0_1.dat".to_string(),
        min_key: b"aaa".to_vec(),
        max_key: b"zzz".to_vec(),
        size_bytes: 1024,
        index_type: IndexType::Bloom,
    });

    assert_eq!(manifest.entries().len(), 1);
    assert_eq!(manifest.max_level(), 0);
}

#[test]
fn manifest_remove_and_levels() {
    let mut m = Manifest::new("m.json".to_string(), Vec::new());
    assert_eq!(m.max_level(), 0);
    m.add(meta(1, 0));
    m.add(meta(2, 2));
    m.add(meta(3, 1));
    m.add(meta(2, 0));
    assert_eq!(m.max_level(), 2);
    m.remove(2);
    let e = m.entries();
    assert_eq!(e.len(), 2);
    assert_eq!(e[0].id, 1);
    assert_eq!(e[1].id, 3);
    assert_eq!(e[1].level, 1);
    assert!(e[1].path.is_empty());
    assert_eq!(m.max_level(), 1);
    assert_eq!(m.records().len(), 2);
    assert_eq!(m.path(), "m.json");
    m.remove(99);
    assert_eq!(m.entries().len(), 2);
}

#[test]
fn index_type_names() {
    assert_eq!(IndexType::Bloom.name(), "Bloom");
    assert_eq!(IndexType::Learned.name(), "Learned");
    assert_eq!(IndexType::from_name("Learned"), IndexType::Learned);
    assert_eq!(IndexType::from_name("Bloom"), IndexType::Bloom);
    assert_eq!(IndexType::from_name("other"), IndexType::Bloom);
}
