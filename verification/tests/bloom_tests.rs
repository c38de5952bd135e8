use lsm_engine::index::bloom::BloomFilterIndex;
use lsm_engine::index::{Index, LookupHint};

#[test]
fn test_bloom_filter_basic() {
    let mut bf = BloomFilterIndex::new(1000, 10);
    for i in 0..100 {
        let key = format!("key{}", i);
        bf.insert(key.as_bytes());
    }

    for i in 0..100 {
        let key = format!("key{}", i);
        assert!(bf.might_contain(key.as_bytes()));
    }

    let mut false_positives = 0;
    for i in 100..200 {
        let key = format!("key{}", i);
        if bf.might_contain(key.as_bytes()) {
            false_positives += 1;
        }
    }
    assert!(false_positives < 10, "too many false positives: {}", false_positives);
}

#[test]
fn test_bloom_filter_serialize() {
    let mut bf = BloomFilterIndex::new(100, 10);
    bf.insert(b"hello");
    bf.insert(b"world");

    let data = bf.serialize();
    let bf2 = BloomFilterIndex::deserialize(&data);

    assert!(bf2.might_contain(b"hello"));
    assert!(bf2.might_contain(b"world"));
    assert!(!bf2.might_contain(b"missing"));
}

#[test]
fn bloom_serialized_layout() {
    let bf = BloomFilterIndex::new(1, 10);
    let data = bf.serialize();
    // num_bits 64, 6 hashes, 0 inserted, 1 word, one zero word
    assert_eq!(data.len(), 28 + 8);
    assert_eq!(&data[0..8], &64u64.to_le_bytes());
    assert_eq!(&data[8..12], &6u32.to_le_bytes());
    assert_eq!(&data[12..20], &0u64.to_le_bytes());
    assert_eq!(&data[20..28], &1u64.to_le_bytes());
}

#[test]
fn bloom_short_data_gives_default_filter() {
    let bf = BloomFilterIndex::deserialize(&[1, 2, 3]);
    assert!(bf.is_queryable());
    assert!(!bf.might_contain(b"anything"));
    assert_eq!(bf.serialize(), BloomFilterIndex::new(1, 10).serialize());
}

#[test]
fn bloom_no_false_negatives_after_many_inserts() {
    let mut bf = BloomFilterIndex::new(10, 3);
    for i in 0..500 {
        bf.insert(format!("k{}", i).as_bytes());
    }
    for i in 0..500 {
        assert!(bf.might_contain(format!("k{}", i).as_bytes()));
    }
}

#[test]
fn bloom_index_trait() {
    let mut bf = BloomFilterIndex::new(10, 10);
    Index::insert(&mut bf, b"present", 42);
    Index::build(&mut bf);
    assert!(matches!(bf.lookup_hint(b"present"), LookupHint::SearchRange { start: 0, end } if end == usize::MAX));
    assert_eq!(bf.index_type_name(), "bloom");
    assert_eq!(Index::serialize(&bf), BloomFilterIndex::serialize(&bf));
    let empty = BloomFilterIndex::new(10, 10);
    assert!(matches!(empty.lookup_hint(b"present"), LookupHint::NotFound));
}

#[test]
fn a_filter_read_back_stores_the_same_bytes() {
    let mut f = BloomFilterIndex::new(50, 8);
    for i in 0..50 {
        f.insert(format!("k{}", i).as_bytes());
    }
    let g = BloomFilterIndex::deserialize(&f.serialize());
    assert_eq!(g.serialize(), f.serialize());
    for i in 0..100 {
        let k = format!("k{}", i);
        assert_eq!(g.might_contain(k.as_bytes()), f.might_contain(k.as_bytes()));
    }
}

#[test]
fn a_filter_without_bits_cannot_be_queried() {
    let mut data = Vec::new();
    data.extend_from_slice(&0u64.to_le_bytes());
    data.extend_from_slice(&2u32.to_le_bytes());
    data.extend_from_slice(&0u64.to_le_bytes());
    data.extend_from_slice(&1u64.to_le_bytes());
    data.extend_from_slice(&0u64.to_le_bytes());
    let bf = BloomFilterIndex::deserialize(&data);
    assert!(!bf.is_queryable());
    assert_eq!(bf.might_contain_checked(b"k"), None);
    // with no hash to compute, nothing is tested
    data[8..12].copy_from_slice(&0u32.to_le_bytes());
    let bf0 = BloomFilterIndex::deserialize(&data);
    assert_eq!(bf0.might_contain_checked(b"k"), Some(true));
}
