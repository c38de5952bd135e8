use lsm_engine::benchmark::harness::{
    generate_key, get_workload_config, key_index, DistributionType, WorkloadCall, WorkloadProgress,
};
use lsm_engine::index::learned::key_to_u64;
use lsm_engine::Entry;

#[test]
fn keys_are_zero_padded_decimals() {
    assert_eq!(generate_key(0), b"user0000000000".to_vec());
    assert_eq!(generate_key(42), b"user0000000042".to_vec());
    assert_eq!(generate_key(1234567890), b"user1234567890".to_vec());
    assert_eq!(generate_key(12345678901), b"user12345678901".to_vec());
    assert_eq!(generate_key(42), format!("user{:010}", 42).into_bytes());
}

#[test]
fn workload_mixes() {
    let a = get_workload_config("A");
    assert_eq!((a.read_percent, a.update_percent), (50, 50));
    assert_eq!(a.distribution, DistributionType::Zipfian);
    let c = get_workload_config("C");
    assert_eq!(c.read_percent, 100);
    let d = get_workload_config("D");
    assert_eq!((d.read_percent, d.insert_percent), (95, 5));
    assert_eq!(d.distribution, DistributionType::Latest);
    let x = get_workload_config("AB");
    assert_eq!(x.distribution, DistributionType::Uniform);
    assert_eq!(get_workload_config("B").update_percent, 5);
}

#[test]
fn key_numbers_read_the_first_eight_bytes() {
    assert_eq!(key_to_u64(b""), 0);
    assert_eq!(key_to_u64(b"abc"), 0x6162_6300_0000_0000);
    assert_eq!(key_to_u64(b"abcdefghij"), u64::from_be_bytes(*b"abcdefgh"));
}

#[test]
fn entry_basics() {
    let e = Entry::new(b"key".to_vec(), Some(b"value".to_vec()), 4);
    assert!(!e.is_tombstone());
    assert_eq!(e.size_bytes(), 3 + 5 + 8);
    let t = Entry::new(b"key".to_vec(), None, 5);
    assert!(t.is_tombstone());
    assert_eq!(t.size_bytes(), 3 + 8);
    let d = e.duplicate();
    assert_eq!(d.key, e.key);
    assert_eq!(d.value, e.value);
    assert_eq!(d.sequence, 4);
}

#[test]
fn key_indices_by_distribution() {
    assert_eq!(key_index(DistributionType::Uniform, 100, 37), 37);
    assert_eq!(key_index(DistributionType::Sequential, 100, 5), 5);
    assert_eq!(key_index(DistributionType::Zipfian, 100, 40), 40);
    assert_eq!(key_index(DistributionType::Zipfian, 100, 250), 99);
    assert_eq!(key_index(DistributionType::Latest, 100, 0), 99);
    assert_eq!(key_index(DistributionType::Latest, 100, 9), 90);
    assert_eq!(key_index(DistributionType::Latest, 5, 7), 0);
}

#[test]
fn workload_steps_count_and_pick_keys() {
    let mut p = WorkloadProgress::new(10);
    match p.step(0, 3) {
        WorkloadCall::Get(k) => assert_eq!(k, generate_key(3)),
        other => panic!("unexpected {:?}", other),
    }
    match p.step(1, 4) {
        WorkloadCall::Put(k) => assert_eq!(k, generate_key(4)),
        other => panic!("unexpected {:?}", other),
    }
    match p.step(2, 4) {
        WorkloadCall::Put(k) => assert_eq!(k, generate_key(10)),
        other => panic!("unexpected {:?}", other),
    }
    match p.step(2, 0) {
        WorkloadCall::Put(k) => assert_eq!(k, generate_key(11)),
        other => panic!("unexpected {:?}", other),
    }
    match p.step(3, 7) {
        WorkloadCall::Delete(k) => assert_eq!(k, generate_key(7)),
        other => panic!("unexpected {:?}", other),
    }
    assert_eq!(
        p,
        WorkloadProgress { read_ops: 1, write_ops: 3, delete_ops: 1, next_insert_key: 12 }
    );
}

#[test]
fn benchmark_values_have_random_lengths_in_range() {
    for _ in 0..50 {
        let v = lsm_engine::benchmark::harness::generate_value();
        assert!(v.len() >= 64 && v.len() < 256);
    }
}
