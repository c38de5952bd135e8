use lsm_engine::engine::block::{Block, DecodeError};
use lsm_engine::engine::sstable::{
    deserialize_block_index, id_of_stem, parse_u64, serialize_block_index, BlockIndexEntry, BuildError, Footer,
    SSTable, SSTableBuilder, MAGIC, VERSION,
};
use lsm_engine::{Entry, IndexType, LookupResult};

fn numbered_entries(n: u64) -> Vec<Entry> {
    (0..n)
        .map(|i| {
            let key = format!("key{:04}", i).into_bytes();
            let val = format!("value{}", i).into_bytes();
            Entry::new(key, Some(val), i)
        })
        .collect()
}

#[test]
fn test_sstable_write_read() {
    let entries = numbered_entries(100);

    let builder = SSTableBuilder::new("test.dat".to_string(), 256, IndexType::Bloom, 10);
    let result = builder.build_from_entries(&entries, &[]).unwrap();

    match result.sst.get(b"key0050").unwrap() {
        LookupResult::Found(v) => assert_eq!(v, b"value50"),
        _ => panic!("expected found"),
    }

    match result.sst.get(b"key9999").unwrap() {
        LookupResult::NotFound => {}
        _ => panic!("expected not found"),
    }

    let scanned = result.sst.scan(b"key0010", b"key0019").unwrap();
    assert_eq!(scanned.len(), 10);
}

#[test]
fn built_table_answers_every_key_and_reopens() {
    let mut entries = numbered_entries(60);
    entries[7].value = None;
    let builder = SSTableBuilder::new("dir/sst_0_12.dat".to_string(), 100, IndexType::Bloom, 10);
    let result = builder.build_from_entries(&entries, &[]).unwrap();
    assert_eq!(result.min_key, b"key0000".to_vec());
    assert_eq!(result.max_key, b"key0059".to_vec());
    assert_eq!(result.size_bytes, result.sst.data().len() as u64);
    assert_eq!(result.sst.size_bytes(), result.size_bytes);
    assert_eq!(result.sst.id(), 12);
    assert_eq!(result.sst.path(), "dir/sst_0_12.dat");
    assert_eq!(result.sst.index_type(), IndexType::Bloom);
    for (i, e) in entries.iter().enumerate() {
        match result.sst.get(&e.key).unwrap() {
            LookupResult::Found(v) => assert_eq!(Some(v), e.value.clone(), "key {}", i),
            LookupResult::Tombstone => assert!(e.value.is_none()),
            LookupResult::NotFound => panic!("key {} not found", i),
        }
    }
    // reading the file again gives the same table
    let again = SSTable::open("copy.dat".to_string(), result.sst.data().to_vec()).unwrap();
    assert_eq!(again.min_key(), b"key0000");
    assert_eq!(again.max_key(), b"key0059");
    assert!(matches!(again.get(b"key0033").unwrap(), LookupResult::Found(v) if v == b"value33".to_vec()));
    assert!(matches!(again.get(b"key0033x").unwrap(), LookupResult::NotFound));
    assert!(matches!(again.get(b"a").unwrap(), LookupResult::NotFound));
    assert!(matches!(again.get(b"zzz").unwrap(), LookupResult::NotFound));
    let all = again.scan(again.min_key(), again.max_key()).unwrap();
    assert_eq!(all.len(), 60);
}

#[test]
fn learned_table_keeps_its_model_bytes() {
    let entries = numbered_entries(20);
    let builder = SSTableBuilder::new("t.dat".to_string(), 64, IndexType::Learned, 10);
    let pairs = builder.learned_training_pairs(&entries);
    // one pair per entry: its key with the offset of the block that holds it
    assert_eq!(pairs.len(), entries.len());
    for (p, e) in pairs.iter().zip(entries.iter()) {
        assert_eq!(p.0, e.key);
    }
    assert_eq!(pairs[0], (b"key0000".to_vec(), 0));
    assert!(pairs.windows(2).all(|w| w[0].1 <= w[1].1));
    assert!(pairs[19].1 > 0);
    let model = vec![9u8, 8, 7];
    let result = builder.build_from_entries(&entries, &model).unwrap();
    assert_eq!(result.sst.index_type(), IndexType::Learned);
    assert!(matches!(result.sst.get(b"key0019").unwrap(), LookupResult::Found(v) if v == b"value19".to_vec()));
    assert!(matches!(result.sst.get(b"key0005x").unwrap(), LookupResult::NotFound));
}

#[test]
fn building_nothing_fails() {
    let builder = SSTableBuilder::new("t.dat".to_string(), 64, IndexType::Bloom, 10);
    assert!(matches!(builder.build_from_entries(&[], &[]), Err(BuildError::Empty)));
}

#[test]
fn opening_bad_files_fails() {
    assert!(matches!(SSTable::open("a".to_string(), vec![0u8; 11]), Err(DecodeError::TooSmall)));
    assert!(matches!(SSTable::open("a".to_string(), vec![0u8; 16]), Err(DecodeError::BadMagic)));
    let mut data = vec![0u8; 8];
    data.extend_from_slice(&1000u32.to_le_bytes());
    data.extend_from_slice(&MAGIC.to_le_bytes());
    assert!(matches!(SSTable::open("a".to_string(), data), Err(DecodeError::Truncated)));
    // a Bloom filter whose word count memory cannot hold
    assert!(matches!(
        SSTable::open("a".to_string(), file_with_bloom(0, 1, u64::MAX)),
        Err(DecodeError::BadIndex)
    ));
}

fn file_with_bloom(num_bits: u64, num_hashes: u32, words: u64) -> Vec<u8> {
    let mut bloom = Vec::new();
    bloom.extend_from_slice(&num_bits.to_le_bytes());
    bloom.extend_from_slice(&num_hashes.to_le_bytes());
    bloom.extend_from_slice(&0u64.to_le_bytes());
    bloom.extend_from_slice(&words.to_le_bytes());
    bloom.extend_from_slice(&0u64.to_le_bytes());
    let bi = serialize_block_index(&[]);
    let mut file = Vec::new();
    file.extend_from_slice(&bi);
    let io = file.len() as u64;
    file.extend_from_slice(&bloom);
    let footer = Footer {
        version: VERSION,
        index_type: IndexType::Bloom,
        min_key: b"a".to_vec(),
        max_key: b"b".to_vec(),
        block_index_offset: 0,
        index_offset: io,
        index_size: bloom.len() as u64,
    };
    let fb = footer.serialize();
    file.extend_from_slice(&fb);
    file.extend_from_slice(&(fb.len() as u32).to_le_bytes());
    file.extend_from_slice(&MAGIC.to_le_bytes());
    file
}

#[test]
fn a_table_with_an_unqueryable_filter_opens_and_scans() {
    // a Bloom filter with no bits: the table opens and scans
    let t = SSTable::open("a".to_string(), file_with_bloom(0, 1, 1)).unwrap();
    assert!(t.check());
    assert!(t.scan(b"a", b"z").unwrap().is_empty());
    // a key outside the key range is not found without the filter
    assert!(matches!(t.get(b"c").unwrap(), LookupResult::NotFound));
    // a key inside it cannot be looked up: the filter has no bit to test
    assert!(t.try_get(b"a").is_none());
    // with no hashes the filter tests nothing and the lookup goes on
    let t0 = SSTable::open("a".to_string(), file_with_bloom(0, 0, 1)).unwrap();
    assert!(matches!(t0.try_get(b"a"), Some(Ok(LookupResult::NotFound))));
    // bits beyond the stored words
    let t1 = SSTable::open("a".to_string(), file_with_bloom(1 << 20, 3, 1)).unwrap();
    assert!(t1.scan(b"a", b"b").unwrap().is_empty());
}

#[test]
fn block_round_trip_and_lookup() {
    let entries = vec![
        Entry::new(b"a".to_vec(), Some(b"1".to_vec()), 1),
        Entry::new(b"b".to_vec(), None, 2),
        Entry::new(b"c".to_vec(), Some(b"3".to_vec()), 3),
    ];
    let block = Block::new(entries, 10, 20);
    assert_eq!(block.first_key(), b"a");
    assert_eq!(block.offset(), 10);
    assert_eq!(block.size(), 20);
    let data = block.serialize();
    // count, then per entry: key_len, key, has_value, [val_len, val], seq
    assert_eq!(&data[0..4], &3u32.to_le_bytes());
    assert_eq!(data.len(), 4 + (4 + 1 + 1 + 4 + 1 + 8) + (4 + 1 + 1 + 8) + (4 + 1 + 1 + 4 + 1 + 8));
    let back = Block::deserialize(&data).unwrap();
    assert_eq!(back.offset(), 0);
    assert_eq!(back.get(b"a").unwrap().value.clone().unwrap(), b"1".to_vec());
    assert!(back.get(b"b").unwrap().is_tombstone());
    assert!(back.get(b"bb").is_none());
    assert_eq!(back.scan(b"b", b"c").len(), 2);
    assert!(matches!(Block::deserialize(&data[..data.len() - 1]), Err(DecodeError::Truncated)));
    assert!(matches!(Block::deserialize(&[1, 0]), Err(DecodeError::Truncated)));
}

#[test]
fn block_get_picks_newest_version() {
    let entries = vec![
        Entry::new(b"k".to_vec(), Some(b"old".to_vec()), 1),
        Entry::new(b"k".to_vec(), Some(b"new".to_vec()), 7),
        Entry::new(b"k".to_vec(), Some(b"mid".to_vec()), 4),
        Entry::new(b"z".to_vec(), Some(b"z".to_vec()), 2),
    ];
    let block = Block::new(entries, 0, 0);
    assert_eq!(block.get(b"k").unwrap().sequence, 7);
}

#[test]
fn block_index_and_footer_round_trip() {
    let idx = vec![
        BlockIndexEntry { first_key: b"a".to_vec(), block_offset: 0, block_size: 30 },
        BlockIndexEntry { first_key: b"m".to_vec(), block_offset: 30, block_size: 41 },
    ];
    let data = serialize_block_index(&idx);
    assert_eq!(data.len(), 4 + 2 * (4 + 1 + 16));
    let back = deserialize_block_index(&data).unwrap();
    assert_eq!(back.len(), 2);
    assert_eq!(back[1].first_key, b"m".to_vec());
    assert_eq!(back[1].block_offset, 30);
    assert_eq!(back[1].block_size, 41);
    assert!(matches!(deserialize_block_index(&data[..10]), Err(DecodeError::Truncated)));

    let footer = Footer {
        version: VERSION,
        index_type: IndexType::Learned,
        min_key: b"aa".to_vec(),
        max_key: b"zzz".to_vec(),
        block_index_offset: 5,
        index_offset: 6,
        index_size: 7,
    };
    let fb = footer.serialize();
    assert_eq!(fb.len(), 37 + 2 + 3);
    let back = Footer::parse(&fb).unwrap();
    assert_eq!(back.index_type, IndexType::Learned);
    assert_eq!(back.max_key, b"zzz".to_vec());
    assert_eq!(back.index_size, 7);
    assert!(Footer::parse(&fb[..fb.len() - 1]).is_none());
}

#[test]
fn table_ids_from_file_names() {
    assert_eq!(parse_u64(b"123"), Some(123));
    assert_eq!(parse_u64(b"+7"), Some(7));
    assert_eq!(parse_u64(b""), None);
    assert_eq!(parse_u64(b"+"), None);
    assert_eq!(parse_u64(b"12a"), None);
    assert_eq!(parse_u64(b"18446744073709551615"), Some(u64::MAX));
    assert_eq!(parse_u64(b"18446744073709551616"), None);
    let entries = numbered_entries(3);
    for (path, id) in [("x/sst_1_42.dat", 42u64), ("plain.dat", 0), ("a_b", 0), ("q_9", 9)] {
        let b = SSTableBuilder::new(path.to_string(), 64, IndexType::Bloom, 10);
        assert_eq!(b.build_from_entries(&entries, &[]).unwrap().sst.id(), id, "{}", path);
    }
}

#[test]
fn built_table_scan_gives_exactly_the_range() {
    let entries = numbered_entries(80);
    let result = SSTableBuilder::new("s.dat".to_string(), 90, IndexType::Bloom, 10)
        .build_from_entries(&entries, &[])
        .unwrap();
    let ranges: [(&[u8], &[u8]); 6] = [
        (b"key0000", b"key0079"),
        (b"a", b"z"),
        (b"key0015", b"key0015"),
        (b"key0030x", b"key0041"),
        (b"key0090", b"key0099"),
        (b"key0050", b"key0040"),
    ];
    for (start, end) in ranges {
        let got = result.sst.scan(start, end).unwrap();
        let want: Vec<Vec<u8>> = entries
            .iter()
            .filter(|e| e.key.as_slice() >= start && e.key.as_slice() <= end)
            .map(|e| e.key.clone())
            .collect();
        let got_keys: Vec<Vec<u8>> = got.iter().map(|e| e.key.clone()).collect();
        assert_eq!(got_keys, want);
    }
}

fn versions_of_k(seqs: &[u64]) -> Vec<Entry> {
    let mut entries = vec![Entry::new(b"a".to_vec(), Some(b"first".to_vec()), 100)];
    for s in seqs {
        let val = format!("version-{:02}-padding-padding", s).into_bytes();
        entries.push(Entry::new(b"k".to_vec(), Some(val), *s));
    }
    entries.push(Entry::new(b"z".to_vec(), Some(b"last".to_vec()), 101));
    entries
}

#[test]
fn lookup_finds_newest_version_across_blocks() {
    // small blocks, so the versions of "k" run over several of them
    let entries = versions_of_k(&[9, 8, 7, 6, 5, 4, 3, 2, 1]);
    let builder = SSTableBuilder::new("multi.dat".to_string(), 64, IndexType::Bloom, 10);
    let result = builder.build_from_entries(&entries, &[]).unwrap();
    match result.sst.get(b"k").unwrap() {
        LookupResult::Found(v) => assert_eq!(v, b"version-09-padding-padding".to_vec()),
        _ => panic!("expected found"),
    }
    let scanned = result.sst.scan(b"k", b"k").unwrap();
    let seqs: Vec<u64> = scanned.iter().map(|e| e.sequence).collect();
    assert_eq!(seqs, vec![9, 8, 7, 6, 5, 4, 3, 2, 1]);
    let all = result.sst.scan(b"a", b"z").unwrap();
    assert_eq!(all.len(), entries.len());
}

#[test]
fn lookup_takes_largest_sequence_wherever_it_lies() {
    let entries = versions_of_k(&[3, 1, 4, 2, 9, 5, 6]);
    let builder = SSTableBuilder::new("mixed.dat".to_string(), 64, IndexType::Bloom, 10);
    let result = builder.build_from_entries(&entries, &[]).unwrap();
    match result.sst.get(b"k").unwrap() {
        LookupResult::Found(v) => assert_eq!(v, b"version-09-padding-padding".to_vec()),
        _ => panic!("expected found"),
    }
    assert!(matches!(result.sst.get(b"m").unwrap(), LookupResult::NotFound));
    match result.sst.get(b"z").unwrap() {
        LookupResult::Found(v) => assert_eq!(v, b"last".to_vec()),
        _ => panic!("expected found"),
    }
}

#[test]
fn ids_from_file_stems() {
    assert_eq!(id_of_stem("sst_0_7"), 7);
    assert_eq!(id_of_stem("sst_12"), 12);
    assert_eq!(id_of_stem("12"), 12);
    assert_eq!(id_of_stem("sst_"), 0);
    assert_eq!(id_of_stem("sst_x"), 0);
    assert_eq!(id_of_stem("a_+5"), 5);
}
