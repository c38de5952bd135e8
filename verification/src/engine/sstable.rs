//! Sorted string tables. A table file is laid out as
//!
//! `blocks | block index | index | footer | footer_len:u32 | MAGIC:u32`
//!
//! where the block index is `count:u32` followed by, per block,
//! `key_len:u32 | first_key | offset:u64 | size:u64`, and the footer is
//! `version:u32 | index_type:u8 | min_len:u32 | min_key | max_len:u32 |
//! max_key | block_index_offset:u64 | index_offset:u64 | index_size:u64`.
//! All integers are little-endian.
use vstd::prelude::*;

use vstd::bytes::{
    lemma_auto_spec_u32_to_from_le_bytes, lemma_auto_spec_u64_to_from_le_bytes,
    spec_u32_from_le_bytes, spec_u32_to_le_bytes, spec_u64_from_le_bytes, spec_u64_to_le_bytes,
};

use vstd::slice::slice_subrange;

use crate::engine::block::{block_lookup, parse_block, upto_end, Block, DecodeError};
use crate::engine::format::{append_bytes, copy_range, push_u32_le, push_u64_le, read_u32_le, read_u64_le};
use crate::index::bloom::{stored_word_count, BloomFilterIndex};
use crate::keys::{key_lt, lex_le, lex_lt, lemma_lex_lt_total, lemma_lex_order};
use crate::versions::{entries_view, newer_of, newest_version, select_range, sorted_by_key};
use crate::{opt_entry_view, reports, Entry, EntryView, IndexType, LookupResult};

verus! {

/// The number at the very end of every table file ("LSME").
pub const MAGIC: u32 = 0x4C534D45;

/// The footer format version written by this library.
pub const VERSION: u32 = 1;

/// Where a block lies in the table file, and the first key it holds.
pub struct BlockIndexEntry {
    pub first_key: Vec<u8>,
    pub block_offset: u64,
    pub block_size: u64,
}

/// The mathematical content of a [`BlockIndexEntry`].
pub struct IndexEntryView {
    pub first_key: Seq<u8>,
    pub block_offset: u64,
    pub block_size: u64,
}

impl View for BlockIndexEntry {
    type V = IndexEntryView;

    open spec fn view(&self) -> IndexEntryView {
        IndexEntryView {
            first_key: self.first_key@,
            block_offset: self.block_offset,
            block_size: self.block_size,
        }
    }
}

/// The views of a sequence of block index entries.
pub open spec fn index_view(v: Seq<BlockIndexEntry>) -> Seq<IndexEntryView> {
    v.map_values(|e: BlockIndexEntry| e@)
}

/// The stored form of one block index entry.
pub open spec fn encode_index_entry(e: IndexEntryView) -> Seq<u8> {
    spec_u32_to_le_bytes(e.first_key.len() as u32) + e.first_key + spec_u64_to_le_bytes(
        e.block_offset,
    ) + spec_u64_to_le_bytes(e.block_size)
}

pub open spec fn encode_index_entries(s: Seq<IndexEntryView>) -> Seq<u8>
    decreases s.len(),
{
    if s.len() == 0 {
        Seq::empty()
    } else {
        encode_index_entries(s.drop_last()) + encode_index_entry(s.last())
    }
}

/// The stored form of a block index.
pub open spec fn encode_block_index(s: Seq<IndexEntryView>) -> Seq<u8> {
    spec_u32_to_le_bytes(s.len() as u32) + encode_index_entries(s)
}

/// Read the block index entry at `pos`, with the position after it.
pub open spec fn parse_index_entry(data: Seq<u8>, pos: int) -> Option<(IndexEntryView, int)> {
    if pos < 0 || pos + 4 > data.len() {
        None
    } else {
        let p1 = pos + 4 + spec_u32_from_le_bytes(data.subrange(pos, pos + 4)) as int;
        if p1 + 16 > data.len() {
            None
        } else {
            Some(
                (
                    IndexEntryView {
                        first_key: data.subrange(pos + 4, p1),
                        block_offset: spec_u64_from_le_bytes(data.subrange(p1, p1 + 8)),
                        block_size: spec_u64_from_le_bytes(data.subrange(p1 + 8, p1 + 16)),
                    },
                    p1 + 16,
                ),
            )
        }
    }
}

pub open spec fn parse_index_entries(data: Seq<u8>, pos: int, n: nat) -> Option<
    (Seq<IndexEntryView>, int),
>
    decreases n,
{
    if n == 0 {
        Some((Seq::empty(), pos))
    } else {
        match parse_index_entries(data, pos, (n - 1) as nat) {
            Some((s, p)) => match parse_index_entry(data, p) {
                Some((e, q)) => Some((s.push(e), q)),
                None => None,
            },
            None => None,
        }
    }
}

/// The entries of a stored block index, or `None` if the data ends early.
pub open spec fn parse_block_index(data: Seq<u8>) -> Option<Seq<IndexEntryView>> {
    if data.len() < 4 {
        None
    } else {
        match parse_index_entries(data, 4, spec_u32_from_le_bytes(data.subrange(0, 4)) as nat) {
            Some((s, _)) => Some(s),
            None => None,
        }
    }
}

/// The first key of an entry is short enough for its 32-bit length.
pub open spec fn index_entry_fits(e: IndexEntryView) -> bool {
    e.first_key.len() <= u32::MAX
}

proof fn lemma_parse_encoded_index_entry(pre: Seq<u8>, e: IndexEntryView, post: Seq<u8>)
    requires
        index_entry_fits(e),
    ensures
        parse_index_entry(pre + encode_index_entry(e) + post, pre.len() as int) == Some(
            (e, (pre.len() + encode_index_entry(e).len()) as int),
        ),
{
    lemma_auto_spec_u32_to_from_le_bytes();
    lemma_auto_spec_u64_to_from_le_bytes();
    let data = pre + encode_index_entry(e) + post;
    let pos = pre.len() as int;
    assert(data.subrange(pos, pos + 4) =~= spec_u32_to_le_bytes(e.first_key.len() as u32));
    let p1 = pos + 4 + e.first_key.len();
    assert(data.subrange(pos + 4, p1) =~= e.first_key);
    assert(data.subrange(p1, p1 + 8) =~= spec_u64_to_le_bytes(e.block_offset));
    assert(data.subrange(p1 + 8, p1 + 16) =~= spec_u64_to_le_bytes(e.block_size));
}

proof fn lemma_parse_encoded_index_entries(pre: Seq<u8>, s: Seq<IndexEntryView>, post: Seq<u8>)
    requires
        forall|i: int| 0 <= i < s.len() ==> index_entry_fits(#[trigger] s[i]),
    ensures
        parse_index_entries(pre + encode_index_entries(s) + post, pre.len() as int, s.len())
            == Some((s, (pre.len() + encode_index_entries(s).len()) as int)),
    decreases s.len(),
{
    if s.len() > 0 {
        let init = s.drop_last();
        let last = s.last();
        let rest = encode_index_entry(last) + post;
        assert(pre + encode_index_entries(s) + post =~= pre + encode_index_entries(init) + rest);
        lemma_parse_encoded_index_entries(pre, init, rest);
        assert(pre + encode_index_entries(s) + post =~= (pre + encode_index_entries(init))
            + encode_index_entry(last) + post);
        lemma_parse_encoded_index_entry(pre + encode_index_entries(init), last, post);
        assert(init.push(last) =~= s);
    }
}

/// A stored block index reads back as the entries it was written from.
pub proof fn lemma_block_index_roundtrip(s: Seq<IndexEntryView>)
    requires
        s.len() <= u32::MAX,
        forall|i: int| 0 <= i < s.len() ==> index_entry_fits(#[trigger] s[i]),
    ensures
        parse_block_index(encode_block_index(s)) == Some(s),
{
    lemma_auto_spec_u32_to_from_le_bytes();
    let pre = spec_u32_to_le_bytes(s.len() as u32);
    lemma_parse_encoded_index_entries(pre, s, Seq::empty());
    assert(pre + encode_index_entries(s) + Seq::<u8>::empty() =~= encode_block_index(s));
    assert(encode_block_index(s).subrange(0, 4) =~= pre);
}

proof fn lemma_parse_index_entries_none_grows(data: Seq<u8>, pos: int, n: nat, m: nat)
    requires
        parse_index_entries(data, pos, n) is None,
        n <= m,
    ensures
        parse_index_entries(data, pos, m) is None,
    decreases m - n,
{
    if n < m {
        lemma_parse_index_entries_none_grows(data, pos, n, (m - 1) as nat);
    }
}

/// Append the stored form of `e` to `buf`.
fn write_index_entry(buf: &mut Vec<u8>, e: &BlockIndexEntry)
    ensures
        final(buf)@ == old(buf)@ + encode_index_entry(e@),
{
    let ghost start = buf@;
    push_u32_le(buf, e.first_key.len() as u32);
    append_bytes(buf, e.first_key.as_slice());
    push_u64_le(buf, e.block_offset);
    push_u64_le(buf, e.block_size);
    assert(buf@ =~= start + encode_index_entry(e@));
}

/// The stored form of a block index.
pub fn serialize_block_index(entries: &[BlockIndexEntry]) -> (r: Vec<u8>)
    ensures
        r@ == encode_block_index(index_view(entries@)),
{
    let mut buf: Vec<u8> = Vec::new();
    push_u32_le(&mut buf, entries.len() as u32);
    let ghost header = buf@;
    let mut i: usize = 0;
    assert(index_view(entries@.subrange(0, 0)) =~= Seq::<IndexEntryView>::empty());
    while i < entries.len()
        invariant
            i <= entries@.len(),
            buf@ == header + encode_index_entries(index_view(entries@.subrange(0, i as int))),
        decreases entries.len() - i,
    {
        write_index_entry(&mut buf, &entries[i]);
        i = i + 1;
        assert(index_view(entries@.subrange(0, i as int)).drop_last() =~= index_view(
            entries@.subrange(0, i - 1),
        ));
    }
    assert(entries@.subrange(0, entries@.len() as int) =~= entries@);
    buf
}

/// Read the block index entry at `pos`.
fn read_index_entry(data: &[u8], pos: usize) -> (r: Option<(BlockIndexEntry, usize)>)
    ensures
        match r {
            Some((e, q)) => parse_index_entry(data@, pos as int) == Some((e@, q as int)),
            None => parse_index_entry(data@, pos as int) is None,
        },
{
    if data.len() < 4 || pos > data.len() - 4 {
        return None;
    }
    let klen = read_u32_le(data, pos) as usize;
    let p0 = pos + 4;
    if klen > data.len() - p0 || data.len() - p0 - klen < 16 {
        return None;
    }
    let p1 = p0 + klen;
    let first_key = copy_range(data, p0, p1);
    let block_offset = read_u64_le(data, p1);
    let block_size = read_u64_le(data, p1 + 8);
    Some((BlockIndexEntry { first_key, block_offset, block_size }, p1 + 16))
}

/// Read a stored block index.
pub fn deserialize_block_index(data: &[u8]) -> (r: Result<Vec<BlockIndexEntry>, DecodeError>)
    ensures
        match r {
            Ok(v) => parse_block_index(data@) == Some(index_view(v@)),
            Err(e) => parse_block_index(data@) is None && e == DecodeError::Truncated,
        },
{
    if data.len() < 4 {
        return Err(DecodeError::Truncated);
    }
    let count = read_u32_le(data, 0);
    let mut entries: Vec<BlockIndexEntry> = Vec::new();
    let mut pos: usize = 4;
    let mut i: u32 = 0;
    while i < count
        invariant
            count == spec_u32_from_le_bytes(data@.subrange(0, 4)),
            i <= count,
            parse_index_entries(data@, 4, i as nat) == Some((index_view(entries@), pos as int)),
        decreases count - i,
    {
        match read_index_entry(data, pos) {
            Some((e, q)) => {
                let ghost pre = index_view(entries@);
                entries.push(e);
                pos = q;
                i = i + 1;
                assert(index_view(entries@) =~= pre.push(e@));
            },
            None => {
                proof {
                    lemma_parse_index_entries_none_grows(data@, 4, (i + 1) as nat, count as nat);
                }
                return Err(DecodeError::Truncated);
            },
        }
    }
    Ok(entries)
}

/// The byte that stores an index type.
pub open spec fn index_type_byte(t: IndexType) -> u8 {
    match t {
        IndexType::Bloom => 0,
        IndexType::Learned => 1,
    }
}

/// The index type a stored byte names; unknown bytes name a Bloom filter.
pub open spec fn index_type_of(b: u8) -> IndexType {
    if b == 1 {
        IndexType::Learned
    } else {
        IndexType::Bloom
    }
}

/// The table footer.
pub struct Footer {
    pub version: u32,
    pub index_type: IndexType,
    pub min_key: Vec<u8>,
    pub max_key: Vec<u8>,
    pub block_index_offset: u64,
    pub index_offset: u64,
    pub index_size: u64,
}

/// The mathematical content of a [`Footer`].
pub struct FooterView {
    pub version: u32,
    pub index_type: IndexType,
    pub min_key: Seq<u8>,
    pub max_key: Seq<u8>,
    pub block_index_offset: u64,
    pub index_offset: u64,
    pub index_size: u64,
}

impl View for Footer {
    type V = FooterView;

    open spec fn view(&self) -> FooterView {
        FooterView {
            version: self.version,
            index_type: self.index_type,
            min_key: self.min_key@,
            max_key: self.max_key@,
            block_index_offset: self.block_index_offset,
            index_offset: self.index_offset,
            index_size: self.index_size,
        }
    }
}

/// The stored form of a footer.
pub open spec fn encode_footer(f: FooterView) -> Seq<u8> {
    spec_u32_to_le_bytes(f.version) + seq![index_type_byte(f.index_type)] + spec_u32_to_le_bytes(
        f.min_key.len() as u32,
    ) + f.min_key + spec_u32_to_le_bytes(f.max_key.len() as u32) + f.max_key
        + spec_u64_to_le_bytes(f.block_index_offset) + spec_u64_to_le_bytes(f.index_offset)
        + spec_u64_to_le_bytes(f.index_size)
}

/// Read a footer from the start of `data`; bytes after it are ignored.
pub open spec fn parse_footer(data: Seq<u8>) -> Option<FooterView> {
    if data.len() < 9 {
        None
    } else {
        let p1 = 9 + spec_u32_from_le_bytes(data.subrange(5, 9)) as int;
        if p1 + 4 > data.len() {
            None
        } else {
            let p2 = p1 + 4 + spec_u32_from_le_bytes(data.subrange(p1, p1 + 4)) as int;
            if p2 + 24 > data.len() {
                None
            } else {
                Some(
                    FooterView {
                        version: spec_u32_from_le_bytes(data.subrange(0, 4)),
                        index_type: index_type_of(data[4]),
                        min_key: data.subrange(9, p1),
                        max_key: data.subrange(p1 + 4, p2),
                        block_index_offset: spec_u64_from_le_bytes(data.subrange(p2, p2 + 8)),
                        index_offset: spec_u64_from_le_bytes(data.subrange(p2 + 8, p2 + 16)),
                        index_size: spec_u64_from_le_bytes(data.subrange(p2 + 16, p2 + 24)),
                    },
                )
            }
        }
    }
}

/// The keys of a footer are short enough for their 32-bit lengths.
pub open spec fn footer_fits(f: FooterView) -> bool {
    f.min_key.len() <= u32::MAX && f.max_key.len() <= u32::MAX
}

/// A stored footer reads back as the footer it was written from.
pub proof fn lemma_footer_roundtrip(f: FooterView, post: Seq<u8>)
    requires
        footer_fits(f),
    ensures
        parse_footer(encode_footer(f) + post) == Some(f),
{
    lemma_auto_spec_u32_to_from_le_bytes();
    lemma_auto_spec_u64_to_from_le_bytes();
    let d = encode_footer(f) + post;
    let a = f.min_key.len() as int;
    let b = f.max_key.len() as int;
    assert(d.subrange(0, 4) =~= spec_u32_to_le_bytes(f.version));
    assert(d[4] == index_type_byte(f.index_type));
    assert(d.subrange(5, 9) =~= spec_u32_to_le_bytes(f.min_key.len() as u32));
    assert(d.subrange(9, 9 + a) =~= f.min_key);
    assert(d.subrange(9 + a, 13 + a) =~= spec_u32_to_le_bytes(f.max_key.len() as u32));
    assert(d.subrange(13 + a, 13 + a + b) =~= f.max_key);
    let p2 = 13 + a + b;
    assert(d.subrange(p2, p2 + 8) =~= spec_u64_to_le_bytes(f.block_index_offset));
    assert(d.subrange(p2 + 8, p2 + 16) =~= spec_u64_to_le_bytes(f.index_offset));
    assert(d.subrange(p2 + 16, p2 + 24) =~= spec_u64_to_le_bytes(f.index_size));
}

impl Footer {
    /// The stored form of the footer.
    pub fn serialize(&self) -> (r: Vec<u8>)
        ensures
            r@ == encode_footer(self@),
    {
        let mut buf: Vec<u8> = Vec::new();
        push_u32_le(&mut buf, self.version);
        let b: u8 = match self.index_type {
            IndexType::Bloom => 0,
            IndexType::Learned => 1,
        };
        buf.push(b);
        push_u32_le(&mut buf, self.min_key.len() as u32);
        append_bytes(&mut buf, self.min_key.as_slice());
        push_u32_le(&mut buf, self.max_key.len() as u32);
        append_bytes(&mut buf, self.max_key.as_slice());
        push_u64_le(&mut buf, self.block_index_offset);
        push_u64_le(&mut buf, self.index_offset);
        push_u64_le(&mut buf, self.index_size);
        assert(buf@ =~= encode_footer(self@));
        buf
    }

    /// Read a footer from the start of `data`.
    pub fn parse(data: &[u8]) -> (r: Option<Footer>)
        ensures
            match r {
                Some(f) => parse_footer(data@) == Some(f@),
                None => parse_footer(data@) is None,
            },
    {
        if data.len() < 9 {
            return None;
        }
        let version = read_u32_le(data, 0);
        let index_type = if data[4] == 1 {
            IndexType::Learned
        } else {
            IndexType::Bloom
        };
        let min_len = read_u32_le(data, 5) as usize;
        if min_len > data.len() - 9 || data.len() - 9 - min_len < 4 {
            return None;
        }
        let p1 = 9 + min_len;
        let min_key = copy_range(data, 9, p1);
        let max_len = read_u32_le(data, p1) as usize;
        if max_len > data.len() - (p1 + 4) || data.len() - (p1 + 4) - max_len < 24 {
            return None;
        }
        let p2 = p1 + 4 + max_len;
        let max_key = copy_range(data, p1 + 4, p2);
        let block_index_offset = read_u64_le(data, p2);
        let index_offset = read_u64_le(data, p2 + 8);
        let index_size = read_u64_le(data, p2 + 16);
        Some(
            Footer {
                version,
                index_type,
                min_key,
                max_key,
                block_index_offset,
                index_offset,
                index_size,
            },
        )
    }
}

/// The parts of a table file that its footer locates.
pub struct TableParts {
    pub footer: FooterView,
    pub block_index: Seq<IndexEntryView>,
    pub index_data: Seq<u8>,
}

/// Locate and read the parts of a table file.
pub open spec fn parse_table(data: Seq<u8>) -> Result<TableParts, DecodeError> {
    let n = data.len() as int;
    if n < 12 {
        Err(DecodeError::TooSmall)
    } else if spec_u32_from_le_bytes(data.subrange(n - 4, n)) != MAGIC {
        Err(DecodeError::BadMagic)
    } else {
        let fsz = spec_u32_from_le_bytes(data.subrange(n - 8, n - 4)) as int;
        if fsz > n - 8 {
            Err(DecodeError::Truncated)
        } else {
            match parse_footer(data.subrange(n - 8 - fsz, n - 8)) {
                None => Err(DecodeError::Truncated),
                Some(f) => {
                    let bio = f.block_index_offset as int;
                    let io = f.index_offset as int;
                    if !(bio <= io && io <= n) {
                        Err(DecodeError::Truncated)
                    } else {
                        match parse_block_index(data.subrange(bio, io)) {
                            None => Err(DecodeError::Truncated),
                            Some(bi) => if io + f.index_size > n {
                                Err(DecodeError::Truncated)
                            } else {
                                Ok(
                                    TableParts {
                                        footer: f,
                                        block_index: bi,
                                        index_data: data.subrange(io, io + f.index_size),
                                    },
                                )
                            },
                        }
                    }
                },
            }
        }
    }
}

/// Stored Bloom filter data that can be loaded: too short to hold a filter
/// (a default filter is used), or a filter whose word count memory can
/// hold.
pub open spec fn bloom_data_ok(d: Seq<u8>) -> bool {
    d.len() < 28 || stored_word_count(d) <= (isize::MAX as u64) / 8
}

/// What opening a table file gives: its parts, or why it cannot be read.
pub open spec fn open_outcome(data: Seq<u8>) -> Result<TableParts, DecodeError> {
    match parse_table(data) {
        Err(e) => Err(e),
        Ok(p) => if p.footer.index_type == IndexType::Bloom && !bloom_data_ok(p.index_data) {
            Err(DecodeError::BadIndex)
        } else {
            Ok(p)
        },
    }
}

/// The filter `b` was loaded from `d`.
pub open spec fn loaded_from(b: BloomFilterIndex, d: Seq<u8>) -> bool {
    if d.len() < 28 {
        &&& b.spec_num_bits() == 64
        &&& b.spec_num_hashes() == 6
        &&& b.words() == seq![0u64]
    } else {
        &&& b.spec_num_bits() == spec_u64_from_le_bytes(d.subrange(0, 8)) as usize
        &&& b.spec_num_hashes() == spec_u32_from_le_bytes(d.subrange(8, 12)) as usize
        &&& b.words().len() == stored_word_count(d)
        &&& forall|i: int|
            0 <= i < b.words().len() ==> #[trigger] b.words()[i]
                == crate::index::bloom::stored_word(d, i)
    }
}

/// The first keys of the blocks never decrease.
pub open spec fn index_sorted(bi: Seq<IndexEntryView>) -> bool {
    forall|i: int, j: int|
        0 <= i < j < bi.len() ==> !lex_lt(#[trigger] bi[j].first_key, #[trigger] bi[i].first_key)
}

/// The number of leading blocks whose first key is below `key`.
pub open spec fn index_partition(bi: Seq<IndexEntryView>, key: Seq<u8>) -> int
    decreases bi.len(),
{
    if bi.len() == 0 {
        0
    } else if lex_lt(bi[0].first_key, key) {
        1 + index_partition(bi.drop_first(), key)
    } else {
        0
    }
}

/// The first block that may hold a version of `key`: the last one whose
/// first key is below `key` (versions of `key` may begin in it and run on
/// into the blocks after it), or the first block when there is none.
pub open spec fn block_for(bi: Seq<IndexEntryView>, key: Seq<u8>) -> int {
    let p = index_partition(bi, key);
    if p == 0 {
        0
    } else {
        p - 1
    }
}

/// The entries of block `i` as stored in `data`, or `None` if the block lies
/// outside the data or does not decode.
pub open spec fn read_block_at(data: Seq<u8>, bi: Seq<IndexEntryView>, i: int) -> Option<
    Seq<EntryView>,
> {
    let off = bi[i].block_offset as int;
    let end = off + bi[i].block_size;
    if end <= data.len() {
        parse_block(data.subrange(off, end))
    } else {
        None
    }
}

/// The key a block reports as its first: that of its first entry.
pub open spec fn first_key_of(s: Seq<EntryView>) -> Seq<u8> {
    if s.len() > 0 {
        s[0].key
    } else {
        Seq::empty()
    }
}

/// What a block contributes to a scan of `[start, end]`.
pub open spec fn block_scan(s: Seq<EntryView>, start: Seq<u8>, end: Seq<u8>) -> Seq<EntryView> {
    select_range(s.subrange(0, upto_end(s, end)), start, end)
}

/// A scan of `[start, end]` over the blocks from `i` on: block by block,
/// stopping before the first block whose first key is above `end`; `None`
/// if a block on the way cannot be read.
pub open spec fn scan_blocks(
    data: Seq<u8>,
    bi: Seq<IndexEntryView>,
    i: int,
    start: Seq<u8>,
    end: Seq<u8>,
) -> Option<Seq<EntryView>>
    decreases bi.len() - i,
{
    if i < 0 || i >= bi.len() {
        Some(Seq::empty())
    } else {
        match read_block_at(data, bi, i) {
            None => None,
            Some(s) => if lex_lt(end, first_key_of(s)) {
                Some(Seq::empty())
            } else {
                match scan_blocks(data, bi, i + 1, start, end) {
                    Some(rest) => Some(block_scan(s, start, end) + rest),
                    None => None,
                }
            },
        }
    }
}

pub proof fn lemma_index_partition_at(s: Seq<IndexEntryView>, key: Seq<u8>, p: int)
    requires
        0 <= p <= s.len(),
        forall|t: int| 0 <= t < p ==> lex_lt(#[trigger] s[t].first_key, key),
        p < s.len() ==> !lex_lt(s[p].first_key, key),
    ensures
        index_partition(s, key) == p,
    decreases s.len(),
{
    if s.len() > 0 && p > 0 {
        assert forall|t: int| 0 <= t < p - 1 implies lex_lt(#[trigger] s.drop_first()[t].first_key, key) by {
            assert(s.drop_first()[t] == s[t + 1]);
        }
        lemma_index_partition_at(s.drop_first(), key, p - 1);
    }
}

/// Where a binary search of blocks `[lo, hi)` for the first block whose
/// first key is not below `key` ends; with first keys in order, the number
/// of leading blocks whose first key is below `key`.
pub open spec fn index_search(bi: Seq<IndexEntryView>, key: Seq<u8>, lo: int, hi: int) -> int
    decreases hi - lo,
{
    if lo < hi {
        let mid = lo + (hi - lo) / 2;
        if lex_lt(bi[mid].first_key, key) {
            index_search(bi, key, mid + 1, hi)
        } else {
            index_search(bi, key, lo, mid)
        }
    } else {
        lo
    }
}

/// The block a lookup of `key` starts from: the one before where a binary
/// search for the first block whose first key is not below `key` ends, or
/// the first block when the search ends at the start. With first keys in
/// order, this is [`block_for`].
pub open spec fn searched_block(bi: Seq<IndexEntryView>, key: Seq<u8>) -> int {
    let p = index_search(bi, key, 0, bi.len() as int);
    if p == 0 {
        0
    } else {
        p - 1
    }
}

proof fn lemma_index_search_range(bi: Seq<IndexEntryView>, key: Seq<u8>, lo: int, hi: int)
    requires
        lo <= hi,
    ensures
        lo <= index_search(bi, key, lo, hi) <= hi,
    decreases hi - lo,
{
    if lo < hi {
        let mid = lo + (hi - lo) / 2;
        if lex_lt(bi[mid].first_key, key) {
            lemma_index_search_range(bi, key, mid + 1, hi);
        } else {
            lemma_index_search_range(bi, key, lo, mid);
        }
    }
}

proof fn lemma_index_search_sorted(bi: Seq<IndexEntryView>, key: Seq<u8>, lo: int, hi: int)
    requires
        index_sorted(bi),
        0 <= lo <= hi <= bi.len(),
        forall|t: int| 0 <= t < lo ==> lex_lt(#[trigger] bi[t].first_key, key),
        forall|t: int| hi <= t < bi.len() ==> !lex_lt(#[trigger] bi[t].first_key, key),
    ensures
        index_search(bi, key, lo, hi) == index_partition(bi, key),
    decreases hi - lo,
{
    if lo < hi {
        let mid = lo + (hi - lo) / 2;
        if lex_lt(bi[mid].first_key, key) {
            assert forall|t: int| 0 <= t < mid + 1 implies lex_lt(#[trigger] bi[t].first_key, key) by {
                if t < mid {
                    lemma_lex_lt_total(bi[t].first_key, bi[mid].first_key);
                    lemma_lex_order(bi[t].first_key, bi[mid].first_key, key);
                }
            }
            lemma_index_search_sorted(bi, key, mid + 1, hi);
        } else {
            assert forall|t: int| mid <= t < bi.len() implies !lex_lt(#[trigger] bi[t].first_key, key) by {
                if t > mid {
                    lemma_lex_lt_total(bi[t].first_key, bi[mid].first_key);
                    lemma_lex_lt_total(bi[mid].first_key, key);
                    lemma_lex_order(bi[mid].first_key, bi[t].first_key, key);
                }
            }
            lemma_index_search_sorted(bi, key, lo, mid);
        }
    } else {
        lemma_index_partition_at(bi, key, lo);
    }
}

/// With first keys in order, the searched block is the last one whose
/// first key is below `key` (the first block when there is none).
pub proof fn lemma_searched_block_sorted(bi: Seq<IndexEntryView>, key: Seq<u8>)
    requires
        index_sorted(bi),
    ensures
        searched_block(bi, key) == block_for(bi, key),
{
    lemma_index_search_sorted(bi, key, 0, bi.len() as int);
}

/// A lookup of `key` over the blocks from `i` on, stopping before the first
/// block whose first key is above `key`: the newest of the versions the
/// blocks give (the earliest on a tie), or `None` if a block on the way
/// cannot be read.
pub open spec fn lookup_blocks(data: Seq<u8>, bi: Seq<IndexEntryView>, i: int, key: Seq<u8>) -> Option<
    Option<EntryView>,
>
    decreases bi.len() - i,
{
    if i < 0 || i >= bi.len() || lex_lt(key, bi[i].first_key) {
        Some(None)
    } else {
        match read_block_at(data, bi, i) {
            None => None,
            Some(s) => match lookup_blocks(data, bi, i + 1, key) {
                None => None,
                Some(rest) => Some(newer_of(block_lookup(s, key), rest)),
            },
        }
    }
}

/// `r` is what a lookup of `key` in `t` answers: not found when `key` lies
/// outside the table's key range or the filter rules it out, or when the
/// table has no blocks; otherwise the newest version that
/// [`lookup_blocks`] finds from the block that a search of the first keys
/// picks (an error when a block on the way cannot be read). With first
/// keys and entries in order, that is the key's newest version in the
/// table, wherever its versions lie.
pub open spec fn get_answers(t: SSTable, key: Seq<u8>, r: Result<LookupResult, DecodeError>) -> bool {
    let bi = t.spec_block_index();
    &&& (lex_lt(key, t.spec_min_key()) || lex_lt(t.spec_max_key(), key)) ==> r == Ok::<
        LookupResult,
        DecodeError,
    >(LookupResult::NotFound)
    &&& t.excludes(key) ==> r == Ok::<LookupResult, DecodeError>(LookupResult::NotFound)
    &&& bi.len() == 0 ==> r == Ok::<LookupResult, DecodeError>(LookupResult::NotFound)
    &&& ({
        &&& lex_le(t.spec_min_key(), key)
        &&& lex_le(key, t.spec_max_key())
        &&& !t.excludes(key)
        &&& bi.len() > 0
    }) ==> match lookup_blocks(t.spec_data(), bi, searched_block(bi, key), key) {
        None => r == Err::<LookupResult, DecodeError>(DecodeError::Truncated),
        Some(f) => r is Ok && reports(r->Ok_0, f),
    }
}

/// `r` is what a scan of `[start, end]` over `t` gives: the entries of
/// [`scan_blocks`] from the block that a search of the first keys picks for
/// `start` (with first keys in order, the first block that may hold `start`), or
/// an error when a block on the way cannot be read.
pub open spec fn scan_answers(t: SSTable, start: Seq<u8>, end: Seq<u8>, r: Result<Vec<Entry>, DecodeError>) -> bool {
    let from = if t.spec_block_index().len() == 0 {
        0
    } else {
        searched_block(t.spec_block_index(), start)
    };
    match scan_blocks(t.spec_data(), t.spec_block_index(), from, start, end) {
        None => r == Err::<Vec<Entry>, DecodeError>(DecodeError::Truncated),
        Some(s) => r matches Ok(v) && entries_view(v@) == s,
    }
}

/// The index of a table: a Bloom filter, or the stored form of a learned
/// model (which never rules a key out).
pub enum TableIndex {
    Bloom(BloomFilterIndex),
    Learned(Vec<u8>),
}

/// A table file, held in memory.
pub struct SSTable {
    path: String,
    data: Vec<u8>,
    min_key: Vec<u8>,
    max_key: Vec<u8>,
    block_index: Vec<BlockIndexEntry>,
    index_type: IndexType,
    index: TableIndex,
    size: u64,
}

impl SSTable {
    pub closed spec fn spec_path(&self) -> Seq<char> {
        self.path@
    }

    /// The bytes of the table file.
    pub closed spec fn spec_data(&self) -> Seq<u8> {
        self.data@
    }

    pub closed spec fn spec_min_key(&self) -> Seq<u8> {
        self.min_key@
    }

    pub closed spec fn spec_max_key(&self) -> Seq<u8> {
        self.max_key@
    }

    pub closed spec fn spec_block_index(&self) -> Seq<IndexEntryView> {
        index_view(self.block_index@)
    }

    pub closed spec fn spec_index_type(&self) -> IndexType {
        self.index_type
    }

    pub closed spec fn spec_size(&self) -> u64 {
        self.size
    }

    /// The Bloom filter of the table, if it has one.
    pub closed spec fn spec_filter(&self) -> Option<BloomFilterIndex> {
        match self.index {
            TableIndex::Bloom(b) => Some(b),
            TableIndex::Learned(_) => None,
        }
    }

    /// The stored learned model of the table, if it has one.
    pub closed spec fn spec_learned(&self) -> Option<Seq<u8>> {
        match self.index {
            TableIndex::Bloom(_) => None,
            TableIndex::Learned(d) => Some(d@),
        }
    }

    /// A well-formed table has a filter exactly when its index type is a
    /// Bloom filter.
    pub proof fn lemma_filter_kind(&self)
        requires
            self.wf(),
        ensures
            self.spec_filter() is Some <==> self.spec_index_type() == IndexType::Bloom,
    {
    }

    /// A lookup of `key` can be answered: the key lies outside the table's
    /// key range, the table has no filter, or its filter can be queried for
    /// `key`.
    pub open spec fn lookup_ok(&self, key: Seq<u8>) -> bool {
        ||| lex_lt(key, self.spec_min_key())
        ||| lex_lt(self.spec_max_key(), key)
        ||| match self.spec_filter() {
            Some(b) => b.probe_ok(key),
            None => true,
        }
    }

    /// The table's index rules `key` out.
    pub open spec fn excludes(&self, key: Seq<u8>) -> bool {
        match self.spec_filter() {
            Some(b) => !b.holds(key),
            None => false,
        }
    }

    /// The table's parts are consistent.
    pub closed spec fn wf(&self) -> bool {
        &&& self.size as int == self.data@.len()
        &&& match self.index {
            TableIndex::Bloom(_) => self.index_type == IndexType::Bloom,
            TableIndex::Learned(_) => self.index_type == IndexType::Learned,
        }
    }

    /// Read a table from the bytes of its file.
    pub fn open(path: String, data: Vec<u8>) -> (r: Result<SSTable, DecodeError>)
        ensures
            match open_outcome(data@) {
                Err(e) => r == Err::<SSTable, DecodeError>(e),
                Ok(p) => r matches Ok(t) && opened_as(t, p) && t.spec_path() == path@ && t.spec_data()
                    == data@,
            },
    {
        let n = data.len();
        if n < 12 {
            return Err(DecodeError::TooSmall);
        }
        let magic = read_u32_le(data.as_slice(), n - 4);
        if magic != MAGIC {
            return Err(DecodeError::BadMagic);
        }
        let fsz = read_u32_le(data.as_slice(), n - 8) as usize;
        if fsz > n - 8 {
            return Err(DecodeError::Truncated);
        }
        let footer = match Footer::parse(slice_subrange(data.as_slice(), n - 8 - fsz, n - 8)) {
            Some(f) => f,
            None => return Err(DecodeError::Truncated),
        };
        let bio = footer.block_index_offset;
        let io = footer.index_offset;
        if !(bio <= io && io <= n as u64) {
            return Err(DecodeError::Truncated);
        }
        let block_index = match deserialize_block_index(
            slice_subrange(data.as_slice(), bio as usize, io as usize),
        ) {
            Ok(v) => v,
            Err(e) => return Err(e),
        };
        if footer.index_size > n as u64 - io {
            return Err(DecodeError::Truncated);
        }
        let idx_start = io as usize;
        let idx_end = idx_start + footer.index_size as usize;
        let index = match footer.index_type {
            IndexType::Bloom => {
                let d = slice_subrange(data.as_slice(), idx_start, idx_end);
                if d.len() >= 28 && read_u64_le(d, 20) > (isize::MAX as u64) / 8 {
                    return Err(DecodeError::BadIndex);
                }
                let b = BloomFilterIndex::deserialize(d);
                TableIndex::Bloom(b)
            },
            IndexType::Learned => TableIndex::Learned(copy_range(data.as_slice(), idx_start, idx_end)),
        };
        let size = n as u64;
        Ok(
            SSTable {
                path,
                data,
                min_key: footer.min_key,
                max_key: footer.max_key,
                block_index,
                index_type: footer.index_type,
                index,
                size,
            },
        )
    }

    /// The first block that may hold a version of `key`, found by a binary
    /// search of the first keys, or `None` when the table has no blocks.
    /// With first keys in order this is [`block_for`].
    pub fn find_block(&self, key: &[u8]) -> (r: Option<usize>)
        ensures
            self.spec_block_index().len() == 0 <==> r is None,
            r matches Some(i) ==> i < self.spec_block_index().len() && i as int == searched_block(
                self.spec_block_index(),
                key@,
            ),
            index_sorted(self.spec_block_index()) && r is Some ==> r->Some_0 as int == block_for(
                self.spec_block_index(),
                key@,
            ),
    {
        let ghost bi = self.spec_block_index();
        let n = self.block_index.len();
        if n == 0 {
            return None;
        }
        let mut lo: usize = 0;
        let mut hi: usize = n;
        while lo < hi
            invariant
                bi == self.spec_block_index(),
                n == bi.len(),
                lo <= hi <= n,
                index_search(bi, key@, lo as int, hi as int) == index_search(bi, key@, 0, n as int),
            decreases hi - lo,
        {
            let mid = lo + (hi - lo) / 2;
            assert(bi[mid as int] == self.block_index@[mid as int]@);
            if key_lt(self.block_index[mid].first_key.as_slice(), key) {
                lo = mid + 1;
            } else {
                hi = mid;
            }
        }
        proof {
            if index_sorted(bi) {
                lemma_searched_block_sorted(bi, key@);
            }
        }
        if lo == 0 {
            Some(0)
        } else {
            Some(lo - 1)
        }
    }

    /// Block `i` of the table, read from the table's bytes.
    fn read_block(&self, i: usize) -> (r: Result<Block, DecodeError>)
        requires
            i < self.spec_block_index().len(),
        ensures
            match read_block_at(self.spec_data(), self.spec_block_index(), i as int) {
                None => r == Err::<Block, DecodeError>(DecodeError::Truncated),
                Some(s) => r matches Ok(b) && b.items() == s && b.spec_first_key() == first_key_of(s),
            },
    {
        let e = &self.block_index[i];
        assert(self.spec_block_index()[i as int] == e@);
        let off = e.block_offset;
        let size = e.block_size;
        if off > self.data.len() as u64 || size > self.data.len() as u64 - off {
            return Err(DecodeError::Truncated);
        }
        let bytes = slice_subrange(self.data.as_slice(), off as usize, (off + size) as usize);
        match Block::deserialize(bytes) {
            Ok(mut b) => {
                b.set_position(off, size);
                Ok(b)
            },
            Err(err) => Err(err),
        }
    }

    /// Look `key` up: not found when it lies outside the table's key range
    /// or the filter rules it out; otherwise the newest version found in the
    /// blocks from the first one that may hold it, up to the first block
    /// whose first key is above `key`.
    pub fn get(&self, key: &[u8]) -> (r: Result<LookupResult, DecodeError>)
        requires
            self.wf(),
            self.lookup_ok(key@),
        ensures
            get_answers(*self, key@, r),
    {
        proof {
            lemma_lex_lt_total(key@, self.spec_min_key());
            lemma_lex_lt_total(key@, self.spec_max_key());
            lemma_lex_order(key@, self.spec_min_key(), self.spec_max_key());
            lemma_lex_order(self.spec_max_key(), key@, self.spec_min_key());
        }
        if key_lt(key, self.min_key.as_slice()) || key_lt(self.max_key.as_slice(), key) {
            return Ok(LookupResult::NotFound);
        }
        match &self.index {
            TableIndex::Bloom(b) => {
                assert(self.spec_filter() == Some(*b));
                if !b.might_contain(key) {
                    return Ok(LookupResult::NotFound);
                }
            },
            TableIndex::Learned(_) => {},
        }
        let first = match self.find_block(key) {
            None => return Ok(LookupResult::NotFound),
            Some(i) => i,
        };
        let ghost data = self.spec_data();
        let ghost bi = self.spec_block_index();
        let n = self.block_index.len();
        let mut i: usize = first;
        let mut best: Option<Entry> = None;
        let mut go = true;
        while go
            invariant
                data == self.spec_data(),
                bi == self.spec_block_index(),
                n == bi.len(),
                first <= i <= n,
                first as int == searched_block(bi, key@),
                !lex_lt(key@, self.spec_min_key()) && !lex_lt(self.spec_max_key(), key@),
                !self.excludes(key@),
                !go ==> lookup_blocks(data, bi, i as int, key@) == Some(None::<EntryView>),
                match lookup_blocks(data, bi, i as int, key@) {
                    Some(rest) => lookup_blocks(data, bi, first as int, key@) == Some(
                        newer_of(opt_entry_view(best), rest),
                    ),
                    None => lookup_blocks(data, bi, first as int, key@) is None,
                },
            decreases n - i + (if go {
                1int
            } else {
                0int
            }),
        {
            if i >= n {
                go = false;
            } else if key_lt(key, self.block_index[i].first_key.as_slice()) {
                assert(bi[i as int] == self.block_index@[i as int]@);
                go = false;
            } else {
                assert(bi[i as int] == self.block_index@[i as int]@);
                let block = match self.read_block(i) {
                    Ok(b) => b,
                    Err(e) => {
                        assert(lookup_blocks(data, bi, i as int, key@) is None);
                        return Err(e);
                    },
                };
                let ghost before = opt_entry_view(best);
                match block.get(key) {
                    Some(e) => {
                        let newer = match &best {
                            Some(b) => e.sequence > b.sequence,
                            None => true,
                        };
                        if newer {
                            best = Some(e.duplicate());
                        }
                    },
                    None => {},
                }
                proof {
                    let found = block_lookup(block.items(), key@);
                    assert(opt_entry_view(best) == newer_of(before, found));
                    match lookup_blocks(data, bi, i + 1, key@) {
                        Some(rest) => {
                            assert(newer_of(before, newer_of(found, rest)) == newer_of(
                                newer_of(before, found),
                                rest,
                            ));
                        },
                        None => {},
                    }
                }
                i = i + 1;
            }
        }
        proof {
            assert(newer_of(opt_entry_view(best), None) == opt_entry_view(best));
        }
        match best {
            None => Ok(LookupResult::NotFound),
            Some(e) => match e.value {
                Some(v) => Ok(LookupResult::Found(v)),
                None => Ok(LookupResult::Tombstone),
            },
        }
    }

    /// Look `key` up as [`SSTable::get`] does, or `None` when the lookup
    /// cannot be answered: `key` lies in the table's key range and the
    /// filter cannot be queried for it.
    pub fn try_get(&self, key: &[u8]) -> (r: Option<Result<LookupResult, DecodeError>>)
        requires
            self.wf(),
        ensures
            r is None <==> !self.lookup_ok(key@),
            r matches Some(a) ==> get_answers(*self, key@, a),
    {
        if key_lt(key, self.min_key.as_slice()) || key_lt(self.max_key.as_slice(), key) {
            return Some(self.get(key));
        }
        match &self.index {
            TableIndex::Bloom(b) => {
                assert(self.spec_filter() == Some(*b));
                if b.might_contain_checked(key).is_none() {
                    return None;
                }
            },
            TableIndex::Learned(_) => {},
        }
        Some(self.get(key))
    }

    /// The entries of the blocks from the first one that may hold `start` on,
    /// stopping before the first block whose first key is above `end`, each
    /// block contributing its entries with keys in `[start, end]`.
    pub fn scan(&self, start: &[u8], end: &[u8]) -> (r: Result<Vec<Entry>, DecodeError>)
        ensures
            scan_answers(*self, start@, end@, r),
    {
        let ghost data = self.spec_data();
        let ghost bi = self.spec_block_index();
        let n = self.block_index.len();
        let first = match self.find_block(start) {
            Some(b) => b,
            None => 0,
        };
        let ghost from = first as int;
        let mut i: usize = first;
        let mut results: Vec<Entry> = Vec::new();
        let mut done = false;
        while i < n && !done
            invariant
                data == self.spec_data(),
                bi == self.spec_block_index(),
                n == bi.len(),
                from == (if n == 0 {
                    0
                } else {
                    searched_block(bi, start@)
                }),
                from <= i,
                i <= n || (n == 0 && i == 0),
                done ==> scan_blocks(data, bi, from, start@, end@) == Some(entries_view(results@)),
                !done ==> match scan_blocks(data, bi, i as int, start@, end@) {
                    Some(rest) => scan_blocks(data, bi, from, start@, end@) == Some(
                        entries_view(results@) + rest,
                    ),
                    None => scan_blocks(data, bi, from, start@, end@) is None,
                },
            decreases n - i + (if done {
                0int
            } else {
                1int
            }),
        {
            let block = match self.read_block(i) {
                Ok(b) => b,
                Err(e) => {
                    assert(scan_blocks(data, bi, i as int, start@, end@) is None);
                    return Err(e);
                },
            };
            if key_lt(end, block.first_key()) {
                done = true;
                assert(entries_view(results@) + Seq::<EntryView>::empty() =~= entries_view(results@));
            } else {
                let mut part = block.scan(start, end);
                let ghost before = results@;
                let ghost p = part@;
                results.append(&mut part);
                assert(entries_view(results@) =~= entries_view(before) + entries_view(p));
                proof {
                    let s = block.items();
                    match scan_blocks(data, bi, i + 1, start@, end@) {
                        Some(rest) => {
                            assert(entries_view(before) + (block_scan(s, start@, end@) + rest)
                                =~= entries_view(results@) + rest);
                        },
                        None => {},
                    }
                }
                i = i + 1;
            }
        }
        proof {
            if !done {
                assert(entries_view(results@) + Seq::<EntryView>::empty() =~= entries_view(results@));
            }
        }
        Ok(results)
    }

    pub fn min_key(&self) -> (r: &[u8])
        ensures
            r@ == self.spec_min_key(),
    {
        self.min_key.as_slice()
    }

    pub fn max_key(&self) -> (r: &[u8])
        ensures
            r@ == self.spec_max_key(),
    {
        self.max_key.as_slice()
    }

    /// The size of the table file in bytes.
    pub fn size_bytes(&self) -> (r: u64)
        ensures
            r == self.spec_size(),
    {
        self.size
    }

    pub fn path(&self) -> (r: &str)
        ensures
            r@ == self.spec_path(),
    {
        self.path.as_str()
    }

    pub fn index_type(&self) -> (r: IndexType)
        ensures
            r == self.spec_index_type(),
    {
        self.index_type
    }

    /// Whether the table is consistent: its size is that of its bytes, and
    /// its index is of its index type.
    pub fn check(&self) -> (r: bool)
        ensures
            r == self.wf(),
    {
        let filter_ok = match &self.index {
            TableIndex::Bloom(_) => self.index_type == IndexType::Bloom,
            TableIndex::Learned(_) => self.index_type == IndexType::Learned,
        };
        self.size == self.data.len() as u64 && filter_ok
    }

    /// The bytes of the table file.
    pub fn data(&self) -> (r: &[u8])
        ensures
            r@ == self.spec_data(),
    {
        self.data.as_slice()
    }

    /// The id carried by the table's file name: the number after the last
    /// `_` of the file stem (`7` for `sst_0_7.dat`), or 0 if there is none.
    pub fn id(&self) -> (r: u64)
        ensures
            r == id_of_path(self.spec_path()),
    {
        match file_stem(self.path.as_str()) {
            None => 0,
            Some(stem) => id_of_stem(stem.as_str()),
        }
    }
}


/// The bytes an entry takes in a block.
pub open spec fn record_size(e: EntryView) -> int {
    4 + e.key.len() + 1 + match e.value {
        Some(v) => 4 + v.len() as int,
        None => 0int,
    } + 8
}

/// Blocks filled greedily from `s`: the closed blocks, the open block and
/// its size. An entry closes the open block first when the block is not
/// empty and the entry would take it over `limit` bytes.
pub open spec fn pack(s: Seq<EntryView>, limit: int) -> (Seq<Seq<EntryView>>, Seq<EntryView>, int)
    decreases s.len(),
{
    if s.len() == 0 {
        (Seq::empty(), Seq::empty(), 0)
    } else {
        let (done, cur, size) = pack(s.drop_last(), limit);
        let e = s.last();
        if size + record_size(e) > limit && cur.len() > 0 {
            (done.push(cur), seq![e], record_size(e))
        } else {
            (done, cur.push(e), size + record_size(e))
        }
    }
}

/// The blocks a table of `s` is cut into.
pub open spec fn layout_blocks(s: Seq<EntryView>, limit: int) -> Seq<Seq<EntryView>> {
    let (done, cur, _) = pack(s, limit);
    if cur.len() > 0 {
        done.push(cur)
    } else {
        done
    }
}

/// The stored blocks, one after the other.
pub open spec fn blocks_data(b: Seq<Seq<EntryView>>) -> Seq<u8>
    decreases b.len(),
{
    if b.len() == 0 {
        Seq::empty()
    } else {
        blocks_data(b.drop_last()) + crate::engine::block::encode_block(b.last())
    }
}

/// The block index of stored blocks.
pub open spec fn block_index_of(b: Seq<Seq<EntryView>>) -> Seq<IndexEntryView>
    decreases b.len(),
{
    if b.len() == 0 {
        Seq::empty()
    } else {
        block_index_of(b.drop_last()).push(
            IndexEntryView {
                first_key: first_key_of(b.last()),
                block_offset: blocks_data(b.drop_last()).len() as u64,
                block_size: crate::engine::block::encode_block(b.last()).len() as u64,
            },
        )
    }
}

/// The footer of a table whose blocks take `data_len` bytes, whose block
/// index takes `bi_len` bytes and whose index takes `index_len` bytes.
pub open spec fn table_footer(
    index_type: IndexType,
    min_key: Seq<u8>,
    max_key: Seq<u8>,
    data_len: int,
    bi_len: int,
    index_len: int,
) -> FooterView {
    FooterView {
        version: VERSION,
        index_type,
        min_key,
        max_key,
        block_index_offset: data_len as u64,
        index_offset: (data_len + bi_len) as u64,
        index_size: index_len as u64,
    }
}

/// The file of a table with these blocks, index bytes and key range.
pub open spec fn table_image(
    blocks: Seq<Seq<EntryView>>,
    index_type: IndexType,
    index_bytes: Seq<u8>,
    min_key: Seq<u8>,
    max_key: Seq<u8>,
) -> Seq<u8> {
    let data = blocks_data(blocks);
    let bi = encode_block_index(block_index_of(blocks));
    let f = encode_footer(
        table_footer(index_type, min_key, max_key, data.len() as int, bi.len() as int, index_bytes.len() as int),
    );
    data + bi + index_bytes + f + spec_u32_to_le_bytes(f.len() as u32) + spec_u32_to_le_bytes(MAGIC)
}

/// The filter `b` is the Bloom filter of the keys of `s` at
/// `bits_per_element` bits per key.
pub open spec fn filter_of(b: BloomFilterIndex, s: Seq<EntryView>, bits_per_element: usize) -> bool {
    &&& b.shape_ok()
    &&& b.spec_num_bits() == crate::index::bloom::bits_for(s.len() as usize, bits_per_element)
    &&& b.spec_num_hashes() == crate::index::bloom::hashes_for(bits_per_element)
    &&& b.spec_num_inserted() == s.len()
    &&& b.words().len() == (b.spec_num_bits() + 63) / 64
    &&& forall|i: int| 0 <= i < s.len() ==> b.holds(#[trigger] s[i].key)
    &&& forall|p: int|
        0 <= p < b.spec_num_bits() && #[trigger] b.bit_is_set(p) ==> exists|i: int, h: int|
            0 <= i < s.len() && 0 <= h < b.spec_num_hashes() && p
                == crate::index::bloom::bit_position(s[i].key, h, b.spec_num_bits())
    &&& forall|p: int| b.spec_num_bits() <= p < b.words().len() * 64 ==> !#[trigger] b.bit_is_set(p)
}

/// The training pairs of a learned index of a table cut into `blocks` with
/// index `bi`: for each entry in order, its key with the offset of the
/// block that holds it.
pub open spec fn learned_pairs(blocks: Seq<Seq<EntryView>>, bi: Seq<IndexEntryView>) -> Seq<(Seq<u8>, usize)>
    decreases blocks.len(),
{
    if blocks.len() == 0 {
        Seq::empty()
    } else {
        learned_pairs(blocks.drop_last(), bi) + block_pairs(blocks.last(), bi[blocks.len() - 1])
    }
}

/// The pairs of the entries of one block.
pub open spec fn block_pairs(b: Seq<EntryView>, ie: IndexEntryView) -> Seq<(Seq<u8>, usize)> {
    b.map_values(|e: EntryView| (e.key, ie.block_offset as usize))
}

/// The views of training pairs.
pub open spec fn pairs_view(v: Seq<(Vec<u8>, usize)>) -> Seq<(Seq<u8>, usize)> {
    v.map_values(|p: (Vec<u8>, usize)| (p.0@, p.1))
}

/// The pairs hold one key per entry of the blocks, in order.
pub proof fn lemma_learned_pairs_keys(blocks: Seq<Seq<EntryView>>, bi: Seq<IndexEntryView>)
    requires
        bi.len() >= blocks.len(),
    ensures
        learned_pairs(blocks, bi).len() == crate::engine::table_laws::flatten(blocks).len(),
        forall|i: int|
            0 <= i < learned_pairs(blocks, bi).len() ==> (#[trigger] learned_pairs(blocks, bi)[i]).0
                == crate::engine::table_laws::flatten(blocks)[i].key,
    decreases blocks.len(),
{
    if blocks.len() > 0 {
        lemma_learned_pairs_keys(blocks.drop_last(), bi);
        let pre = learned_pairs(blocks.drop_last(), bi);
        let f0 = crate::engine::table_laws::flatten(blocks.drop_last());
        let bp = block_pairs(blocks.last(), bi[blocks.len() - 1]);
        assert forall|i: int| 0 <= i < learned_pairs(blocks, bi).len() implies (#[trigger] learned_pairs(
            blocks,
            bi,
        )[i]).0 == crate::engine::table_laws::flatten(blocks)[i].key by {
            if i >= pre.len() {
                assert(learned_pairs(blocks, bi)[i] == bp[i - pre.len()]);
            } else {
                assert(learned_pairs(blocks, bi)[i] == pre[i]);
            }
        }
    }
}

/// Why a table could not be built.
#[derive(Debug, Clone, Copy, PartialEq, Eq, Structural)]
pub enum BuildError {
    /// There were no entries to write.
    Empty,
    /// The written table could not be read back.
    Decode(DecodeError),
}

/// A freshly built table, with the key range it covers.
pub struct SSTableBuildResult {
    pub sst: SSTable,
    pub min_key: Vec<u8>,
    pub max_key: Vec<u8>,
    pub size_bytes: u64,
}

/// Builds tables from entries in key order.
pub struct SSTableBuilder {
    path: String,
    block_size: usize,
    index_type: IndexType,
    bloom_bits_per_element: usize,
}

/// The bytes of `e` in a block.
fn record_len(e: &Entry) -> (r: u128)
    ensures
        r == record_size(e@),
        r <= 2 * usize::MAX + 17,
{
    let v: u128 = match &e.value {
        Some(v) => 4 + v.len() as u128,
        None => 0,
    };
    4 + e.key.len() as u128 + 1 + v + 8
}

/// Close a block: append its stored form to `buf` and its index entry to
/// `index`.
fn flush_block(buf: &mut Vec<u8>, index: &mut Vec<BlockIndexEntry>, entries: Vec<Entry>)
    ensures
        final(buf)@ == old(buf)@ + crate::engine::block::encode_block(entries_view(entries@)),
        index_view(final(index)@) == index_view(old(index)@).push(
            IndexEntryView {
                first_key: first_key_of(entries_view(entries@)),
                block_offset: old(buf)@.len() as u64,
                block_size: crate::engine::block::encode_block(entries_view(entries@)).len() as u64,
            },
        ),
{
    let offset = buf.len() as u64;
    assert(entries@.len() > 0 ==> entries_view(entries@)[0] == entries@[0]@);
    let block = Block::new(entries, offset, 0);
    let mut data = block.serialize();
    let size = data.len() as u64;
    let fk = block.first_key();
    let first_key = copy_range(fk, 0, fk.len());
    assert(first_key@ =~= first_key_of(entries_view(entries@)));
    let ghost pre = index_view(index@);
    index.push(BlockIndexEntry { first_key, block_offset: offset, block_size: size });
    assert(index_view(index@) =~= pre.push(index@.last()@));
    buf.append(&mut data);
}

impl SSTableBuilder {
    pub closed spec fn spec_path(&self) -> Seq<char> {
        self.path@
    }

    pub closed spec fn spec_block_size(&self) -> usize {
        self.block_size
    }

    pub closed spec fn spec_index_type(&self) -> IndexType {
        self.index_type
    }

    pub closed spec fn spec_bits_per_element(&self) -> usize {
        self.bloom_bits_per_element
    }

    /// A builder writing tables to `path` with blocks of about `block_size`
    /// bytes and the given index.
    pub fn new(path: String, block_size: usize, index_type: IndexType, bloom_bits_per_element: usize) -> (r: SSTableBuilder)
        ensures
            r.spec_path() == path@,
            r.spec_block_size() == block_size,
            r.spec_index_type() == index_type,
            r.spec_bits_per_element() == bloom_bits_per_element,
    {
        SSTableBuilder { path, block_size, index_type, bloom_bits_per_element }
    }

    /// Cut `entries` into blocks: their stored form, their index and the
    /// number of entries in each.
    fn layout(&self, entries: &[Entry]) -> (r: (Vec<u8>, Vec<BlockIndexEntry>, Vec<usize>))
        ensures
            r.0@ == blocks_data(layout_blocks(entries_view(entries@), self.spec_block_size() as int)),
            index_view(r.1@) == block_index_of(
                layout_blocks(entries_view(entries@), self.spec_block_size() as int),
            ),
            r.2@.len() == layout_blocks(entries_view(entries@), self.spec_block_size() as int).len(),
            forall|j: int|
                0 <= j < r.2@.len() ==> r.2@[j] == #[trigger] layout_blocks(
                    entries_view(entries@),
                    self.spec_block_size() as int,
                )[j].len(),
    {
        let ghost s = entries_view(entries@);
        let ghost limit = self.block_size as int;
        let mut buf: Vec<u8> = Vec::new();
        let mut index: Vec<BlockIndexEntry> = Vec::new();
        let mut counts: Vec<usize> = Vec::new();
        let mut current: Vec<Entry> = Vec::new();
        let mut current_size: u128 = 0;
        let mut i: usize = 0;
        assert(s.subrange(0, 0) =~= Seq::<EntryView>::empty());
        while i < entries.len()
            invariant
                s == entries_view(entries@),
                limit == self.block_size,
                i <= entries@.len(),
                ({
                    let (done, cur, size) = pack(s.subrange(0, i as int), limit);
                    &&& buf@ == blocks_data(done)
                    &&& index_view(index@) == block_index_of(done)
                    &&& entries_view(current@) == cur
                    &&& current_size == size
                    &&& counts@.len() == done.len()
                    &&& forall|j: int| 0 <= j < done.len() ==> counts@[j] == #[trigger] done[j].len()
                }),
                current@.len() > 1 ==> current_size <= limit,
                current@.len() == 1 ==> current_size <= 2 * usize::MAX + 17,
                current@.len() == 0 ==> current_size == 0,
            decreases entries.len() - i,
        {
            let e = &entries[i];
            let es = record_len(e);
            proof {
                assert(s.subrange(0, i + 1).drop_last() =~= s.subrange(0, i as int));
                assert(s.subrange(0, i + 1).last() == e@);
            }
            if current_size + es > self.block_size as u128 && current.len() > 0 {
                counts.push(current.len());
                let mut full: Vec<Entry> = Vec::new();
                std::mem::swap(&mut full, &mut current);
                let ghost bd = buf@;
                let ghost bx = index_view(index@);
                flush_block(&mut buf, &mut index, full);
                proof {
                    let (done, cur, size) = pack(s.subrange(0, i as int), limit);
                    assert(done.push(cur).drop_last() =~= done);
                    assert(buf@ == blocks_data(done.push(cur)));
                }
                current_size = 0;
            }
            let ghost cv = entries_view(current@);
            current.push(e.duplicate());
            assert(entries_view(current@) =~= cv.push(e@));
            current_size = current_size + es;
            i = i + 1;
        }
        assert(s.subrange(0, entries@.len() as int) =~= s);
        if current.len() > 0 {
            let ghost pre = buf@;
            counts.push(current.len());
            flush_block(&mut buf, &mut index, current);
            proof {
                let (done, cur, size) = pack(s, limit);
                assert(done.push(cur).drop_last() =~= done);
            }
        }
        (buf, index, counts)
    }

    /// The Bloom filter of the keys of `entries`.
    fn filter_for(&self, entries: &[Entry]) -> (r: BloomFilterIndex)
        ensures
            filter_of(r, entries_view(entries@), self.spec_bits_per_element()),
    {
        let ghost s = entries_view(entries@);
        let mut b = BloomFilterIndex::new(entries.len(), self.bloom_bits_per_element);
        let mut i: usize = 0;
        while i < entries.len()
            invariant
                s == entries_view(entries@),
                i <= entries@.len(),
                b.shape_ok(),
                b.spec_num_bits() == crate::index::bloom::bits_for(s.len() as usize, self.spec_bits_per_element()),
                b.spec_num_hashes() == crate::index::bloom::hashes_for(self.spec_bits_per_element()),
                b.spec_num_inserted() == i,
                b.words().len() == (b.spec_num_bits() + 63) / 64,
                forall|t: int| 0 <= t < i ==> b.holds(#[trigger] s[t].key),
                forall|p: int|
                    0 <= p < b.spec_num_bits() && #[trigger] b.bit_is_set(p) ==> exists|t: int, h: int|
                        0 <= t < i && 0 <= h < b.spec_num_hashes() && p
                            == crate::index::bloom::bit_position(s[t].key, h, b.spec_num_bits()),
                forall|p: int| b.spec_num_bits() <= p < b.words().len() * 64 ==> !#[trigger] b.bit_is_set(p),
            decreases entries.len() - i,
        {
            let ghost pre = b;
            assert(s[i as int] == entries@[i as int]@);
            b.insert(entries[i].key.as_slice());
            proof {
                assert forall|p: int|
                    0 <= p < b.spec_num_bits() && #[trigger] b.bit_is_set(p) implies exists|t: int, h: int|
                        0 <= t < i + 1 && 0 <= h < b.spec_num_hashes() && p
                            == crate::index::bloom::bit_position(s[t].key, h, b.spec_num_bits()) by {
                    if pre.bit_is_set(p) {
                        let (t, h) = choose|t: int, h: int|
                            0 <= t < i && 0 <= h < pre.spec_num_hashes() && p
                                == crate::index::bloom::bit_position(s[t].key, h, pre.spec_num_bits());
                        assert(0 <= t < i + 1 && 0 <= h < b.spec_num_hashes() && p
                            == crate::index::bloom::bit_position(s[t].key, h, b.spec_num_bits()));
                    } else {
                        let h = choose|h: int|
                            0 <= h < pre.spec_num_hashes() && p == crate::index::bloom::bit_position(
                                entries@[i as int].key@,
                                h,
                                pre.spec_num_bits(),
                            );
                        assert(0 <= i < i + 1 && 0 <= h < b.spec_num_hashes() && p
                            == crate::index::bloom::bit_position(s[i as int].key, h, b.spec_num_bits()));
                    }
                }
            }
            i = i + 1;
        }
        b
    }

    /// The pairs a learned index of a table of `entries` is trained on: for
    /// each entry, in order, its key with the offset of the block that
    /// holds it.
    pub fn learned_training_pairs(&self, entries: &[Entry]) -> (r: Vec<(Vec<u8>, usize)>)
        ensures
            pairs_view(r@) == learned_pairs(
                layout_blocks(entries_view(entries@), self.spec_block_size() as int),
                block_index_of(layout_blocks(entries_view(entries@), self.spec_block_size() as int)),
            ),
            r@.len() == entries@.len(),
            forall|i: int| 0 <= i < r@.len() ==> (#[trigger] r@[i]).0@ == entries@[i].key@,
    {
        let ghost s = entries_view(entries@);
        let ghost blocks = layout_blocks(s, self.block_size as int);
        let (_, index, counts) = self.layout(entries);
        let ghost bi = index_view(index@);
        proof {
            crate::engine::table_laws::lemma_layout(s, self.block_size as int);
            crate::engine::table_laws::lemma_block_index_of(blocks);
        }
        let mut pairs: Vec<(Vec<u8>, usize)> = Vec::new();
        let mut pos: usize = 0;
        let mut j: usize = 0;
        assert(blocks.subrange(0, 0) =~= Seq::<Seq<EntryView>>::empty());
        while j < counts.len()
            invariant
                s == entries_view(entries@),
                blocks == layout_blocks(s, self.block_size as int),
                crate::engine::table_laws::flatten(blocks) == s,
                bi == index_view(index@),
                bi == block_index_of(blocks),
                bi.len() == blocks.len(),
                counts@.len() == blocks.len(),
                forall|t: int| 0 <= t < counts@.len() ==> counts@[t] == #[trigger] blocks[t].len(),
                j <= blocks.len(),
                pos == crate::engine::table_laws::block_start(blocks, j as int),
                pairs_view(pairs@) == learned_pairs(blocks.subrange(0, j as int), bi),
            decreases counts.len() - j,
        {
            proof {
                crate::engine::table_laws::lemma_block_in_flatten(blocks, j as int);
            }
            let ghost start = pos as int;
            let ghost before = pairs_view(pairs@);
            let n = counts[j];
            let off = index[j].block_offset as usize;
            assert(bi[j as int] == index@[j as int]@);
            let mut t: usize = 0;
            while t < n
                invariant
                    s == entries_view(entries@),
                    0 <= j < blocks.len(),
                    0 <= start,
                    n == blocks[j as int].len(),
                    start + n <= s.len(),
                    s.subrange(start, start + n) == blocks[j as int],
                    t <= n,
                    pos == start + t,
                    off == bi[j as int].block_offset as usize,
                    pairs_view(pairs@) == before + block_pairs(blocks[j as int].subrange(0, t as int), bi[j as int]),
                decreases n - t,
            {
                assert(s[pos as int] == entries@[pos as int]@);
                assert(blocks[j as int][t as int] == s.subrange(start, start + n)[t as int]);
                let ghost pv = pairs_view(pairs@);
                let k = crate::copy_bytes(&entries[pos].key);
                assert(s.subrange(start, start + n)[t as int] == s[start + t]);
                assert(k@ == blocks[j as int][t as int].key);
                pairs.push((k, off));
                assert(pairs_view(pairs@) =~= pv.push((k@, off)));
                assert(pv.push((k@, off)) =~= before + block_pairs(blocks[j as int].subrange(0, t + 1), bi[j as int]));
                assert(block_pairs(blocks[j as int].subrange(0, t + 1), bi[j as int]) =~= block_pairs(
                    blocks[j as int].subrange(0, t as int),
                    bi[j as int],
                ).push((blocks[j as int][t as int].key, bi[j as int].block_offset as usize)));
                t = t + 1;
                pos = pos + 1;
                assert(pairs_view(pairs@) =~= before + block_pairs(blocks[j as int].subrange(0, t as int), bi[j as int]));
            }
            assert(blocks[j as int].subrange(0, n as int) =~= blocks[j as int]);
            assert(blocks.subrange(0, j + 1).drop_last() =~= blocks.subrange(0, j as int));
            j = j + 1;
        }
        assert(blocks.subrange(0, blocks.len() as int) =~= blocks);
        proof {
            lemma_learned_pairs_keys(blocks, bi);
            assert(pairs@.len() == pairs_view(pairs@).len());
            assert forall|i: int| 0 <= i < pairs@.len() implies (#[trigger] pairs@[i]).0@ == entries@[i].key@ by {
                assert(pairs_view(pairs@)[i] == (pairs@[i].0@, pairs@[i].1));
                assert(s[i] == entries@[i]@);
            }
        }
        pairs
    }

    /// Build a table of `entries` (in key order): its blocks, block index,
    /// index (a Bloom filter of the keys, or the given stored learned
    /// model) and footer, read back as a table.
    pub fn build_from_entries(&self, entries: &[Entry], learned_index: &[u8]) -> (r: Result<
        SSTableBuildResult,
        BuildError,
    >)
        ensures
            build_answers(
                self.spec_path(),
                self.spec_block_size(),
                self.spec_index_type(),
                self.spec_bits_per_element(),
                entries_view(entries@),
                learned_index@,
                r,
            ),
    {
        if entries.len() == 0 {
            return Err(BuildError::Empty);
        }
        let ghost s = entries_view(entries@);
        let (mut data, index, _) = self.layout(entries);
        let ghost blocks = layout_blocks(s, self.block_size as int);
        let bio = data.len() as u64;
        let mut bi_bytes = serialize_block_index(index.as_slice());
        data.append(&mut bi_bytes);
        let io = data.len() as u64;
        let ghost filter: BloomFilterIndex;
        let mut idx_bytes = match self.index_type {
            IndexType::Bloom => {
                let b = self.filter_for(entries);
                proof {
                    filter = b;
                }
                b.serialize()
            },
            IndexType::Learned => copy_range(learned_index, 0, learned_index.len()),
        };
        let ghost ib = idx_bytes@;
        let isz = idx_bytes.len() as u64;
        data.append(&mut idx_bytes);
        assert(s[0] == entries@[0]@);
        assert(s.last() == entries@[entries@.len() - 1]@);
        let min_key = crate::copy_bytes(&entries[0].key);
        let max_key = crate::copy_bytes(&entries[entries.len() - 1].key);
        let footer = Footer {
            version: VERSION,
            index_type: self.index_type,
            min_key: crate::copy_bytes(&min_key),
            max_key: crate::copy_bytes(&max_key),
            block_index_offset: bio,
            index_offset: io,
            index_size: isz,
        };
        let mut fb = footer.serialize();
        let flen = fb.len() as u32;
        data.append(&mut fb);
        push_u32_le(&mut data, flen);
        push_u32_le(&mut data, MAGIC);
        let ghost image = data@;
        proof {
            let d = blocks_data(blocks);
            let bi = encode_block_index(block_index_of(blocks));
            assert(footer@ == table_footer(
                self.index_type,
                s[0].key,
                s.last().key,
                d.len() as int,
                bi.len() as int,
                ib.len() as int,
            ));
            assert(image =~= table_image(blocks, self.index_type, ib, s[0].key, s.last().key));
            if self.index_type == IndexType::Bloom {
                assert(filter_of(filter, s, self.bloom_bits_per_element) && ib == encode_bloom_of(filter));
            } else {
                assert(ib =~= learned_index@);
            }
            assert(self.is_image(image, s, learned_index@));
        }
        let size_bytes = data.len() as u64;
        proof {
            if crate::engine::table_laws::table_fits(s) {
                crate::engine::table_laws::lemma_built_table_opens(
                    image,
                    s,
                    self.block_size,
                    self.index_type,
                    self.bloom_bits_per_element,
                    learned_index@,
                );
            }
        }
        let path = self.path.clone();
        match SSTable::open(path, data) {
            Ok(sst) => Ok(SSTableBuildResult { sst, min_key, max_key, size_bytes }),
            Err(e) => Err(BuildError::Decode(e)),
        }
    }

    /// `data` is a table file of `s` built by this builder (with the given
    /// stored learned model when the builder makes learned indexes).
    pub open spec fn is_image(&self, data: Seq<u8>, s: Seq<EntryView>, learned: Seq<u8>) -> bool {
        table_file_of(
            data,
            s,
            self.spec_block_size(),
            self.spec_index_type(),
            self.spec_bits_per_element(),
            learned,
        )
    }
}

/// `data` is the table file of `s` with blocks of about `block_size` bytes
/// and an index of type `index_type`: a Bloom filter of the keys of `s` at
/// `bits_per_element` bits per key, or the stored learned model `learned`.
pub open spec fn table_file_of(
    data: Seq<u8>,
    s: Seq<EntryView>,
    block_size: usize,
    index_type: IndexType,
    bits_per_element: usize,
    learned: Seq<u8>,
) -> bool {
    let blocks = layout_blocks(s, block_size as int);
    let lo = s[0].key;
    let hi = s.last().key;
    match index_type {
        IndexType::Learned => data == table_image(blocks, IndexType::Learned, learned, lo, hi),
        IndexType::Bloom => exists|b: BloomFilterIndex|
            #![trigger filter_of(b, s, bits_per_element)]
            filter_of(b, s, bits_per_element) && data == table_image(
                blocks,
                IndexType::Bloom,
                encode_bloom_of(b),
                lo,
                hi,
            ),
    }
}

/// `r` is what building a table of `s` at `path`, with blocks of about
/// `block_size` bytes and an index of type `index_type`, gives: an error
/// exactly when there are no entries; for entries that fit, a table; and a
/// table is the file of `s`, read back, with the key range of `s`.
pub open spec fn build_answers(
    path: Seq<char>,
    block_size: usize,
    index_type: IndexType,
    bits_per_element: usize,
    s: Seq<EntryView>,
    learned: Seq<u8>,
    r: Result<SSTableBuildResult, BuildError>,
) -> bool {
    &&& s.len() == 0 <==> r == Err::<SSTableBuildResult, BuildError>(BuildError::Empty)
    &&& crate::engine::table_laws::table_fits(s) ==> r is Ok
    &&& s.len() > 0 ==> match r {
        Ok(res) => {
            &&& table_file_of(res.sst.spec_data(), s, block_size, index_type, bits_per_element, learned)
            &&& open_outcome(res.sst.spec_data()) matches Ok(p) && opened_as(res.sst, p)
            &&& res.sst.spec_path() == path
            &&& res.min_key@ == s[0].key
            &&& res.max_key@ == s.last().key
            &&& res.size_bytes == res.sst.spec_data().len()
        },
        Err(e) => exists|data: Seq<u8>|
            table_file_of(data, s, block_size, index_type, bits_per_element, learned) && (e matches BuildError::Decode(
                d,
            ) && open_outcome(data) == Err::<TableParts, DecodeError>(d)),
    }
}

/// The stored form of a filter.
pub open spec fn encode_bloom_of(b: BloomFilterIndex) -> Seq<u8> {
    crate::index::bloom::encode_bloom(b.spec_num_bits(), b.spec_num_hashes(), b.spec_num_inserted(), b.words())
}

/// `t` is the table that opening a file with parts `p` gives.
pub open spec fn opened_as(t: SSTable, p: TableParts) -> bool {
    &&& t.wf()
    &&& t.spec_size() == t.spec_data().len()
    &&& t.spec_min_key() == p.footer.min_key
    &&& t.spec_max_key() == p.footer.max_key
    &&& t.spec_block_index() == p.block_index
    &&& t.spec_index_type() == p.footer.index_type
    &&& (p.footer.index_type == IndexType::Bloom ==> (t.spec_filter() matches Some(b) && loaded_from(
        b,
        p.index_data,
    )))
    &&& (p.footer.index_type == IndexType::Learned ==> t.spec_learned() == Some(p.index_data))
}


/// std's `Path::file_stem` on a path given as text: the final component of
/// the path without its extension, if the path has a final component. What
/// it returns depends on the path alone.
pub uninterp spec fn file_stem_of(path: Seq<char>) -> Option<Seq<char>>;

/// std's `Path::file_stem`, read as text (the stem of a path given as text
/// is text).
#[verifier::external_body]
fn file_stem(path: &str) -> (r: Option<String>)
    ensures
        match r {
            Some(s) => file_stem_of(path@) == Some(s@),
            None => file_stem_of(path@) is None,
        },
{
    std::path::Path::new(path).file_stem().and_then(|s| s.to_str()).map(|s| s.to_string())
}

/// The value of a run of ASCII decimal digits.
pub open spec fn decimal_value(d: Seq<u8>) -> nat
    decreases d.len(),
{
    if d.len() == 0 {
        0
    } else {
        decimal_value(d.drop_last()) * 10 + (d.last() - 48) as nat
    }
}

pub open spec fn is_digit(b: u8) -> bool {
    48 <= b <= 57
}

/// The digits of `text` after an optional leading `+`.
pub open spec fn unsigned_digits(text: Seq<u8>) -> Seq<u8> {
    if text.len() > 0 && text[0] == 43 {
        text.drop_first()
    } else {
        text
    }
}

/// `text` read as an unsigned 64-bit decimal number, as `str::parse::<u64>`
/// reads it: an optional `+`, then one or more digits, with a value that
/// fits in 64 bits.
pub open spec fn parse_u64_text(text: Seq<u8>) -> Option<u64> {
    let d = unsigned_digits(text);
    if d.len() == 0 || exists|i: int| 0 <= i < d.len() && !is_digit(#[trigger] d[i]) {
        None
    } else if decimal_value(d) > u64::MAX {
        None
    } else {
        Some(decimal_value(d) as u64)
    }
}

/// The text after the last `_` of `text` (all of it when it has none).
pub open spec fn after_last_underscore(text: Seq<u8>) -> Seq<u8>
    decreases text.len(),
{
    if text.len() == 0 {
        text
    } else if text.last() == 95 {
        Seq::empty()
    } else {
        after_last_underscore(text.drop_last()).push(text.last())
    }
}

/// The id a table's file name carries: the number after the last `_` of
/// the file stem, or 0 when there is none.
pub open spec fn id_of_path(path: Seq<char>) -> u64 {
    match file_stem_of(path) {
        None => 0,
        Some(stem) => id_of_stem_text(stem),
    }
}

/// The id a file stem carries: the number after its last `_`, or 0 if
/// that is not a number.
pub open spec fn id_of_stem_text(stem: Seq<char>) -> u64 {
    match parse_u64_text(after_last_underscore(vstd::utf8::encode_utf8(stem))) {
        Some(n) => n,
        None => 0,
    }
}

/// The id a file stem carries (`7` for `sst_0_7`): the number after its
/// last `_`, or 0 if that is not a number.
pub fn id_of_stem(stem: &str) -> (r: u64)
    ensures
        r == id_of_stem_text(stem@),
{
    let tail = after_underscore(stem.as_bytes());
    match parse_u64(tail) {
        Some(n) => n,
        None => 0,
    }
}

/// Read `text` as `str::parse::<u64>` does.
pub fn parse_u64(text: &[u8]) -> (r: Option<u64>)
    ensures
        r == parse_u64_text(text@),
{
    let start: usize = if text.len() > 0 && text[0] == 43 {
        1
    } else {
        0
    };
    let ghost d = unsigned_digits(text@);
    assert(d =~= text@.subrange(start as int, text@.len() as int));
    if start == text.len() {
        return None;
    }
    let mut value: u64 = 0;
    let mut big = false;
    let mut i: usize = start;
    while i < text.len()
        invariant
            start <= i <= text@.len(),
            d == unsigned_digits(text@),
            d == text@.subrange(start as int, text@.len() as int),
            forall|t: int| 0 <= t < i - start ==> is_digit(#[trigger] d[t]),
            !big ==> value == decimal_value(d.subrange(0, i - start)),
            big ==> decimal_value(d.subrange(0, i - start)) > u64::MAX,
        decreases text.len() - i,
    {
        let b = text[i];
        assert(d[i - start] == b);
        if b < 48 || b > 57 {
            assert(!is_digit(d[i - start]));
            return None;
        }
        let digit = (b - 48) as u64;
        assert(d.subrange(0, i + 1 - start).drop_last() =~= d.subrange(0, i - start));
        if !big {
            match value.checked_mul(10) {
                None => {
                    big = true;
                },
                Some(v) => match v.checked_add(digit) {
                    None => {
                        big = true;
                    },
                    Some(w) => {
                        value = w;
                    },
                },
            }
        }
        i = i + 1;
    }
    assert(d.subrange(0, text@.len() - start) =~= d);
    if big {
        None
    } else {
        Some(value)
    }
}

proof fn lemma_after_last_underscore(b: Seq<u8>, p: int)
    requires
        0 <= p <= b.len(),
        p == 0 || b[p - 1] == 95,
        forall|t: int| p <= t < b.len() ==> #[trigger] b[t] != 95,
    ensures
        after_last_underscore(b) == b.subrange(p, b.len() as int),
    decreases b.len(),
{
    if b.len() > 0 {
        if b.len() == p {
            assert(b.subrange(p, b.len() as int) =~= Seq::<u8>::empty());
        } else {
            lemma_after_last_underscore(b.drop_last(), p);
            assert(b.drop_last().subrange(p, b.len() - 1).push(b.last()) =~= b.subrange(
                p,
                b.len() as int,
            ));
        }
    }
}

/// The text after the last `_` of `b`.
fn after_underscore(b: &[u8]) -> (r: &[u8])
    ensures
        r@ == after_last_underscore(b@),
{
    let mut p: usize = b.len();
    while p > 0 && b[p - 1] != 95
        invariant
            p <= b@.len(),
            forall|t: int| p <= t < b@.len() ==> #[trigger] b@[t] != 95,
        decreases p,
    {
        p = p - 1;
    }
    proof {
        lemma_after_last_underscore(b@, p as int);
    }
    slice_subrange(b, p, b.len())
}

} // verus!
