//! What a table built from entries gives back: it opens, and a lookup in it
//! answers as the entries it was built from.
use vstd::prelude::*;

use vstd::bytes::{
    lemma_auto_spec_u32_to_from_le_bytes, lemma_auto_spec_u64_to_from_le_bytes,
    spec_u32_from_le_bytes, spec_u32_to_le_bytes,
};

use crate::engine::block::{encode_block, lemma_block_roundtrip};
use crate::engine::format::entry_fits;
use crate::engine::block::block_lookup;
use crate::engine::sstable::{
    searched_block, block_for, block_index_of, blocks_data, encode_block_index, encode_bloom_of, encode_footer,
    filter_of, first_key_of, index_partition, index_sorted, layout_blocks, loaded_from, open_outcome,
    opened_as, pack, parse_table, read_block_at, lookup_blocks, record_size, scan_blocks, table_file_of, table_footer,
    table_image, IndexEntryView, SSTable, TableParts, MAGIC,
};
use crate::engine::levels::{outside, search_answers};
use crate::index::bloom::{lemma_bloom_encoding, BloomFilterIndex};
use crate::keys::{lex_le, lex_lt, lemma_lex_lt_total, lemma_lex_order};
use crate::versions::{
    is_newest_at, lemma_newest_concat, lemma_newest_in_window, lemma_newest_version_at, newest_version,
    select_range, sorted_by_key,
};
use crate::{reports, EntryView, IndexType};

verus! {

/// The entries of the blocks, one block after the other.
pub open spec fn flatten(b: Seq<Seq<EntryView>>) -> Seq<EntryView>
    decreases b.len(),
{
    if b.len() == 0 {
        Seq::empty()
    } else {
        flatten(b.drop_last()) + b.last()
    }
}

/// Keys strictly increase along `s`: one version per key, in key order.
pub open spec fn strictly_sorted(s: Seq<EntryView>) -> bool {
    forall|i: int, j: int| 0 <= i < j < s.len() ==> lex_lt(#[trigger] s[i].key, #[trigger] s[j].key)
}

/// Greedy packing keeps every entry, in order, in non-empty blocks.
proof fn lemma_pack(s: Seq<EntryView>, limit: int)
    ensures
        ({
            let (done, cur, _) = pack(s, limit);
            &&& flatten(done) + cur == s
            &&& forall|i: int| 0 <= i < done.len() ==> #[trigger] done[i].len() > 0
            &&& s.len() > 0 ==> cur.len() > 0
        }),
    decreases s.len(),
{
    if s.len() > 0 {
        lemma_pack(s.drop_last(), limit);
        let (done, cur, size) = pack(s.drop_last(), limit);
        let e = s.last();
        if size + record_size(e) > limit && cur.len() > 0 {
            assert(done.push(cur).drop_last() =~= done);
            assert(s.drop_last().push(e) =~= s);
            assert(flatten(done.push(cur)) + seq![e] =~= s);
        } else {
            assert(flatten(done) + cur.push(e) =~= (flatten(done) + cur).push(e));
            assert(s.drop_last().push(e) =~= s);
        }
    }
}

/// The blocks of a layout hold the entries, in order, and none is empty.
pub proof fn lemma_layout(s: Seq<EntryView>, limit: int)
    ensures
        flatten(layout_blocks(s, limit)) == s,
        forall|i: int|
            0 <= i < layout_blocks(s, limit).len() ==> #[trigger] layout_blocks(s, limit)[i].len() > 0,
        layout_blocks(s, limit).len() <= s.len(),
{
    lemma_pack(s, limit);
    let (done, cur, _) = pack(s, limit);
    let b = layout_blocks(s, limit);
    if cur.len() > 0 {
        assert(b.drop_last() =~= done);
    } else {
        assert(cur =~= Seq::<EntryView>::empty());
        assert(flatten(done) + cur =~= flatten(done));
    }
    lemma_flatten_len(b);
}

/// Non-empty blocks are no more than the entries they hold.
proof fn lemma_flatten_len(b: Seq<Seq<EntryView>>)
    requires
        forall|i: int| 0 <= i < b.len() ==> #[trigger] b[i].len() > 0,
    ensures
        b.len() <= flatten(b).len(),
    decreases b.len(),
{
    if b.len() > 0 {
        assert(b[b.len() - 1].len() > 0);
        assert forall|i: int| 0 <= i < b.drop_last().len() implies #[trigger] b.drop_last()[i].len() > 0 by {
            assert(b.drop_last()[i] == b[i]);
        }
        lemma_flatten_len(b.drop_last());
    }
}

/// Where block `j` starts among the entries.
pub open spec fn block_start(b: Seq<Seq<EntryView>>, j: int) -> int {
    flatten(b.subrange(0, j)).len() as int
}

/// Flattening distributes over concatenation.
pub(crate) proof fn lemma_flatten_add(x: Seq<Seq<EntryView>>, y: Seq<Seq<EntryView>>)
    ensures
        flatten(x + y) == flatten(x) + flatten(y),
    decreases y.len(),
{
    if y.len() == 0 {
        assert(x + y =~= x);
        assert(flatten(x) + flatten(y) =~= flatten(x));
    } else {
        lemma_flatten_add(x, y.drop_last());
        assert((x + y).drop_last() =~= x + y.drop_last());
        assert(flatten(x) + flatten(y) =~= flatten(x) + flatten(y.drop_last()) + y.last());
    }
}

/// Block `j` is the stretch of the entries from its start.
pub(crate) proof fn lemma_block_in_flatten(b: Seq<Seq<EntryView>>, j: int)
    requires
        0 <= j < b.len(),
    ensures
        block_start(b, j + 1) == block_start(b, j) + b[j].len(),
        block_start(b, j + 1) <= flatten(b).len(),
        flatten(b).subrange(block_start(b, j), block_start(b, j + 1)) == b[j],
{
    let pre = b.subrange(0, j);
    let post = b.subrange(j + 1, b.len() as int);
    assert(b.subrange(0, j + 1).drop_last() =~= pre);
    assert(b.subrange(0, j + 1).last() == b[j]);
    assert(b =~= b.subrange(0, j + 1) + post);
    lemma_flatten_add(b.subrange(0, j + 1), post);
    assert(flatten(b).subrange(block_start(b, j), block_start(b, j + 1)) =~= b[j]);
}

/// Block starts grow with the block number.
pub(crate) proof fn lemma_block_start_monotone(b: Seq<Seq<EntryView>>, i: int, j: int)
    requires
        0 <= i <= j <= b.len(),
    ensures
        block_start(b, i) <= block_start(b, j),
        i < j && (forall|t: int| 0 <= t < b.len() ==> #[trigger] b[t].len() > 0) ==> block_start(b, i)
            < block_start(b, j),
    decreases j - i,
{
    if i < j {
        lemma_block_start_monotone(b, i, j - 1);
        lemma_block_in_flatten(b, j - 1);
    }
}

/// Every entry position lies in some block.
pub(crate) proof fn lemma_block_of_position(b: Seq<Seq<EntryView>>, g: int) -> (j: int)
    requires
        0 <= g < flatten(b).len(),
    ensures
        0 <= j < b.len(),
        block_start(b, j) <= g < block_start(b, j + 1),
    decreases b.len(),
{
    let init = b.drop_last();
    assert(b.subrange(0, b.len() - 1) =~= init);
    assert(b.subrange(0, b.len() as int) =~= b);
    if g < flatten(init).len() {
        let j = lemma_block_of_position(init, g);
        assert(b.subrange(0, j) =~= init.subrange(0, j));
        assert(b.subrange(0, j + 1) =~= init.subrange(0, j + 1));
        j
    } else {
        let j = b.len() - 1;
        lemma_block_in_flatten(b, j);
        j
    }
}


/// Where block `j` starts in the stored blocks.
pub open spec fn data_start(b: Seq<Seq<EntryView>>, j: int) -> int {
    blocks_data(b.subrange(0, j)).len() as int
}

/// Storing blocks distributes over concatenation.
proof fn lemma_blocks_data_add(x: Seq<Seq<EntryView>>, y: Seq<Seq<EntryView>>)
    ensures
        blocks_data(x + y) == blocks_data(x) + blocks_data(y),
    decreases y.len(),
{
    if y.len() == 0 {
        assert(x + y =~= x);
        assert(blocks_data(x) + blocks_data(y) =~= blocks_data(x));
    } else {
        lemma_blocks_data_add(x, y.drop_last());
        assert((x + y).drop_last() =~= x + y.drop_last());
        assert(blocks_data(x) + blocks_data(y) =~= blocks_data(x) + blocks_data(y.drop_last())
            + encode_block(y.last()));
    }
}

/// Block `j` is stored at its start in the stored blocks.
proof fn lemma_block_data_at(b: Seq<Seq<EntryView>>, j: int)
    requires
        0 <= j < b.len(),
    ensures
        data_start(b, j + 1) == data_start(b, j) + encode_block(b[j]).len(),
        data_start(b, j + 1) <= blocks_data(b).len(),
        blocks_data(b).subrange(data_start(b, j), data_start(b, j + 1)) == encode_block(b[j]),
{
    let pre = b.subrange(0, j);
    let post = b.subrange(j + 1, b.len() as int);
    assert(b.subrange(0, j + 1).drop_last() =~= pre);
    assert(b.subrange(0, j + 1).last() == b[j]);
    assert(b =~= b.subrange(0, j + 1) + post);
    lemma_blocks_data_add(b.subrange(0, j + 1), post);
    assert(blocks_data(b).subrange(data_start(b, j), data_start(b, j + 1)) =~= encode_block(b[j]));
}

/// The block index of stored blocks: per block, its first key, start and
/// stored size.
pub(crate) proof fn lemma_block_index_of(b: Seq<Seq<EntryView>>)
    ensures
        block_index_of(b).len() == b.len(),
        forall|j: int|
            0 <= j < b.len() ==> #[trigger] block_index_of(b)[j] == (IndexEntryView {
                first_key: first_key_of(b[j]),
                block_offset: data_start(b, j) as u64,
                block_size: encode_block(b[j]).len() as u64,
            }),
    decreases b.len(),
{
    if b.len() > 0 {
        let init = b.drop_last();
        lemma_block_index_of(init);
        assert forall|j: int| 0 <= j < b.len() implies #[trigger] block_index_of(b)[j] == (
        IndexEntryView {
            first_key: first_key_of(b[j]),
            block_offset: data_start(b, j) as u64,
            block_size: encode_block(b[j]).len() as u64,
        }) by {
            if j < b.len() - 1 {
                assert(block_index_of(b)[j] == block_index_of(init)[j]);
                assert(init[j] == b[j]);
                assert(init.subrange(0, j) =~= b.subrange(0, j));
            } else {
                assert(b.subrange(0, j) =~= init);
            }
        }
    }
}


/// A table file reads back as the parts it was written from.
pub proof fn lemma_image_parses(
    blocks: Seq<Seq<EntryView>>,
    index_type: IndexType,
    ib: Seq<u8>,
    lo: Seq<u8>,
    hi: Seq<u8>,
)
    requires
        blocks.len() <= u32::MAX,
        forall|j: int| 0 <= j < blocks.len() ==> (#[trigger] first_key_of(blocks[j])).len() <= u32::MAX,
        lo.len() + hi.len() + 41 <= u32::MAX,
        table_image(blocks, index_type, ib, lo, hi).len() <= u64::MAX,
    ensures
        parse_table(table_image(blocks, index_type, ib, lo, hi)) == Ok::<TableParts, crate::engine::block::DecodeError>(
            TableParts {
                footer: table_footer(
                    index_type,
                    lo,
                    hi,
                    blocks_data(blocks).len() as int,
                    encode_block_index(block_index_of(blocks)).len() as int,
                    ib.len() as int,
                ),
                block_index: block_index_of(blocks),
                index_data: ib,
            },
        ),
{
    lemma_auto_spec_u32_to_from_le_bytes();
    lemma_auto_spec_u64_to_from_le_bytes();
    let d = blocks_data(blocks);
    let bix = block_index_of(blocks);
    let bie = encode_block_index(bix);
    let f = table_footer(index_type, lo, hi, d.len() as int, bie.len() as int, ib.len() as int);
    let fb = encode_footer(f);
    let image = table_image(blocks, index_type, ib, lo, hi);
    assert(image == d + bie + ib + fb + spec_u32_to_le_bytes(fb.len() as u32) + spec_u32_to_le_bytes(
        MAGIC,
    ));
    assert(f.min_key == lo && f.max_key == hi);
    let p1 = spec_u32_to_le_bytes(f.version) + seq![crate::engine::sstable::index_type_byte(f.index_type)];
    assert(p1.len() == 5);
    let p2 = p1 + spec_u32_to_le_bytes(f.min_key.len() as u32) + f.min_key;
    assert(p2.len() == 9 + lo.len());
    let p3 = p2 + spec_u32_to_le_bytes(f.max_key.len() as u32) + f.max_key;
    assert(p3.len() == 13 + lo.len() + hi.len());
    let p4 = p3 + vstd::bytes::spec_u64_to_le_bytes(f.block_index_offset) + vstd::bytes::spec_u64_to_le_bytes(f.index_offset);
    assert(p4.len() == 29 + lo.len() + hi.len());
    assert(fb == p4 + vstd::bytes::spec_u64_to_le_bytes(f.index_size));
    assert(fb.len() == 37 + lo.len() + hi.len());
    let n = image.len() as int;
    assert(image.subrange(n - 4, n) =~= spec_u32_to_le_bytes(MAGIC));
    assert(image.subrange(n - 8, n - 4) =~= spec_u32_to_le_bytes(fb.len() as u32));
    let fsz = fb.len() as int;
    assert(spec_u32_from_le_bytes(image.subrange(n - 8, n - 4)) as int == fsz);
    assert(image.subrange(n - 8 - fsz, n - 8) =~= fb);
    crate::engine::sstable::lemma_footer_roundtrip(f, Seq::empty());
    assert(fb + Seq::<u8>::empty() =~= fb);
    let bio = d.len() as int;
    let io = bio + bie.len();
    assert(image.subrange(bio, io) =~= bie);
    lemma_block_index_of(blocks);
    assert forall|j: int| 0 <= j < bix.len() implies crate::engine::sstable::index_entry_fits(
        #[trigger] bix[j],
    ) by {
        assert(bix[j].first_key == first_key_of(blocks[j]));
    }
    crate::engine::sstable::lemma_block_index_roundtrip(bix);
    assert(image.subrange(io, io + ib.len()) =~= ib);
}


/// The size limits under which a table of `s` can be written and read back:
/// some entries, at most 2^32 - 1 of them, lengths that fit their 32-bit
/// fields, and a footer whose length fits its 32-bit field.
pub open spec fn table_fits(s: Seq<EntryView>) -> bool {
    &&& s.len() > 0
    &&& s.len() <= u32::MAX
    &&& forall|i: int| 0 <= i < s.len() ==> entry_fits(#[trigger] s[i])
    &&& s[0].key.len() + s.last().key.len() + 41 <= u32::MAX
}

/// In a sequence with one version per key, the version of `k` is its newest.
pub proof fn lemma_unique_newest(s: Seq<EntryView>, k: Seq<u8>, i: int)
    requires
        strictly_sorted(s),
        0 <= i < s.len(),
        s[i].key == k,
    ensures
        newest_version(s, k) == Some(s[i]),
{
    assert forall|j: int| 0 <= j < s.len() && #[trigger] s[j].key == k implies j == i by {
        if j < i {
            assert(lex_lt(s[j].key, s[i].key));
            lemma_lex_order(k, k, k);
        } else if j > i {
            assert(lex_lt(s[i].key, s[j].key));
            lemma_lex_order(k, k, k);
        }
    }
    assert(is_newest_at(s, k, i));
    lemma_newest_version_at(s, k, i);
}

/// A key without versions has no newest version.
pub(crate) proof fn lemma_absent_newest(s: Seq<EntryView>, k: Seq<u8>)
    requires
        forall|i: int| 0 <= i < s.len() ==> #[trigger] s[i].key != k,
    ensures
        newest_version(s, k) is None,
{
    assert(!exists|i: int| is_newest_at(s, k, i));
}

/// Block `j` of blocks that hold `s` is the stretch of `s` from the block's
/// start, and its first key is the key at that start.
proof fn lemma_block_position(s: Seq<EntryView>, blocks: Seq<Seq<EntryView>>, j: int)
    requires
        flatten(blocks) == s,
        0 <= j < blocks.len(),
        blocks[j].len() > 0,
    ensures
        0 <= block_start(blocks, j) < block_start(blocks, j + 1) <= s.len(),
        first_key_of(blocks[j]) == s[block_start(blocks, j)].key,
        s.subrange(block_start(blocks, j), block_start(blocks, j + 1)) == blocks[j],
{
    lemma_block_in_flatten(blocks, j);
    let a = block_start(blocks, j);
    let c = block_start(blocks, j + 1);
    assert(s.subrange(a, c)[0] == s[a]);
}

/// A table built from entries that fit opens, with the parts it was built
/// from.
pub proof fn lemma_built_table_opens(
    data: Seq<u8>,
    s: Seq<EntryView>,
    block_size: usize,
    index_type: IndexType,
    bits_per_element: usize,
    learned: Seq<u8>,
)
    requires
        table_fits(s),
        table_file_of(data, s, block_size, index_type, bits_per_element, learned),
        data.len() <= u64::MAX,
    ensures
        open_outcome(data) matches Ok(p) && {
            &&& p.block_index == block_index_of(layout_blocks(s, block_size as int))
            &&& p.footer.min_key == s[0].key
            &&& p.footer.max_key == s.last().key
            &&& p.footer.index_type == index_type
            &&& (index_type == IndexType::Learned ==> p.index_data == learned)
            &&& (index_type == IndexType::Bloom ==> exists|b: BloomFilterIndex|
                #![trigger filter_of(b, s, bits_per_element)]
                filter_of(b, s, bits_per_element) && p.index_data == encode_bloom_of(b))
        },
{
    let blocks = layout_blocks(s, block_size as int);
    lemma_layout(s, block_size as int);
    assert forall|j: int| 0 <= j < blocks.len() implies (#[trigger] first_key_of(blocks[j])).len()
        <= u32::MAX by {
        lemma_block_position(s, blocks, j);
        assert(entry_fits(s[block_start(blocks, j)]));
    }
    let lo = s[0].key;
    let hi = s.last().key;
    match index_type {
        IndexType::Learned => {
            lemma_image_parses(blocks, IndexType::Learned, learned, lo, hi);
        },
        IndexType::Bloom => {
            let b = choose|b: BloomFilterIndex|
                filter_of(b, s, bits_per_element) && data == table_image(
                    blocks,
                    IndexType::Bloom,
                    encode_bloom_of(b),
                    lo,
                    hi,
                );
            let ib = encode_bloom_of(b);
            lemma_image_parses(blocks, IndexType::Bloom, ib, lo, hi);
            lemma_filter_data_ok(b, s, bits_per_element);
        },
    }
}

/// The stored form of a filter of keys can be loaded and queried.
proof fn lemma_filter_data_ok(b: BloomFilterIndex, s: Seq<EntryView>, bits_per_element: usize)
    requires
        filter_of(b, s, bits_per_element),
    ensures
        crate::engine::sstable::bloom_data_ok(encode_bloom_of(b)),
{
    lemma_hashes_small(bits_per_element);
    lemma_bloom_encoding(b.spec_num_bits(), b.spec_num_hashes(), b.spec_num_inserted(), b.words());
    b.lemma_shape();
}

/// A filter uses at most 30 hash functions.
proof fn lemma_hashes_small(bits_per_element: usize)
    ensures
        crate::index::bloom::hashes_for(bits_per_element) <= 30,
{
    if bits_per_element < 44 {
        let x = bits_per_element as u64;
        assert((x as int) * 6931471805599453 / 10000000000000000 <= 30) by (nonlinear_arith)
            requires
                x < 44,
        ;
    }
}


/// The keys of entries in key order lie between the first and the last key.
pub(crate) proof fn lemma_key_between(s: Seq<EntryView>, i: int)
    requires
        sorted_by_key(s),
        0 <= i < s.len(),
    ensures
        lex_le(s[0].key, s[i].key),
        lex_le(s[i].key, s.last().key),
{
    if i > 0 {
        assert(!lex_lt(s[i].key, s[0].key));
        lemma_lex_lt_total(s[i].key, s[0].key);
    }
    if i < s.len() - 1 {
        assert(!lex_lt(s[s.len() - 1].key, s[i].key));
        lemma_lex_lt_total(s[i].key, s[s.len() - 1].key);
    }
}

/// Entries in strict key order are in key order.
pub proof fn lemma_strictly_sorted(s: Seq<EntryView>)
    requires
        strictly_sorted(s),
    ensures
        sorted_by_key(s),
{
    assert forall|i: int, j: int| 0 <= i < j < s.len() implies !lex_lt(#[trigger] s[j].key, #[trigger] s[i].key) by {
        lemma_lex_order(s[i].key, s[j].key, s[i].key);
    }
}

/// A stretch of entries in key order is in key order.
proof fn lemma_stretch_sorted(s: Seq<EntryView>, a: int, c: int)
    requires
        sorted_by_key(s),
        0 <= a <= c <= s.len(),
    ensures
        sorted_by_key(s.subrange(a, c)),
{
    let w = s.subrange(a, c);
    assert forall|i: int, j: int| 0 <= i < j < w.len() implies !lex_lt(#[trigger] w[j].key, #[trigger] w[i].key) by {
        assert(w[i] == s[a + i] && w[j] == s[a + j]);
    }
}

/// The block index of a layout of entries in key order has its first keys
/// in order.
proof fn lemma_layout_index_sorted(s: Seq<EntryView>, blocks: Seq<Seq<EntryView>>)
    requires
        sorted_by_key(s),
        flatten(blocks) == s,
        forall|i: int| 0 <= i < blocks.len() ==> #[trigger] blocks[i].len() > 0,
    ensures
        index_sorted(block_index_of(blocks)),
{
    let bi = block_index_of(blocks);
    lemma_block_index_of(blocks);
    assert forall|i: int, j: int| 0 <= i < j < bi.len() implies !lex_lt(
        #[trigger] bi[j].first_key,
        #[trigger] bi[i].first_key,
    ) by {
        lemma_block_position(s, blocks, i);
        lemma_block_position(s, blocks, j);
        lemma_block_start_monotone(blocks, i, j);
        let a = block_start(blocks, i);
        let c = block_start(blocks, j);
        assert(!lex_lt(s[c].key, s[a].key));
    }
}

/// A key outside the key range of entries in key order has no version
/// among them.
proof fn lemma_out_of_range_absent(s: Seq<EntryView>, k: Seq<u8>)
    requires
        sorted_by_key(s),
        s.len() > 0,
        lex_lt(k, s[0].key) || lex_lt(s.last().key, k),
    ensures
        newest_version(s, k) is None,
{
    let lo = s[0].key;
    let hi = s.last().key;
    assert forall|i: int| 0 <= i < s.len() implies #[trigger] s[i].key != k by {
        lemma_key_between(s, i);
        lemma_lex_order(k, lo, k);
        lemma_lex_order(hi, k, hi);
    }
    lemma_absent_newest(s, k);
}

/// A key that the filter of a built table rules out has no version among
/// the entries the table was built from.
proof fn lemma_excluded_absent(t: SSTable, s: Seq<EntryView>, bits_per_element: usize, p: TableParts, k: Seq<u8>)
    requires
        opened_as(t, p),
        p.footer.index_type == IndexType::Bloom,
        exists|b: BloomFilterIndex|
            #![trigger filter_of(b, s, bits_per_element)]
            filter_of(b, s, bits_per_element) && p.index_data == encode_bloom_of(b),
        t.excludes(k),
    ensures
        newest_version(s, k) is None,
{
    let b2 = t.spec_filter()->Some_0;
    let b = choose|b: BloomFilterIndex|
        #![trigger filter_of(b, s, bits_per_element)]
        filter_of(b, s, bits_per_element) && p.index_data == encode_bloom_of(b);
    lemma_hashes_small(bits_per_element);
    lemma_bloom_encoding(b.spec_num_bits(), b.spec_num_hashes(), b.spec_num_inserted(), b.words());
    assert(b2.words() =~= b.words());
    b2.lemma_same_filter(&b);
    assert forall|i: int| 0 <= i < s.len() implies #[trigger] s[i].key != k by {
        assert(b.holds(s[i].key));
    }
    lemma_absent_newest(s, k);
}

/// A lookup in a table built from entries in key order answers as the
/// entries do: the value or the tombstone of the key's newest version, or
/// not found when no entry has the key.
pub proof fn lemma_built_table_get(
    t: SSTable,
    s: Seq<EntryView>,
    block_size: usize,
    index_type: IndexType,
    bits_per_element: usize,
    learned: Seq<u8>,
    k: Seq<u8>,
    r: Result<crate::LookupResult, crate::engine::block::DecodeError>,
)
    requires
        sorted_by_key(s),
        table_fits(s),
        table_file_of(t.spec_data(), s, block_size, index_type, bits_per_element, learned),
        open_outcome(t.spec_data()) matches Ok(p) && opened_as(t, p),
        crate::engine::sstable::get_answers(t, k, r),
    ensures
        r matches Ok(a) && reports(a, newest_version(s, k)),
{
    let data = t.spec_data();
    let p = open_outcome(data)->Ok_0;
    lemma_built_table_opens(data, s, block_size, index_type, bits_per_element, learned);
    let lo = s[0].key;
    let hi = s.last().key;
    lemma_lex_lt_total(k, lo);
    lemma_lex_lt_total(k, hi);
    if lex_lt(k, lo) || lex_lt(hi, k) {
        lemma_out_of_range_absent(s, k);
    } else if t.excludes(k) {
        t.lemma_filter_kind();
        lemma_excluded_absent(t, s, bits_per_element, p, k);
    } else {
        lemma_block_answer(t, s, block_size, index_type, bits_per_element, learned, k);
        lemma_built_table_blocks(t, s, block_size, index_type, bits_per_element, learned);
    }
}

/// A table built from entries that fit has at least one block.
pub(crate) proof fn lemma_built_table_blocks(
    t: SSTable,
    s: Seq<EntryView>,
    block_size: usize,
    index_type: IndexType,
    bits_per_element: usize,
    learned: Seq<u8>,
)
    requires
        table_fits(s),
        table_file_of(t.spec_data(), s, block_size, index_type, bits_per_element, learned),
        open_outcome(t.spec_data()) matches Ok(p) && opened_as(t, p),
    ensures
        t.spec_block_index() == block_index_of(layout_blocks(s, block_size as int)),
        t.spec_block_index().len() > 0,
        t.spec_min_key() == s[0].key,
        t.spec_max_key() == s.last().key,
{
    lemma_built_table_opens(t.spec_data(), s, block_size, index_type, bits_per_element, learned);
    let blocks = layout_blocks(s, block_size as int);
    lemma_layout(s, block_size as int);
    lemma_block_index_of(blocks);
    assert(blocks.len() > 0) by {
        if blocks.len() == 0 {
            assert(flatten(blocks) =~= Seq::<EntryView>::empty());
        }
    }
}

/// The answers a lookup in a table built from entries in key order can give
/// are exactly those that report the key's newest version (or not found).
pub proof fn lemma_built_table_answers(
    t: SSTable,
    s: Seq<EntryView>,
    block_size: usize,
    index_type: IndexType,
    bits_per_element: usize,
    learned: Seq<u8>,
    k: Seq<u8>,
)
    requires
        sorted_by_key(s),
        table_fits(s),
        table_file_of(t.spec_data(), s, block_size, index_type, bits_per_element, learned),
        open_outcome(t.spec_data()) matches Ok(p) && opened_as(t, p),
    ensures
        forall|r: Result<crate::LookupResult, crate::engine::block::DecodeError>|
            #[trigger] crate::engine::sstable::get_answers(t, k, r) <==> (r matches Ok(a) && reports(
                a,
                newest_version(s, k),
            )),
{
    let data = t.spec_data();
    let p = open_outcome(data)->Ok_0;
    lemma_built_table_opens(data, s, block_size, index_type, bits_per_element, learned);
    lemma_built_table_blocks(t, s, block_size, index_type, bits_per_element, learned);
    let lo = s[0].key;
    let hi = s.last().key;
    lemma_lex_lt_total(k, lo);
    lemma_lex_lt_total(k, hi);
    if lex_lt(k, lo) || lex_lt(hi, k) {
        lemma_out_of_range_absent(s, k);
        lemma_lex_order(k, lo, hi);
        lemma_lex_order(hi, k, lo);
        assert forall|r: Result<crate::LookupResult, crate::engine::block::DecodeError>|
            #[trigger] crate::engine::sstable::get_answers(t, k, r) <==> (r matches Ok(a) && reports(
                a,
                newest_version(s, k),
            )) by {
            if r matches Ok(a) && reports(a, newest_version(s, k)) {
                assert(r == Ok::<crate::LookupResult, crate::engine::block::DecodeError>(
                    crate::LookupResult::NotFound,
                ));
            }
        }
    } else if t.excludes(k) {
        t.lemma_filter_kind();
        lemma_excluded_absent(t, s, bits_per_element, p, k);
        assert forall|r: Result<crate::LookupResult, crate::engine::block::DecodeError>|
            #[trigger] crate::engine::sstable::get_answers(t, k, r) <==> (r matches Ok(a) && reports(
                a,
                newest_version(s, k),
            )) by {
            if r matches Ok(a) && reports(a, newest_version(s, k)) {
                assert(r == Ok::<crate::LookupResult, crate::engine::block::DecodeError>(
                    crate::LookupResult::NotFound,
                ));
            }
        }
    } else {
        lemma_block_answer(t, s, block_size, index_type, bits_per_element, learned, k);
    }
}

/// A lookup that consults a table built from entries in key order before
/// the tables `rest` answers the key's newest version when the entries hold
/// one, and what `rest` answers when they do not.
pub proof fn lemma_built_table_first(
    t: SSTable,
    s: Seq<EntryView>,
    block_size: usize,
    index_type: IndexType,
    bits_per_element: usize,
    learned: Seq<u8>,
    rest: Seq<SSTable>,
    k: Seq<u8>,
    r: Result<crate::LookupResult, crate::engine::block::DecodeError>,
)
    requires
        sorted_by_key(s),
        table_fits(s),
        table_file_of(t.spec_data(), s, block_size, index_type, bits_per_element, learned),
        open_outcome(t.spec_data()) matches Ok(p) && opened_as(t, p),
        search_answers(seq![t] + rest, k, r),
    ensures
        match newest_version(s, k) {
            Some(e) => r is Ok && reports(r->Ok_0, Some(e)),
            None => search_answers(rest, k, r),
        },
{
    let ts = seq![t] + rest;
    assert(ts[0] == t);
    assert(ts.drop_first() =~= rest);
    lemma_built_table_opens(t.spec_data(), s, block_size, index_type, bits_per_element, learned);
    if outside(t, k) {
        lemma_out_of_range_absent(s, k);
    } else {
        let a = choose|a: Result<crate::LookupResult, crate::engine::block::DecodeError>|
            #![trigger crate::engine::sstable::get_answers(ts[0], k, a)]
            crate::engine::sstable::get_answers(ts[0], k, a) && if a == Ok::<
                crate::LookupResult,
                crate::engine::block::DecodeError,
            >(crate::LookupResult::NotFound) {
                search_answers(ts.drop_first(), k, r)
            } else {
                r == a
            };
        lemma_built_table_get(t, s, block_size, index_type, bits_per_element, learned, k, a);
    }
}

/// Looking `k` up over the blocks of a layout of entries in key order from
/// block `j` on finds the newest version of `k` among the entries from the
/// start of block `j` on.
#[verifier::rlimit(50)]
#[verifier::spinoff_prover]
proof fn lemma_lookup_layout_from(
    data: Seq<u8>,
    s: Seq<EntryView>,
    blocks: Seq<Seq<EntryView>>,
    j: int,
    k: Seq<u8>,
)
    requires
        sorted_by_key(s),
        flatten(blocks) == s,
        forall|i: int| 0 <= i < blocks.len() ==> #[trigger] blocks[i].len() > 0,
        forall|i: int| 0 <= i < blocks.len() ==> read_block_at(data, block_index_of(blocks), i) == Some(
            #[trigger] blocks[i],
        ),
        0 <= j <= blocks.len(),
    ensures
        lookup_blocks(data, block_index_of(blocks), j, k) == Some(
            newest_version(s.subrange(block_start(blocks, j), s.len() as int), k),
        ),
    decreases blocks.len() - j,
{
    let bi = block_index_of(blocks);
    lemma_block_index_of(blocks);
    lemma_flatten_tail(s, blocks, j);
    let a = block_start(blocks, j);
    let rest = s.subrange(a, s.len() as int);
    if j == blocks.len() {
        assert(blocks.subrange(j, blocks.len() as int) =~= Seq::<Seq<EntryView>>::empty());
        assert(rest =~= Seq::<EntryView>::empty());
        lemma_absent_newest(rest, k);
    } else {
        lemma_block_position(s, blocks, j);
        if lex_lt(k, bi[j].first_key) {
            assert forall|t: int| 0 <= t < rest.len() implies #[trigger] rest[t].key != k by {
                assert(rest[t] == s[a + t]);
                if t > 0 {
                    assert(!lex_lt(s[a + t].key, s[a].key));
                }
                lemma_lex_lt_total(s[a + t].key, s[a].key);
                lemma_lex_order(k, s[a].key, s[a + t].key);
                lemma_lex_order(s[a + t].key, s[a].key, s[a + t].key);
            }
            lemma_absent_newest(rest, k);
        } else {
            assert(read_block_at(data, bi, j) == Some(blocks[j]));
            lemma_lookup_layout_from(data, s, blocks, j + 1, k);
            let c = block_start(blocks, j + 1);
            lemma_flatten_tail(s, blocks, j + 1);
            assert(rest =~= blocks[j] + s.subrange(c, s.len() as int));
            lemma_stretch_sorted(s, a, c);
            crate::engine::block::lemma_block_lookup_sorted(blocks[j], k);
            lemma_newest_concat(blocks[j], s.subrange(c, s.len() as int), k);
        }
    }
}

/// The lookup case of a table built from entries in key order, for a key
/// within its key range: the blocks from the first one that may hold the
/// key give its newest version.
#[verifier::rlimit(60)]
#[verifier::spinoff_prover]
proof fn lemma_block_answer(
    t: SSTable,
    s: Seq<EntryView>,
    block_size: usize,
    index_type: IndexType,
    bits_per_element: usize,
    learned: Seq<u8>,
    k: Seq<u8>,
)
    requires
        sorted_by_key(s),
        table_fits(s),
        table_file_of(t.spec_data(), s, block_size, index_type, bits_per_element, learned),
        t.spec_data().len() <= u64::MAX,
        t.spec_block_index() == block_index_of(layout_blocks(s, block_size as int)),
        lex_le(s[0].key, k),
        lex_le(k, s.last().key),
    ensures
        lookup_blocks(t.spec_data(), t.spec_block_index(), searched_block(t.spec_block_index(), k), k)
            == Some(newest_version(s, k)),
{
    let data = t.spec_data();
    let blocks = layout_blocks(s, block_size as int);
    lemma_layout(s, block_size as int);
    let bi = t.spec_block_index();
    lemma_block_index_of(blocks);
    assert(blocks.len() > 0) by {
        if blocks.len() == 0 {
            assert(flatten(blocks) =~= Seq::<EntryView>::empty());
        }
    }
    lemma_layout_index_sorted(s, blocks);
    crate::engine::sstable::lemma_searched_block_sorted(bi, k);
    assert forall|i: int| 0 <= i < blocks.len() implies read_block_at(data, bi, i) == Some(
        #[trigger] blocks[i],
    ) by {
        lemma_read_layout_block(data, s, block_size, index_type, bits_per_element, learned, i);
    }
    let j0 = block_for(bi, k);
    lemma_index_partition(bi, k);
    lemma_lookup_layout_from(data, s, blocks, j0, k);
    lemma_flatten_tail(s, blocks, j0);
    let a = block_start(blocks, j0);
    if j0 > 0 {
        lemma_block_position(s, blocks, j0);
        assert(lex_lt(s[a].key, k));
        assert forall|u: int| 0 <= u < s.len() && #[trigger] s[u].key == k implies a <= u < s.len() by {
            if u < a {
                assert(!lex_lt(s[a].key, s[u].key));
                lemma_lex_lt_total(s[a].key, s[u].key);
                lemma_lex_order(s[u].key, s[u].key, s[u].key);
            }
        }
    } else {
        assert(a == 0) by {
            assert(blocks.subrange(0, 0) =~= Seq::<Seq<EntryView>>::empty());
            assert(flatten(blocks.subrange(0, 0)) =~= Seq::<EntryView>::empty());
        }
    }
    lemma_newest_in_window(s, k, a, s.len() as int);
}

/// A table file begins with its stored blocks.
proof fn lemma_image_prefix(
    data: Seq<u8>,
    s: Seq<EntryView>,
    block_size: usize,
    index_type: IndexType,
    bits_per_element: usize,
    learned: Seq<u8>,
)
    requires
        table_file_of(data, s, block_size, index_type, bits_per_element, learned),
    ensures
        blocks_data(layout_blocks(s, block_size as int)).len() <= data.len(),
        data.subrange(0, blocks_data(layout_blocks(s, block_size as int)).len() as int) == blocks_data(
            layout_blocks(s, block_size as int),
        ),
{
    let blocks = layout_blocks(s, block_size as int);
    let bd = blocks_data(blocks);
    if index_type == IndexType::Learned {
        assert(data.subrange(0, bd.len() as int) =~= bd);
    } else {
        let b = choose|b: BloomFilterIndex|
            #![trigger filter_of(b, s, bits_per_element)]
            filter_of(b, s, bits_per_element) && data == table_image(
                blocks,
                IndexType::Bloom,
                encode_bloom_of(b),
                s[0].key,
                s.last().key,
            );
        assert(data.subrange(0, bd.len() as int) =~= bd);
    }
}


/// The blocks of a layout read back from the table file, each in its place.
proof fn lemma_read_layout_block(
    data: Seq<u8>,
    s: Seq<EntryView>,
    block_size: usize,
    index_type: IndexType,
    bits_per_element: usize,
    learned: Seq<u8>,
    j: int,
)
    requires
        table_fits(s),
        table_file_of(data, s, block_size, index_type, bits_per_element, learned),
        data.len() <= u64::MAX,
        0 <= j < layout_blocks(s, block_size as int).len(),
    ensures
        read_block_at(data, block_index_of(layout_blocks(s, block_size as int)), j) == Some(
            layout_blocks(s, block_size as int)[j],
        ),
{
    let blocks = layout_blocks(s, block_size as int);
    lemma_layout(s, block_size as int);
    lemma_block_index_of(blocks);
    lemma_block_position(s, blocks, j);
    let a = block_start(blocks, j);
    lemma_image_prefix(data, s, block_size, index_type, bits_per_element, learned);
    lemma_block_data_at(blocks, j);
    let bd = blocks_data(blocks);
    let ds = data_start(blocks, j);
    let de = data_start(blocks, j + 1);
    assert(data.subrange(ds, de) =~= bd.subrange(ds, de));
    let bj = blocks[j];
    assert forall|i: int| 0 <= i < bj.len() implies entry_fits(#[trigger] bj[i]) by {
        assert(bj[i] == s[a + i]);
    }
    lemma_block_roundtrip(bj);
}

/// The leading blocks of an index that [`index_partition`] counts have
/// first keys below `key`.
proof fn lemma_index_partition(bi: Seq<IndexEntryView>, key: Seq<u8>)
    ensures
        0 <= index_partition(bi, key) <= bi.len(),
        forall|t: int| 0 <= t < index_partition(bi, key) ==> lex_lt(#[trigger] bi[t].first_key, key),
    decreases bi.len(),
{
    if bi.len() > 0 && lex_lt(bi[0].first_key, key) {
        lemma_index_partition(bi.drop_first(), key);
        assert forall|t: int| 0 <= t < index_partition(bi, key) implies lex_lt(
            #[trigger] bi[t].first_key,
            key,
        ) by {
            if t > 0 {
                assert(bi[t] == bi.drop_first()[t - 1]);
            }
        }
    }
}

/// The entries of the blocks from block `j` on are the entries of `s` from
/// the start of block `j` on.
proof fn lemma_flatten_tail(s: Seq<EntryView>, blocks: Seq<Seq<EntryView>>, j: int)
    requires
        flatten(blocks) == s,
        0 <= j <= blocks.len(),
    ensures
        0 <= block_start(blocks, j) <= s.len(),
        flatten(blocks.subrange(j, blocks.len() as int)) == s.subrange(block_start(blocks, j), s.len() as int),
        s.subrange(0, block_start(blocks, j)) == flatten(blocks.subrange(0, j)),
{
    assert(blocks =~= blocks.subrange(0, j) + blocks.subrange(j, blocks.len() as int));
    lemma_flatten_add(blocks.subrange(0, j), blocks.subrange(j, blocks.len() as int));
    let pre = flatten(blocks.subrange(0, j));
    let post = flatten(blocks.subrange(j, blocks.len() as int));
    assert(s.subrange(0, pre.len() as int) =~= pre);
    assert(s.subrange(pre.len() as int, s.len() as int) =~= post);
}

/// In entries in key order, nothing from a position whose key is
/// above `end` on lies in `[start, end]`.
proof fn lemma_nothing_after(s: Seq<EntryView>, a: int, start: Seq<u8>, end: Seq<u8>)
    requires
        sorted_by_key(s),
        0 <= a < s.len(),
        lex_lt(end, s[a].key),
    ensures
        select_range(s.subrange(a, s.len() as int), start, end) == Seq::<EntryView>::empty(),
{
    let pred = |e: EntryView| crate::versions::key_in_range(e, start, end);
    let rest = s.subrange(a, s.len() as int);
    assert forall|t: int| 0 <= t < rest.len() implies !pred(#[trigger] rest[t]) by {
        assert(rest[t] == s[a + t]);
        if t > 0 {
            assert(!lex_lt(s[a + t].key, s[a].key));
            lemma_lex_lt_total(s[a].key, s[a + t].key);
            if s[a].key != s[a + t].key {
                crate::keys::lemma_lex_lt_transitive(end, s[a].key, s[a + t].key);
            }
        }
        lemma_lex_order(end, s[a + t].key, end);
    }
    crate::versions::lemma_filter_none(rest, pred);
}

/// The entries in range from the start of block `j` on: those of block `j`
/// and those from the start of the next block on.
proof fn lemma_scan_join(s: Seq<EntryView>, blocks: Seq<Seq<EntryView>>, j: int, start: Seq<u8>, end: Seq<u8>)
    requires
        sorted_by_key(s),
        flatten(blocks) == s,
        0 <= j < blocks.len(),
        blocks[j].len() > 0,
    ensures
        select_range(s.subrange(block_start(blocks, j), s.len() as int), start, end) == crate::engine::sstable::block_scan(
            blocks[j],
            start,
            end,
        ) + select_range(s.subrange(block_start(blocks, j + 1), s.len() as int), start, end),
{
    let pred = |e: EntryView| crate::versions::key_in_range(e, start, end);
    lemma_block_position(s, blocks, j);
    let a = block_start(blocks, j);
    let c = block_start(blocks, j + 1);
    lemma_stretch_sorted(s, a, c);
    crate::engine::block::lemma_scan_prefix_sorted(blocks[j], start, end);
    assert(s.subrange(a, s.len() as int) =~= blocks[j] + s.subrange(c, s.len() as int));
    Seq::filter_distributes_over_add(blocks[j], s.subrange(c, s.len() as int), pred);
}

/// Scanning the blocks of a table of entries in key order from block
/// `j` on gives the entries in range from the start of block `j` on.
#[verifier::rlimit(60)]
#[verifier::spinoff_prover]
proof fn lemma_scan_layout_from(
    data: Seq<u8>,
    s: Seq<EntryView>,
    blocks: Seq<Seq<EntryView>>,
    j: int,
    start: Seq<u8>,
    end: Seq<u8>,
)
    requires
        sorted_by_key(s),
        flatten(blocks) == s,
        forall|i: int| 0 <= i < blocks.len() ==> #[trigger] blocks[i].len() > 0,
        forall|i: int| 0 <= i < blocks.len() ==> read_block_at(data, block_index_of(blocks), i) == Some(
            #[trigger] blocks[i],
        ),
        0 <= j <= blocks.len(),
    ensures
        scan_blocks(data, block_index_of(blocks), j, start, end) == Some(
            select_range(s.subrange(block_start(blocks, j), s.len() as int), start, end),
        ),
    decreases blocks.len() - j,
{
    let bi = block_index_of(blocks);
    lemma_block_index_of(blocks);
    lemma_flatten_tail(s, blocks, j);
    if j == blocks.len() {
        let pred = |e: EntryView| crate::versions::key_in_range(e, start, end);
        let rest = s.subrange(block_start(blocks, j), s.len() as int);
        assert(blocks.subrange(j, blocks.len() as int) =~= Seq::<Seq<EntryView>>::empty());
        assert(rest =~= Seq::<EntryView>::empty());
        crate::versions::lemma_filter_none(rest, pred);
    } else {
        assert(read_block_at(data, bi, j) == Some(blocks[j]));
        lemma_block_position(s, blocks, j);
        if lex_lt(end, first_key_of(blocks[j])) {
            lemma_nothing_after(s, block_start(blocks, j), start, end);
        } else {
            lemma_scan_layout_from(data, s, blocks, j + 1, start, end);
            lemma_scan_join(s, blocks, j, start, end);
        }
    }
}

/// In a layout of entries in key order, no entry before the block a scan
/// from `start` begins with lies in `[start, end]`.
#[verifier::rlimit(30)]
proof fn lemma_prefix_below_start(s: Seq<EntryView>, blocks: Seq<Seq<EntryView>>, start: Seq<u8>, end: Seq<u8>)
    requires
        sorted_by_key(s),
        flatten(blocks) == s,
        forall|i: int| 0 <= i < blocks.len() ==> #[trigger] blocks[i].len() > 0,
        blocks.len() > 0,
    ensures
        0 <= block_for(block_index_of(blocks), start) < blocks.len(),
        select_range(s.subrange(0, block_start(blocks, block_for(block_index_of(blocks), start))), start, end)
            == Seq::<EntryView>::empty(),
{
    let bi = block_index_of(blocks);
    lemma_block_index_of(blocks);
    lemma_index_partition(bi, start);
    let from = block_for(bi, start);
    lemma_flatten_tail(s, blocks, from);
    let a = block_start(blocks, from);
    let pred = |e: EntryView| crate::versions::key_in_range(e, start, end);
    if from > 0 {
        lemma_block_position(s, blocks, from);
        assert(bi[from].first_key == first_key_of(blocks[from]));
        assert(from < index_partition(bi, start));
        assert(lex_lt(bi[from].first_key, start));
        assert(lex_lt(s[a].key, start));
        assert forall|u: int| 0 <= u < a implies !pred(#[trigger] s.subrange(0, a)[u]) by {
            assert(s.subrange(0, a)[u] == s[u]);
            assert(!lex_lt(s[a].key, s[u].key));
            lemma_lex_lt_total(s[u].key, s[a].key);
            if s[u].key != s[a].key {
                crate::keys::lemma_lex_lt_transitive(s[u].key, s[a].key, start);
            }
            lemma_lex_order(s[u].key, start, s[u].key);
        }
    } else {
        assert(s.subrange(0, a) =~= Seq::<EntryView>::empty());
    }
    crate::versions::lemma_filter_none(s.subrange(0, a), pred);
}

/// The blocks a scan of `[start, end]` reads in a table built from entries
/// in key order give the entries with keys in that range.
#[verifier::rlimit(60)]
#[verifier::spinoff_prover]
proof fn lemma_built_table_scan_blocks(
    t: SSTable,
    s: Seq<EntryView>,
    block_size: usize,
    index_type: IndexType,
    bits_per_element: usize,
    learned: Seq<u8>,
    start: Seq<u8>,
    end: Seq<u8>,
)
    requires
        sorted_by_key(s),
        table_fits(s),
        table_file_of(t.spec_data(), s, block_size, index_type, bits_per_element, learned),
        open_outcome(t.spec_data()) matches Ok(p) && opened_as(t, p),
    ensures
        t.spec_block_index().len() > 0,
        scan_blocks(
            t.spec_data(),
            t.spec_block_index(),
            searched_block(t.spec_block_index(), start),
            start,
            end,
        ) == Some(select_range(s, start, end)),
{
    let data = t.spec_data();
    lemma_built_table_opens(data, s, block_size, index_type, bits_per_element, learned);
    let blocks = layout_blocks(s, block_size as int);
    lemma_layout(s, block_size as int);
    let bi = block_index_of(blocks);
    lemma_block_index_of(blocks);
    assert(t.spec_block_index() == bi);
    assert(blocks.len() > 0) by {
        if blocks.len() == 0 {
            assert(flatten(blocks) =~= Seq::<EntryView>::empty());
        }
    }
    lemma_layout_index_sorted(s, blocks);
    let from = block_for(bi, start);
    crate::engine::sstable::lemma_searched_block_sorted(bi, start);
    lemma_prefix_below_start(s, blocks, start, end);
    lemma_flatten_tail(s, blocks, from);
    let a = block_start(blocks, from);
    let tail = s.subrange(a, s.len() as int);
    assert(scan_blocks(data, bi, from, start, end) == Some(select_range(tail, start, end))) by {
        assert forall|i: int| 0 <= i < blocks.len() implies read_block_at(data, bi, i) == Some(
            #[trigger] blocks[i],
        ) by {
            lemma_read_layout_block(data, s, block_size, index_type, bits_per_element, learned, i);
        }
        lemma_scan_layout_from(data, s, blocks, from, start, end);
    }
    assert(select_range(s, start, end) == select_range(tail, start, end)) by {
        let pred = |e: EntryView| crate::versions::key_in_range(e, start, end);
        assert(s =~= s.subrange(0, a) + tail);
        Seq::filter_distributes_over_add(s.subrange(0, a), tail, pred);
        assert(Seq::<EntryView>::empty() + select_range(tail, start, end) =~= select_range(tail, start, end));
    }
}

/// A scan of a table built from entries in key order gives exactly
/// the entries with keys in the scanned range, in key order.
pub proof fn lemma_built_table_scan(
    t: SSTable,
    s: Seq<EntryView>,
    block_size: usize,
    index_type: IndexType,
    bits_per_element: usize,
    learned: Seq<u8>,
    start: Seq<u8>,
    end: Seq<u8>,
    r: Result<Vec<crate::Entry>, crate::engine::block::DecodeError>,
)
    requires
        sorted_by_key(s),
        table_fits(s),
        table_file_of(t.spec_data(), s, block_size, index_type, bits_per_element, learned),
        open_outcome(t.spec_data()) matches Ok(p) && opened_as(t, p),
        crate::engine::sstable::scan_answers(t, start, end, r),
    ensures
        r matches Ok(v) && crate::versions::entries_view(v@) == select_range(s, start, end),
{
    lemma_built_table_scan_blocks(t, s, block_size, index_type, bits_per_element, learned, start, end);
}

/// A full scan of a table built from entries in key order reads
/// back all the entries.
pub proof fn lemma_built_table_full_scan(
    t: SSTable,
    s: Seq<EntryView>,
    block_size: usize,
    index_type: IndexType,
    bits_per_element: usize,
    learned: Seq<u8>,
)
    requires
        sorted_by_key(s),
        table_fits(s),
        table_file_of(t.spec_data(), s, block_size, index_type, bits_per_element, learned),
        open_outcome(t.spec_data()) matches Ok(p) && opened_as(t, p),
    ensures
        crate::engine::compaction::full_scan(t) == Some(s),
{
    lemma_built_table_blocks(t, s, block_size, index_type, bits_per_element, learned);
    lemma_built_table_scan_blocks(t, s, block_size, index_type, bits_per_element, learned, s[0].key, s.last().key);
    let pred = |e: EntryView| crate::versions::key_in_range(e, s[0].key, s.last().key);
    assert forall|i: int| 0 <= i < s.len() implies pred(#[trigger] s[i]) by {
        lemma_key_between(s, i);
    }
    crate::versions::lemma_filter_all(s, pred);
}


/// A filter read back from its stored form holds exactly the keys the
/// filter held.
pub proof fn lemma_filter_reload(b: BloomFilterIndex, b2: BloomFilterIndex)
    requires
        b.spec_num_hashes() <= u32::MAX,
        loaded_from(b2, encode_bloom_of(b)),
    ensures
        forall|k: Seq<u8>| #[trigger] b2.holds(k) == b.holds(k),
{
    b.lemma_words_len();
    lemma_bloom_encoding(b.spec_num_bits(), b.spec_num_hashes(), b.spec_num_inserted(), b.words());
    assert(b2.words() =~= b.words());
    b2.lemma_same_filter(&b);
}

} // verus!
