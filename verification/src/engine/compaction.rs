//! Compaction: the tables of one level and of the next are merged into one
//! table of the next level that keeps only the newest version of each key.
use vstd::prelude::*;

use crate::engine::block::DecodeError;
use crate::engine::merge::{has_key, merge_for_compaction, newest_per_key, survives_compaction};
use crate::engine::sstable::{
    get_answers, open_outcome, opened_as, scan_blocks, searched_block, table_file_of, BuildError, SSTable,
    SSTableBuilder,
};
use crate::versions::{entries_view, newest_version};
use crate::{reports, Entry, EntryView, IndexType, LookupResult};

verus! {

/// What a full scan of a table reads: the scan of its whole key range.
pub open spec fn full_scan(t: SSTable) -> Option<Seq<EntryView>> {
    let bi = t.spec_block_index();
    let from = if bi.len() == 0 {
        0
    } else {
        searched_block(bi, t.spec_min_key())
    };
    scan_blocks(t.spec_data(), bi, from, t.spec_min_key(), t.spec_max_key())
}

/// The full scans of the tables, one after the other; `None` if a table
/// cannot be read.
pub open spec fn scans_of(ts: Seq<SSTable>) -> Option<Seq<EntryView>>
    decreases ts.len(),
{
    if ts.len() == 0 {
        Some(Seq::empty())
    } else {
        match scans_of(ts.drop_last()) {
            None => None,
            Some(s) => match full_scan(ts.last()) {
                None => None,
                Some(t) => Some(s + t),
            },
        }
    }
}

/// The keys a compaction into `level` keeps of the entries `s`.
pub open spec fn kept_keys(s: Seq<EntryView>, level: usize) -> spec_fn(Seq<u8>) -> bool {
    |k: Seq<u8>| survives_compaction(s, k, level)
}

/// Why a compaction failed.
#[derive(Debug, Clone, Copy, PartialEq, Eq, Structural)]
pub enum CompactionError {
    /// A table being compacted could not be read.
    Decode(DecodeError),
    /// No entry survived the merge.
    Empty,
    /// The merged table could not be built.
    Build(BuildError),
}

/// The table a compaction produced, with its key range.
pub struct CompactionResult {
    pub sst: SSTable,
    pub min_key: Vec<u8>,
    pub max_key: Vec<u8>,
    pub size_bytes: u64,
}

/// `r` is what compacting the tables of a level (`level_ssts`, newer) and
/// of the next (`next_level_ssts`, older) into a table at `output_path` of
/// level `output_level` gives: an error when a table cannot be read;
/// otherwise the table of the newest version of every key that survives, in
/// key order, or an error when no key survives or when those entries do not
/// fit a table (a table of entries that fit is always built).
pub open spec fn compaction_answers(
    level_ssts: Seq<SSTable>,
    next_level_ssts: Seq<SSTable>,
    output_path: Seq<char>,
    output_level: usize,
    block_size: usize,
    index_type: IndexType,
    bits_per_element: usize,
    learned: Seq<u8>,
    r: Result<CompactionResult, CompactionError>,
) -> bool {
    match (
        scans_of(level_ssts),
        scans_of(next_level_ssts),
    ) {
        (Some(a), Some(b)) => match r {
            Err(CompactionError::Decode(_)) => false,
            Err(CompactionError::Empty) => forall|j: int|
                0 <= j < (a + b).len() ==> !survives_compaction(
                    a + b,
                    #[trigger] (a + b)[j].key,
                    output_level,
                ),
            Err(CompactionError::Build(e)) => e is Decode && exists|m: Seq<EntryView>|
                newest_per_key(a + b, m, kept_keys(a + b, output_level)) && m.len() > 0
                    && !crate::engine::table_laws::table_fits(m),
            Ok(res) => exists|m: Seq<EntryView>|
                {
                    &&& newest_per_key(
                        a + b,
                        m,
                        kept_keys(a + b, output_level),
                    )
                    &&& m.len() > 0
                    &&& res.min_key@ == m[0].key
                    &&& res.max_key@ == m.last().key
                    &&& res.size_bytes == res.sst.spec_data().len()
                    &&& res.sst.spec_path() == output_path
                    &&& (open_outcome(res.sst.spec_data()) matches Ok(p) && opened_as(res.sst, p))
                    &&& table_file_of(
                        res.sst.spec_data(),
                        m,
                        block_size,
                        index_type,
                        bits_per_element,
                        learned,
                    )
                },
        },
        _ => r == Err::<CompactionResult, CompactionError>(
            CompactionError::Decode(DecodeError::Truncated),
        ),
    }
}

/// Size-tiered compaction: merges several tables into one.
pub struct Compactor {
    block_size: usize,
    index_type: IndexType,
    bloom_bits_per_element: usize,
}

/// All entries of `tables`, table after table.
pub fn collect_entries(tables: &[SSTable]) -> (r: Result<Vec<Entry>, DecodeError>)
    ensures
        match scans_of(tables@) {
            None => r == Err::<Vec<Entry>, DecodeError>(DecodeError::Truncated),
            Some(s) => r matches Ok(v) && entries_view(v@) == s,
        },
{
    let mut all: Vec<Entry> = Vec::new();
    let mut i: usize = 0;
    assert(tables@.subrange(0, 0) =~= Seq::<SSTable>::empty());
    while i < tables.len()
        invariant
            i <= tables@.len(),
            scans_of(tables@.subrange(0, i as int)) == Some(entries_view(all@)),
        decreases tables.len() - i,
    {
        let t = &tables[i];
        let ghost pre = tables@.subrange(0, i as int);
        assert(tables@.subrange(0, i + 1).drop_last() =~= pre);
        assert(tables@.subrange(0, i + 1).last() == *t);
        match t.scan(t.min_key(), t.max_key()) {
            Ok(mut v) => {
                let ghost before = entries_view(all@);
                let ghost part = entries_view(v@);
                all.append(&mut v);
                assert(entries_view(all@) =~= before + part);
            },
            Err(e) => {
                proof {
                    lemma_scans_none(tables@, i as int);
                }
                return Err(e);
            },
        }
        i = i + 1;
    }
    assert(tables@.subrange(0, tables@.len() as int) =~= tables@);
    Ok(all)
}

/// A table that cannot be read makes the scans of every longer run fail.
proof fn lemma_scans_none(ts: Seq<SSTable>, i: int)
    requires
        0 <= i < ts.len(),
        full_scan(ts[i]) is None,
    ensures
        scans_of(ts) is None,
{
    lemma_scans_none_upto(ts, i, ts.len() as int);
    assert(ts.subrange(0, ts.len() as int) =~= ts);
}

proof fn lemma_scans_none_upto(ts: Seq<SSTable>, i: int, n: int)
    requires
        0 <= i < n <= ts.len(),
        full_scan(ts[i]) is None,
    ensures
        scans_of(ts.subrange(0, n)) is None,
    decreases n,
{
    let p = ts.subrange(0, n);
    assert(p.drop_last() =~= ts.subrange(0, n - 1));
    if i < n - 1 {
        lemma_scans_none_upto(ts, i, n - 1);
    } else {
        assert(p.last() == ts[i]);
    }
}

impl Compactor {
    pub closed spec fn spec_block_size(&self) -> usize {
        self.block_size
    }

    pub closed spec fn spec_index_type(&self) -> IndexType {
        self.index_type
    }

    pub closed spec fn spec_bits_per_element(&self) -> usize {
        self.bloom_bits_per_element
    }

    pub fn new(block_size: usize, index_type: IndexType, bloom_bits_per_element: usize) -> (r: Compactor)
        ensures
            r.spec_block_size() == block_size,
            r.spec_index_type() == index_type,
            r.spec_bits_per_element() == bloom_bits_per_element,
    {
        Compactor { block_size, index_type, bloom_bits_per_element }
    }

    /// The entries a compaction of these tables writes: of every key, the
    /// newest version among all of them, in key order, without tombstones
    /// that would be the only version left in a level below level 0.
    pub fn merged_entries(
        &self,
        level_ssts: &[SSTable],
        next_level_ssts: &[SSTable],
        output_level: usize,
    ) -> (r: Result<Vec<Entry>, DecodeError>)
        ensures
            match (
                scans_of(level_ssts@),
                scans_of(next_level_ssts@),
            ) {
                (Some(a), Some(b)) => r matches Ok(v) && newest_per_key(
                    a + b,
                    entries_view(v@),
                    kept_keys(a + b, output_level),
                ),
                _ => r == Err::<Vec<Entry>, DecodeError>(DecodeError::Truncated),
            },
    {
        let mut all = match collect_entries(level_ssts) {
            Ok(v) => v,
            Err(e) => return Err(e),
        };
        let mut older = match collect_entries(next_level_ssts) {
            Ok(v) => v,
            Err(e) => return Err(e),
        };
        let ghost a = entries_view(all@);
        let ghost b = entries_view(older@);
        all.append(&mut older);
        assert(entries_view(all@) =~= a + b);
        let merged = merge_for_compaction(all.as_slice(), output_level);
        assert(kept_keys(a + b, output_level) =~= (|k: Seq<u8>| survives_compaction(
            entries_view(all@),
            k,
            output_level,
        )));
        Ok(merged)
    }

    /// Merge the tables of one level (newer) and the next (older) into one
    /// table written to `output_path` at `output_level`, with the given
    /// stored learned model when the compactor makes learned indexes.
    pub fn compact(
        &self,
        level_ssts: &[SSTable],
        next_level_ssts: &[SSTable],
        output_path: String,
        output_level: usize,
        learned_index: &[u8],
    ) -> (r: Result<CompactionResult, CompactionError>)
        ensures
            compaction_answers(
                level_ssts@,
                next_level_ssts@,
                output_path@,
                output_level,
                self.spec_block_size(),
                self.spec_index_type(),
                self.spec_bits_per_element(),
                learned_index@,
                r,
            ),
    {
        let merged = match self.merged_entries(level_ssts, next_level_ssts, output_level) {
            Ok(v) => v,
            Err(e) => return Err(CompactionError::Decode(e)),
        };
        let ghost m = entries_view(merged@);
        if merged.len() == 0 {
            proof {
                if let (Some(a), Some(b)) = (scans_of(level_ssts@), scans_of(next_level_ssts@)) {
                    assert forall|j: int| 0 <= j < (a + b).len() implies !survives_compaction(
                        a + b,
                        #[trigger] (a + b)[j].key,
                        output_level,
                    ) by {
                        assert(!crate::engine::merge::has_key(m, (a + b)[j].key));
                    }
                }
            }
            return Err(CompactionError::Empty);
        }
        let builder = SSTableBuilder::new(
            output_path,
            self.block_size,
            self.index_type,
            self.bloom_bits_per_element,
        );
        match builder.build_from_entries(merged.as_slice(), learned_index) {
            Ok(res) => {
                let min_key = crate::copy_bytes(&merged[0].key);
                let max_key = crate::copy_bytes(&merged[merged.len() - 1].key);
                assert(m[0] == merged@[0]@);
                assert(m.last() == merged@[merged@.len() - 1]@);
                let out = CompactionResult { sst: res.sst, min_key, max_key, size_bytes: res.size_bytes };
                proof {
                    assert(builder.is_image(out.sst.spec_data(), m, learned_index@));
                    if let (Some(a), Some(b)) = (scans_of(level_ssts@), scans_of(next_level_ssts@)) {
                        assert({
                            &&& newest_per_key(
                                a + b,
                                m,
                                kept_keys(a + b, output_level),
                            )
                            &&& m.len() > 0
                            &&& out.min_key@ == m[0].key
                            &&& out.max_key@ == m.last().key
                            &&& out.size_bytes == out.sst.spec_data().len()
                            &&& out.sst.spec_path() == output_path@
                            &&& (open_outcome(out.sst.spec_data()) matches Ok(p) && opened_as(out.sst, p))
                            &&& table_file_of(
                                out.sst.spec_data(),
                                m,
                                self.spec_block_size(),
                                self.spec_index_type(),
                                self.spec_bits_per_element(),
                                learned_index@,
                            )
                        });
                    }
                }
                return Ok(out);
            },
            Err(e) => {
                assert(e is Decode);
                assert(!crate::engine::table_laws::table_fits(m));
                Err(CompactionError::Build(e))
            },
        }
    }
}


/// A lookup in the table a compaction into `level` wrote answers, for every
/// key, the newest version among the compacted entries when the key
/// survives the compaction, and "not found" when it does not.
pub proof fn lemma_compacted_get(
    t: SSTable,
    all: Seq<EntryView>,
    m: Seq<EntryView>,
    level: usize,
    block_size: usize,
    index_type: IndexType,
    bits_per_element: usize,
    learned: Seq<u8>,
    k: Seq<u8>,
    r: Result<LookupResult, DecodeError>,
)
    requires
        newest_per_key(all, m, kept_keys(all, level)),
        crate::engine::table_laws::table_fits(m),
        table_file_of(t.spec_data(), m, block_size, index_type, bits_per_element, learned),
        open_outcome(t.spec_data()) matches Ok(p) && opened_as(t, p),
        get_answers(t, k, r),
    ensures
        r matches Ok(a) && reports(
            a,
            if survives_compaction(all, k, level) {
                newest_version(all, k)
            } else {
                None
            },
        ),
{
    assert(crate::engine::table_laws::strictly_sorted(m));
    crate::engine::table_laws::lemma_strictly_sorted(m);
    crate::engine::table_laws::lemma_built_table_get(
        t,
        m,
        block_size,
        index_type,
        bits_per_element,
        learned,
        k,
        r,
    );
    if exists|i: int| 0 <= i < m.len() && m[i].key == k {
        let i = choose|i: int| 0 <= i < m.len() && m[i].key == k;
        assert(newest_version(all, m[i].key) == Some(m[i]));
        assert(kept_keys(all, level)(m[i].key));
        crate::engine::table_laws::lemma_unique_newest(m, k, i);
    } else {
        assert forall|i: int| 0 <= i < m.len() implies #[trigger] m[i].key != k by {}
        assert(!exists|i: int| crate::versions::is_newest_at(m, k, i));
        if survives_compaction(all, k, level) {
            if exists|j: int| 0 <= j < all.len() && all[j].key == k {
                let j = choose|j: int| 0 <= j < all.len() && all[j].key == k;
                assert(kept_keys(all, level)(all[j].key));
                assert(has_key(m, all[j].key));
            } else {
                assert(!exists|i: int| crate::versions::is_newest_at(all, k, i));
            }
        }
    }
}

} // verus!
