//! The engine's state and its decisions: sequence numbers, the memtable,
//! the tables by level and the manifest. Each step says what file work it
//! needs (a record to log, a table file to write, files to remove); the
//! caller does that work between the steps.
use vstd::prelude::*;

use crate::engine::block::DecodeError;
use crate::engine::compaction::{
    compaction_answers, kept_keys, scans_of, CompactionError, CompactionResult,
    Compactor,
};
use crate::engine::levels::{
    collect_answers, get_from, lemma_search_order_skip, scan_from, search_answers, search_order,
    search_ok, tables_wf, visible_keys, Levels,
};
use crate::engine::manifest::{record_of, without_id, Manifest, RecordView, SSTableMeta};
use crate::engine::memtable::Memtable;
use crate::engine::merge::{newest_per_key, survives_compaction};
use crate::engine::sstable::{
    build_answers, open_outcome, opened_as, table_file_of, BuildError, SSTable, SSTableBuildResult,
    SSTableBuilder,
};
use crate::engine::format::{encode_entries, entry_fits};
use crate::engine::table_laws::{flatten, lemma_built_table_first, table_fits};
use crate::engine::search_laws::{
    lemma_collect_holder_first, lemma_compacted_search, lemma_read_tables, lemma_search_order_split, lemma_search_prefix,
    newer_first, table_built,
};
use crate::engine::wal::{lemma_replay_written, log_entries};
use crate::versions::{
    entries_view, insert_pos, is_newest_at, lemma_ordered_insert, lemma_search_pos, memtable_ordered,
    newest_version, select_range, sorted_by_key, total_size,
};
use crate::{reports, Entry, EntryView, IndexType, Key, LookupResult, Sequence, Value};

verus! {

/// The settings the engine's decisions depend on.
#[derive(Clone, Copy)]
pub struct StoreConfig {
    pub memtable_size_bytes: usize,
    pub block_size_bytes: usize,
    pub index_type: IndexType,
    pub sstable_level0_max: usize,
    pub bloom_bits_per_element: usize,
}

/// Why a write could not be taken.
#[derive(Debug, Clone, Copy, PartialEq, Eq, Structural)]
pub enum StoreError {
    /// The memtable's size accounting cannot take the write.
    Full,
}

/// The engine's state.
pub struct Store {
    config: StoreConfig,
    memtable: Memtable,
    levels: Levels,
    manifest: Manifest,
    next_sequence: u64,
    next_sst_id: u64,
}

/// The entries of `s` put one by one, in order, into a memtable holding `m`.
pub open spec fn put_all(m: Seq<EntryView>, s: Seq<EntryView>) -> Seq<EntryView>
    decreases s.len(),
{
    if s.len() == 0 {
        m
    } else {
        let prev = put_all(m, s.drop_last());
        prev.insert(insert_pos(prev, s.last()), s.last())
    }
}

/// What a memtable holds after a run of writes from empty: every entry
/// written, each once (the same multiset of entries, tombstones included),
/// in key order with the versions of each key from the newest down.
pub proof fn lemma_put_all_holds_writes(s: Seq<EntryView>)
    ensures
        put_all(Seq::<EntryView>::empty(), s).to_multiset() == s.to_multiset(),
        put_all(Seq::<EntryView>::empty(), s).len() == s.len(),
        memtable_ordered(put_all(Seq::<EntryView>::empty(), s)),
    decreases s.len(),
{
    if s.len() == 0 {
        assert(s =~= Seq::<EntryView>::empty());
    } else {
        let init = s.drop_last();
        lemma_put_all_holds_writes(init);
        let prev = put_all(Seq::<EntryView>::empty(), init);
        let e = s.last();
        lemma_search_pos(prev, e.key, Some(e.sequence));
        lemma_ordered_insert(prev, e);
        vstd::seq_lib::to_multiset_insert(prev, insert_pos(prev, e), e);
        vstd::seq_lib::to_multiset_build(init, e);
        assert(init.push(e) =~= s);
    }
}

/// Level `i` of the levels `ls`, or no tables when there is no such level.
pub open spec fn level_or_empty(ls: Seq<Seq<SSTable>>, i: int) -> Seq<SSTable> {
    if 0 <= i < ls.len() {
        ls[i]
    } else {
        Seq::<SSTable>::empty()
    }
}

/// A call that changes what a memtable holds: a put of an entry, or a
/// clear.
pub enum MemtableCall {
    Put(EntryView),
    Clear,
}

/// What a new memtable holds after the calls `calls`, by the contracts of
/// [`Memtable::put`] and [`Memtable::clear`].
pub open spec fn after_calls(calls: Seq<MemtableCall>) -> Seq<EntryView>
    decreases calls.len(),
{
    if calls.len() == 0 {
        Seq::empty()
    } else {
        let prev = after_calls(calls.drop_last());
        match calls.last() {
            MemtableCall::Put(e) => prev.insert(insert_pos(prev, e), e),
            MemtableCall::Clear => Seq::empty(),
        }
    }
}

/// The entries put by `calls` since their last clear, in order.
pub open spec fn puts_since_clear(calls: Seq<MemtableCall>) -> Seq<EntryView>
    decreases calls.len(),
{
    if calls.len() == 0 {
        Seq::empty()
    } else {
        match calls.last() {
            MemtableCall::Put(e) => puts_since_clear(calls.drop_last()).push(e),
            MemtableCall::Clear => Seq::empty(),
        }
    }
}

/// What a memtable holds after any run of puts and clears from new: every
/// entry put since the last clear, each once (the same multiset of
/// entries, tombstones included), in key order with the versions of each
/// key from the newest down.
pub proof fn lemma_memtable_calls(calls: Seq<MemtableCall>)
    ensures
        after_calls(calls) == put_all(Seq::<EntryView>::empty(), puts_since_clear(calls)),
        after_calls(calls).to_multiset() == puts_since_clear(calls).to_multiset(),
        after_calls(calls).len() == puts_since_clear(calls).len(),
        memtable_ordered(after_calls(calls)),
    decreases calls.len(),
{
    if calls.len() > 0 {
        lemma_memtable_calls(calls.drop_last());
        match calls.last() {
            MemtableCall::Put(e) => {
                let p = puts_since_clear(calls.drop_last());
                assert(p.push(e).drop_last() =~= p);
            },
            MemtableCall::Clear => {},
        }
    }
    lemma_put_all_holds_writes(puts_since_clear(calls));
}

/// The largest sequence number in `s`, 0 when it is empty.
pub open spec fn max_sequence(s: Seq<EntryView>) -> u64
    decreases s.len(),
{
    if s.len() == 0 {
        0
    } else {
        let m = max_sequence(s.drop_last());
        if s.last().sequence > m {
            s.last().sequence
        } else {
            m
        }
    }
}

/// A memtable holding `m` can take `e`: its entry count and its charged
/// size stay within the machine's limits.
pub open spec fn room_for(m: Seq<EntryView>, e: EntryView) -> bool {
    m.len() + 2 < usize::MAX / 16 && total_size(m) + crate::entry_size(e) <= usize::MAX
}

/// Once the first `k` entries of `s` are put into a memtable holding `m`,
/// it can take entry `k`.
pub open spec fn fits_at(m: Seq<EntryView>, s: Seq<EntryView>, k: int) -> bool {
    room_for(put_all(m, s.subrange(0, k)), s[k])
}

/// The levels `ls` after a flush added table `t`: `t` becomes the newest
/// table of level 0 (created when there is no level yet).
pub open spec fn flushed_levels(ls: Seq<Seq<SSTable>>, t: SSTable) -> Seq<Seq<SSTable>> {
    if ls.len() > 0 {
        ls.update(0, ls[0].push(t))
    } else {
        seq![seq![t]]
    }
}

impl Store {
    pub closed spec fn spec_config(&self) -> StoreConfig {
        self.config
    }

    /// The memtable's entries, in key order.
    pub closed spec fn mem(&self) -> Seq<EntryView> {
        self.memtable@
    }

    /// The tables, level by level.
    pub closed spec fn tables(&self) -> Seq<Seq<SSTable>> {
        self.levels@
    }

    /// The manifest's records.
    pub closed spec fn records(&self) -> Seq<RecordView> {
        self.manifest@
    }

    pub closed spec fn spec_manifest_path(&self) -> Seq<char> {
        self.manifest.spec_path()
    }

    pub closed spec fn spec_next_sequence(&self) -> u64 {
        self.next_sequence
    }

    pub closed spec fn spec_next_id(&self) -> u64 {
        self.next_sst_id
    }

    /// The memtable is consistent and every table can be read.
    pub closed spec fn wf(&self) -> bool {
        &&& self.memtable.wf()
        &&& tables_wf(self.levels@)
    }

    /// An engine state with an empty memtable, the given tables and
    /// manifest, and sequence numbers and table ids starting at 1.
    pub fn new(config: StoreConfig, levels: Vec<Vec<SSTable>>, manifest: Manifest) -> (r: Store)
        requires
            tables_wf(levels@.map_values(|l: Vec<SSTable>| l@)),
        ensures
            r.wf(),
            r.spec_config() == config,
            r.mem() == Seq::<EntryView>::empty(),
            r.tables() == levels@.map_values(|l: Vec<SSTable>| l@),
            r.records() == manifest@,
            r.spec_manifest_path() == manifest.spec_path(),
            r.spec_next_sequence() == 1,
            r.spec_next_id() == 1,
    {
        Store {
            config,
            memtable: Memtable::new(config.memtable_size_bytes),
            levels: Levels::new(levels),
            manifest,
            next_sequence: 1,
            next_sst_id: 1,
        }
    }

    /// Put the entries read back from the log into the memtable, in order,
    /// and continue the sequence numbers after the largest of them (when
    /// there is one above 0).
    pub fn replay(&mut self, entries: Vec<Entry>) -> (r: Result<(), StoreError>)
        requires
            old(self).wf(),
        ensures
            final(self).wf(),
            final(self).spec_config() == old(self).spec_config(),
            final(self).tables() == old(self).tables(),
            final(self).records() == old(self).records(),
            final(self).spec_next_id() == old(self).spec_next_id(),
            r is Ok <==> forall|k: int|
                0 <= k < entries@.len() ==> #[trigger] fits_at(old(self).mem(), entries_view(entries@), k),
            r is Ok ==> {
                &&& final(self).mem() == put_all(old(self).mem(), entries_view(entries@))
                &&& final(self).spec_next_sequence() == if max_sequence(entries_view(entries@)) > 0 {
                    if max_sequence(entries_view(entries@)) < u64::MAX {
                        (max_sequence(entries_view(entries@)) + 1) as u64
                    } else {
                        0
                    }
                } else {
                    old(self).spec_next_sequence()
                }
            },
            r is Err ==> {
                &&& r == Err::<(), StoreError>(StoreError::Full)
                &&& final(self).spec_next_sequence() == old(self).spec_next_sequence()
                &&& exists|k: int|
                    0 <= k < entries@.len() && final(self).mem() == put_all(
                        old(self).mem(),
                        entries_view(entries@).subrange(0, k),
                    ) && !room_for(final(self).mem(), #[trigger] entries_view(entries@)[k])
            },
    {
        let ghost s = entries_view(entries@);
        let ghost m0 = self.memtable@;
        let mut max_seq: u64 = 0;
        let mut rest = entries;
        let ghost mut k: int = 0;
        assert(s.subrange(0, 0) =~= Seq::<EntryView>::empty());
        assert(entries_view(rest@) =~= s.subrange(0, s.len() as int));
        while rest.len() > 0
            invariant
                self.memtable.wf(),
                tables_wf(self.levels@),
                self.config == old(self).config,
                self.levels@ == old(self).levels@,
                self.manifest@ == old(self).manifest@,
                self.manifest.spec_path() == old(self).manifest.spec_path(),
                self.next_sequence == old(self).next_sequence,
                self.next_sst_id == old(self).next_sst_id,
                0 <= k <= s.len(),
                entries_view(rest@) == s.subrange(k, s.len() as int),
                self.memtable@ == put_all(m0, s.subrange(0, k)),
                max_seq == max_sequence(s.subrange(0, k)),
                forall|j: int| 0 <= j < k ==> #[trigger] fits_at(m0, s, j),
                s == entries_view(entries@),
                m0 == old(self).memtable@,
            decreases rest.len(),
        {
            let ghost old_rest = rest@;
            assert(entries_view(old_rest).len() == old_rest.len());
            assert(entries_view(old_rest)[0] == s.subrange(k, s.len() as int)[0]);
            let e = rest.remove(0);
            assert(e@ == s[k]);
            assert forall|j: int| 0 <= j < rest@.len() implies #[trigger] entries_view(rest@)[j]
                == s.subrange(k + 1, s.len() as int)[j] by {
                assert(rest@[j] == old_rest[j + 1]);
                assert(entries_view(old_rest)[j + 1] == s.subrange(k, s.len() as int)[j + 1]);
            }
            assert(entries_view(rest@) =~= s.subrange(k + 1, s.len() as int));
            let vlen: usize = match &e.value {
                Some(v) => v.len(),
                None => 0,
            };
            if !self.memtable.has_room(e.key.len(), vlen) {
                proof {
                    assert(!fits_at(old(self).mem(), entries_view(entries@), k));
                    assert(k < entries@.len());
                }
                return Err(StoreError::Full);
            }
            if e.sequence > max_seq {
                max_seq = e.sequence;
            }
            let ghost ev = e@;
            self.memtable.put(e.key, e.value, e.sequence);
            proof {
                assert(s.subrange(0, k + 1).drop_last() =~= s.subrange(0, k));
                assert(s.subrange(0, k + 1).last() == ev);
                k = k + 1;
            }
        }
        assert(s.subrange(0, k) =~= s);
        if max_seq > 0 {
            self.next_sequence = max_seq.wrapping_add(1);
            assert(max_seq < u64::MAX ==> self.next_sequence == max_seq + 1);
            assert(max_seq == u64::MAX ==> self.next_sequence == 0);
        }
        Ok(())
    }

    /// The write of `value` (a tombstone when `None`) to `key`, under the
    /// next sequence number: the entry to log before it is applied.
    pub fn next_write(&mut self, key: Key, value: Option<Value>) -> (r: Entry)
        ensures
            r.key == key,
            r.value == value,
            r.sequence == old(self).spec_next_sequence(),
            final(self).spec_next_sequence() == if old(self).spec_next_sequence() < u64::MAX {
                (old(self).spec_next_sequence() + 1) as u64
            } else {
                0
            },
            final(self).wf() == old(self).wf(),
            final(self).spec_config() == old(self).spec_config(),
            final(self).mem() == old(self).mem(),
            final(self).tables() == old(self).tables(),
            final(self).records() == old(self).records(),
            final(self).spec_manifest_path() == old(self).spec_manifest_path(),
            final(self).spec_next_id() == old(self).spec_next_id(),
    {
        let seq: Sequence = self.next_sequence;
        self.next_sequence = self.next_sequence.wrapping_add(1);
        Entry::new(key, value, seq)
    }

    /// Apply a logged write to the memtable: whether the memtable is then
    /// due to be flushed (it holds at least its configured size).
    pub fn apply(&mut self, entry: Entry) -> (r: Result<bool, StoreError>)
        requires
            old(self).wf(),
        ensures
            final(self).wf(),
            final(self).spec_config() == old(self).spec_config(),
            final(self).tables() == old(self).tables(),
            final(self).records() == old(self).records(),
            final(self).spec_manifest_path() == old(self).spec_manifest_path(),
            final(self).spec_next_sequence() == old(self).spec_next_sequence(),
            final(self).spec_next_id() == old(self).spec_next_id(),
            r is Ok <==> room_for(old(self).mem(), entry@),
            match r {
                Err(e) => {
                    &&& e == StoreError::Full
                    &&& final(self).mem() == old(self).mem()
                },
                Ok(due) => {
                    &&& final(self).mem() == old(self).mem().insert(
                        insert_pos(old(self).mem(), entry@),
                        entry@,
                    )
                    &&& due == (total_size(final(self).mem()) >= old(self).spec_config().memtable_size_bytes)
                },
            },
    {
        let vlen: usize = match &entry.value {
            Some(v) => v.len(),
            None => 0,
        };
        if !self.memtable.has_room(entry.key.len(), vlen) {
            return Err(StoreError::Full);
        }
        self.memtable.put(entry.key, entry.value, entry.sequence);
        Ok(self.memtable.size_bytes() >= self.config.memtable_size_bytes)
    }

    /// Look `key` up: the memtable first, then the tables in search order;
    /// a key whose newest version found is a tombstone is not found.
    pub fn get(&self, key: &[u8]) -> (r: Result<LookupResult, DecodeError>)
        requires
            self.wf(),
            lookup_answerable(*self, key@),
        ensures
            store_answers(*self, key@, r),
    {
        match self.try_get(key) {
            Some(r) => r,
            None => Ok(LookupResult::NotFound),
        }
    }

    /// Look `key` up as [`Store::get`] does, or `None` when the search
    /// reaches a table that cannot answer the lookup (its filter cannot be
    /// queried for `key`).
    pub fn try_get(&self, key: &[u8]) -> (r: Option<Result<LookupResult, DecodeError>>)
        requires
            self.wf(),
        ensures
            r is None ==> !lookup_answerable(*self, key@),
            r matches Some(a) ==> store_answers(*self, key@, a),
    {
        match get_from(&self.memtable, &self.levels, key) {
            None => None,
            Some(found) => match found {
                Ok(LookupResult::Tombstone) => Some(Ok(LookupResult::NotFound)),
                _ => Some(found),
            },
        }
    }

    /// Scan `[start, end]`: the newest version of each key in the memtable
    /// and the tables, in key order, without tombstones.
    pub fn scan(&self, start: &[u8], end: &[u8]) -> (r: Result<Vec<Entry>, DecodeError>)
        requires
            self.wf(),
        ensures
            store_scans(*self, start@, end@, scan_view(r)),
    {
        let r = scan_from(&self.memtable, &self.levels, start, end);
        proof {
            if r is Ok {
                let v = r->Ok_0;
                let c = choose|c: Seq<EntryView>|
                    #![trigger collect_answers(search_order(self.levels@), start@, end@, Ok::<Seq<EntryView>, DecodeError>(c))]
                    collect_answers(
                        search_order(self.levels@),
                        start@,
                        end@,
                        Ok::<Seq<EntryView>, DecodeError>(c),
                    ) && newest_per_key(
                        select_range(self.memtable@, start@, end@) + c,
                        entries_view(v@),
                        visible_keys(select_range(self.memtable@, start@, end@) + c),
                    );
                assert(collect_answers(
                    search_order(self.tables()),
                    start@,
                    end@,
                    Ok::<Seq<EntryView>, DecodeError>(c),
                ));
            }
        }
        r
    }

    /// The number of entries in the memtable.
    pub fn memtable_len(&self) -> (r: usize)
        requires
            self.wf(),
        ensures
            r == self.mem().len(),
    {
        self.memtable.len()
    }

    /// The number of levels and the number of tables at `level`.
    pub fn levels(&self) -> (r: &Levels)
        ensures
            r@ == self.tables(),
    {
        &self.levels
    }

    /// The manifest.
    pub fn manifest(&self) -> (r: &Manifest)
        ensures
            r@ == self.records(),
            r.spec_path() == self.spec_manifest_path(),
    {
        &self.manifest
    }

    /// The id for the next table.
    pub fn take_table_id(&mut self) -> (r: u64)
        ensures
            r == old(self).spec_next_id(),
            final(self).spec_next_id() == if old(self).spec_next_id() < u64::MAX {
                (old(self).spec_next_id() + 1) as u64
            } else {
                0
            },
            final(self).wf() == old(self).wf(),
            final(self).spec_config() == old(self).spec_config(),
            final(self).mem() == old(self).mem(),
            final(self).tables() == old(self).tables(),
            final(self).records() == old(self).records(),
            final(self).spec_manifest_path() == old(self).spec_manifest_path(),
            final(self).spec_next_sequence() == old(self).spec_next_sequence(),
    {
        let id = self.next_sst_id;
        self.next_sst_id = self.next_sst_id.wrapping_add(1);
        id
    }

    /// The memtable's entries, in key order (what a flush writes).
    pub fn memtable_entries(&self) -> (r: Vec<Entry>)
        requires
            self.wf(),
        ensures
            entries_view(r@) == self.mem(),
    {
        let mut out: Vec<Entry> = Vec::new();
        let mut it = self.memtable.iter();
        loop
            invariant
                it.valid(),
                it.items() == self.mem(),
                0 <= it.position() <= self.mem().len(),
                entries_view(out@) == self.mem().subrange(0, it.position()),
            ensures
                entries_view(out@) == self.mem(),
            decreases self.mem().len() - it.position(),
        {
            let ghost p = it.position();
            match it.next() {
                Some(e) => {
                    let ghost before = entries_view(out@);
                    out.push(e.duplicate());
                    assert(entries_view(out@) =~= before.push(self.mem()[p]));
                    assert(self.mem().subrange(0, p + 1) =~= self.mem().subrange(0, p).push(
                        self.mem()[p],
                    ));
                },
                None => {
                    assert(self.mem().subrange(0, p) =~= self.mem());
                    break;
                },
            }
        }
        out
    }

    /// Build the table a flush of `entries` (the memtable's entries) writes
    /// at `path`, with the given stored learned model when the engine makes
    /// learned indexes.
    pub fn build_flush(&self, entries: &[Entry], path: String, learned: &[u8]) -> (r: Result<
        SSTableBuildResult,
        BuildError,
    >)
        ensures
            build_answers(
                path@,
                self.spec_config().block_size_bytes,
                self.spec_config().index_type,
                self.spec_config().bloom_bits_per_element,
                entries_view(entries@),
                learned@,
                r,
            ),
    {
        let builder = SSTableBuilder::new(
            path,
            self.config.block_size_bytes,
            self.config.index_type,
            self.config.bloom_bits_per_element,
        );
        builder.build_from_entries(entries, learned)
    }

    /// Take in the table a flush wrote (with id `id`, at `path`): it
    /// becomes the newest table of level 0, the manifest records it and the
    /// memtable is emptied. Whether level 0 is then due to be compacted.
    pub fn commit_flush(&mut self, id: u64, path: String, result: SSTableBuildResult) -> (r: bool)
        requires
            old(self).wf(),
            result.sst.wf(),
        ensures
            final(self).wf(),
            final(self).spec_config() == old(self).spec_config(),
            final(self).mem() == Seq::<EntryView>::empty(),
            final(self).tables().len() == if old(self).tables().len() > 0 {
                old(self).tables().len() as int
            } else {
                1
            },
            final(self).tables()[0] == (if old(self).tables().len() > 0 {
                old(self).tables()[0]
            } else {
                Seq::<SSTable>::empty()
            }).push(result.sst),
            forall|i: int| 1 <= i < final(self).tables().len() ==> #[trigger] final(self).tables()[i]
                == old(self).tables()[i],
            final(self).tables() == flushed_levels(old(self).tables(), result.sst),
            final(self).records() == old(self).records().push(
                RecordView {
                    id,
                    level: 0,
                    min_key: result.min_key@,
                    max_key: result.max_key@,
                    size_bytes: result.size_bytes,
                    index_type: old(self).spec_config().index_type,
                },
            ),
            final(self).spec_manifest_path() == old(self).spec_manifest_path(),
            final(self).spec_next_sequence() == old(self).spec_next_sequence(),
            final(self).spec_next_id() == old(self).spec_next_id(),
            r == (final(self).tables()[0].len() >= old(self).spec_config().sstable_level0_max),
    {
        let meta = SSTableMeta {
            id,
            level: 0,
            path,
            min_key: result.min_key,
            max_key: result.max_key,
            size_bytes: result.size_bytes,
            index_type: self.config.index_type,
        };
        let ghost t = result.sst;
        let ghost old_tables = self.levels@;
        self.levels.add_table(0, result.sst);
        proof {
            assert forall|i: int, j: int|
                0 <= i < self.levels@.len() && 0 <= j < self.levels@[i].len() implies (
            #[trigger] self.levels@[i][j]).wf() by {
                if i == 0 && j == self.levels@[0].len() - 1 {
                    assert(self.levels@[i][j] == t);
                } else if i < old_tables.len() {
                    assert(self.levels@[i][j] == old_tables[i][j]);
                }
            }
        }
        assert(self.levels@ =~= flushed_levels(old_tables, t));
        self.manifest.add(meta);
        self.memtable.clear();
        self.levels.needs_compaction(self.config.sstable_level0_max)
    }

    /// Start a compaction of `level` into the next: make levels
    /// `0..=level + 1` exist and take the tables of both out of the levels
    /// (`level`'s, newer, then the next level's, older), leaving both empty.
    /// Tables taken out are the caller's: they are gone from the levels
    /// whatever becomes of the compaction (none of `level`'s, say).
    pub fn prepare_compaction(&mut self, level: usize) -> (r: (Vec<SSTable>, Vec<SSTable>))
        requires
            old(self).wf(),
            level + 1 < usize::MAX,
        ensures
            final(self).wf(),
            level + 1 < final(self).tables().len(),
            final(self).tables().len() == if old(self).tables().len() > level + 1 {
                old(self).tables().len() as int
            } else {
                level + 2
            },
            r.0@ == level_or_empty(old(self).tables(), level as int),
            r.1@ == level_or_empty(old(self).tables(), level + 1),
            forall|i: int| #![trigger final(self).tables()[i]]
                0 <= i < final(self).tables().len() ==> final(self).tables()[i] == if i == level || i == level
                    + 1 {
                    Seq::<SSTable>::empty()
                } else {
                    level_or_empty(old(self).tables(), i)
                },
            forall|i: int| 0 <= i < r.0@.len() ==> (#[trigger] r.0@[i]).wf(),
            forall|i: int| 0 <= i < r.1@.len() ==> (#[trigger] r.1@[i]).wf(),
            final(self).spec_config() == old(self).spec_config(),
            final(self).mem() == old(self).mem(),
            final(self).records() == old(self).records(),
            final(self).spec_manifest_path() == old(self).spec_manifest_path(),
            final(self).spec_next_sequence() == old(self).spec_next_sequence(),
            final(self).spec_next_id() == old(self).spec_next_id(),
    {
        let ghost pre = self.levels@;
        self.levels.ensure_level(level + 1);
        let ghost ext = self.levels@;
        let newer = self.levels.take_level(level);
        let older = self.levels.take_level(level + 1);
        proof {
            assert forall|i: int| 0 <= i < ext.len() implies #[trigger] ext[i] == level_or_empty(pre, i) by {}
            assert forall|i: int, j: int|
                0 <= i < self.levels@.len() && 0 <= j < self.levels@[i].len() implies (
            #[trigger] self.levels@[i][j]).wf() by {
                assert(i < pre.len());
                assert(self.levels@[i] == pre[i]);
            }
            assert forall|j: int| 0 <= j < newer@.len() implies (#[trigger] newer@[j]).wf() by {
                assert(newer@[j] == pre[level as int][j]);
            }
            assert forall|j: int| 0 <= j < older@.len() implies (#[trigger] older@[j]).wf() by {
                assert(older@[j] == pre[level + 1][j]);
            }
        }
        (newer, older)
    }

    /// The entries a compaction of the tables `newer` (of `level`) and
    /// `older` (of the next level) writes (what a learned model for the
    /// output is trained on).
    pub fn compaction_entries(&self, newer: &[SSTable], older: &[SSTable], level: usize) -> (r: Result<
        Vec<Entry>,
        DecodeError,
    >)
        requires
            level + 1 < usize::MAX,
        ensures
            match (scans_of(newer@), scans_of(older@)) {
                (Some(a), Some(b)) => r matches Ok(v) && newest_per_key(
                    a + b,
                    entries_view(v@),
                    kept_keys(a + b, (level + 1) as usize),
                ),
                _ => r == Err::<Vec<Entry>, DecodeError>(DecodeError::Truncated),
            },
    {
        let compactor = Compactor::new(
            self.config.block_size_bytes,
            self.config.index_type,
            self.config.bloom_bits_per_element,
        );
        compactor.merged_entries(newer, older, level + 1)
    }

    /// Build the table a compaction of the tables `newer` (of `level`) and
    /// `older` (of the next level) writes at `path`, with the given stored
    /// learned model when the engine makes learned indexes.
    pub fn build_compaction(
        &self,
        newer: &[SSTable],
        older: &[SSTable],
        level: usize,
        path: String,
        learned: &[u8],
    ) -> (r: Result<CompactionResult, CompactionError>)
        requires
            level + 1 < usize::MAX,
        ensures
            compaction_answers(
                newer@,
                older@,
                path@,
                (level + 1) as usize,
                self.spec_config().block_size_bytes,
                self.spec_config().index_type,
                self.spec_config().bloom_bits_per_element,
                learned@,
                r,
            ),
    {
        let compactor = Compactor::new(
            self.config.block_size_bytes,
            self.config.index_type,
            self.config.bloom_bits_per_element,
        );
        compactor.compact(newer, older, path, level + 1, learned)
    }

    /// Forget the manifest records of the tables `ts`, one after another.
    fn forget_tables(&mut self, ts: &[SSTable])
        requires
            old(self).wf(),
        ensures
            final(self).wf(),
            final(self).records() == without_ids(old(self).records(), ids_of(ts@)),
            final(self).tables() == old(self).tables(),
            final(self).spec_config() == old(self).spec_config(),
            final(self).mem() == old(self).mem(),
            final(self).spec_manifest_path() == old(self).spec_manifest_path(),
            final(self).spec_next_sequence() == old(self).spec_next_sequence(),
            final(self).spec_next_id() == old(self).spec_next_id(),
    {
        let ghost recs = self.manifest@;
        let mut i: usize = 0;
        while i < ts.len()
            invariant
                i <= ts@.len(),
                self.levels@ == old(self).levels@,
                self.memtable.wf(),
                self.memtable@ == old(self).memtable@,
                self.config == old(self).config,
                self.next_sequence == old(self).next_sequence,
                self.next_sst_id == old(self).next_sst_id,
                self.manifest@ == without_ids(recs, ids_of(ts@.subrange(0, i as int))),
                self.manifest.spec_path() == old(self).manifest.spec_path(),
                recs == old(self).manifest@,
                tables_wf(self.levels@),
            decreases ts.len() - i,
        {
            let tid = ts[i].id();
            self.manifest.remove(tid);
            proof {
                let ids = ids_of(ts@.subrange(0, i + 1));
                assert(ts@.subrange(0, i + 1).drop_last() =~= ts@.subrange(0, i as int));
                assert(ids.drop_last() =~= ids_of(ts@.subrange(0, i as int)));
                assert(ids.last() == tid);
            }
            i = i + 1;
        }
        assert(ts@.subrange(0, ts@.len() as int) =~= ts@);
    }

    /// Take in the table a compaction of `level` wrote (with id `id`, at
    /// `path`) from the tables `newer` and `older` that
    /// [`Store::prepare_compaction`] took out: the manifest forgets those
    /// tables and records the new one, which becomes the only table of the
    /// next level; `level` is left empty.
    pub fn commit_compaction(
        &mut self,
        level: usize,
        id: u64,
        path: String,
        result: CompactionResult,
        newer: &[SSTable],
        older: &[SSTable],
    )
        requires
            old(self).wf(),
            result.sst.wf(),
            level + 1 < old(self).tables().len(),
            level + 1 < usize::MAX,
        ensures
            final(self).wf(),
            final(self).tables() == old(self).tables().update(level as int, Seq::<SSTable>::empty()).update(
                level + 1,
                seq![result.sst],
            ),
            final(self).records() == without_ids(
                without_ids(old(self).records(), ids_of(newer@)),
                ids_of(older@),
            ).push(
                RecordView {
                    id,
                    level: (level + 1) as usize,
                    min_key: result.min_key@,
                    max_key: result.max_key@,
                    size_bytes: result.size_bytes,
                    index_type: old(self).spec_config().index_type,
                },
            ),
            final(self).spec_config() == old(self).spec_config(),
            final(self).mem() == old(self).mem(),
            final(self).spec_manifest_path() == old(self).spec_manifest_path(),
            final(self).spec_next_sequence() == old(self).spec_next_sequence(),
            final(self).spec_next_id() == old(self).spec_next_id(),
    {
        self.forget_tables(newer);
        self.forget_tables(older);
        let ghost t = result.sst;
        let ghost pre = self.levels@;
        let cleared: Vec<SSTable> = Vec::new();
        self.levels.set_level(level, cleared);
        let mut out: Vec<SSTable> = Vec::new();
        out.push(result.sst);
        self.levels.set_level(level + 1, out);
        proof {
            assert(self.levels@ =~= pre.update(level as int, Seq::<SSTable>::empty()).update(
                level + 1,
                seq![t],
            ));
            assert forall|a: int, b: int|
                0 <= a < self.levels@.len() && 0 <= b < self.levels@[a].len() implies (
            #[trigger] self.levels@[a][b]).wf() by {
                if a == level + 1 {
                    assert(self.levels@[a][b] == t);
                } else {
                    assert(self.levels@[a] == pre[a]);
                }
            }
        }
        self.manifest.add(
            SSTableMeta {
                id,
                level: level + 1,
                path,
                min_key: result.min_key,
                max_key: result.max_key,
                size_bytes: result.size_bytes,
                index_type: self.config.index_type,
            },
        );
    }
}

/// A lookup of `key` can be answered: the memtable holds a version of it,
/// or the search of the tables reaches no table that cannot answer it.
pub open spec fn lookup_answerable(st: Store, key: Seq<u8>) -> bool {
    newest_version(st.mem(), key) is Some || search_ok(search_order(st.tables()), key)
}

/// `r` is what the read path finds for `key`: the key's newest version in
/// the memtable if it has one, else the answer of the tables in search
/// order (a tombstone included).
pub open spec fn path_answers(st: Store, key: Seq<u8>, r: Result<LookupResult, DecodeError>) -> bool {
    match newest_version(st.mem(), key) {
        Some(e) => r is Ok && reports(r->Ok_0, Some(e)),
        None => search_answers(search_order(st.tables()), key, r),
    }
}

/// `r` is what a lookup of `key` in the engine answers: what the read path
/// finds, except that a tombstone found answers "not found".
pub open spec fn store_answers(st: Store, key: Seq<u8>, r: Result<LookupResult, DecodeError>) -> bool {
    &&& r != Ok::<LookupResult, DecodeError>(LookupResult::Tombstone)
    &&& (path_answers(st, key, r) || (r == Ok::<LookupResult, DecodeError>(LookupResult::NotFound)
        && path_answers(st, key, Ok::<LookupResult, DecodeError>(LookupResult::Tombstone))))
}

/// `r` is what the engine shows for a key whose newest version is `v`: its
/// value, or "not found" when there is none or it is a tombstone.
pub open spec fn shows(r: LookupResult, v: Option<EntryView>) -> bool {
    match v {
        Some(e) => match e.value {
            Some(val) => r matches LookupResult::Found(f) && f@ == val,
            None => r is NotFound,
        },
        None => r is NotFound,
    }
}

/// What the read path finds after a step, it could have found before:
/// then the same holds of what a lookup answers.
proof fn lemma_answers_follow(before: Store, after: Store, k: Seq<u8>, r: Result<LookupResult, DecodeError>)
    requires
        forall|r2: Result<LookupResult, DecodeError>|
            #[trigger] path_answers(after, k, r2) ==> path_answers(before, k, r2),
        store_answers(after, k, r),
    ensures
        store_answers(before, k, r),
{
    assert(path_answers(after, k, r) ==> path_answers(before, k, r));
    assert(path_answers(after, k, Ok::<LookupResult, DecodeError>(LookupResult::Tombstone))
        ==> path_answers(before, k, Ok::<LookupResult, DecodeError>(LookupResult::Tombstone)));
}

/// The entries a scan gives, or its error.
pub open spec fn scan_view(r: Result<Vec<Entry>, DecodeError>) -> Result<Seq<EntryView>, DecodeError> {
    match r {
        Ok(v) => Ok(entries_view(v@)),
        Err(e) => Err(e),
    }
}

/// `r` is what a scan of `[start, end]` over the engine gives: of every key
/// among the memtable's entries in the range followed by what the tables'
/// scans collect (in search order), the newest version, in key order and
/// without tombstones; or the error of a table that cannot be read.
pub open spec fn store_scans(
    st: Store,
    start: Seq<u8>,
    end: Seq<u8>,
    r: Result<Seq<EntryView>, DecodeError>,
) -> bool {
    match r {
        Ok(v) => exists|c: Seq<EntryView>|
            #![trigger collect_answers(search_order(st.tables()), start, end, Ok::<Seq<EntryView>, DecodeError>(c))]
            collect_answers(search_order(st.tables()), start, end, Ok::<Seq<EntryView>, DecodeError>(c))
                && newest_per_key(
                select_range(st.mem(), start, end) + c,
                v,
                visible_keys(select_range(st.mem(), start, end) + c),
            ),
        Err(e) => collect_answers(search_order(st.tables()), start, end, Err::<Seq<EntryView>, DecodeError>(e)),
    }
}

/// A write read back: once the engine has applied a write whose sequence
/// number is above every sequence number its memtable holds, a lookup of
/// the written key answers the write (the value written, or "not found"
/// for a delete).
pub proof fn lemma_write_read_back(
    before: Store,
    after: Store,
    e: EntryView,
    r: Result<LookupResult, DecodeError>,
)
    requires
        before.wf(),
        forall|i: int| 0 <= i < before.mem().len() ==> #[trigger] before.mem()[i].sequence < e.sequence,
        after.mem() == before.mem().insert(insert_pos(before.mem(), e), e),
        store_answers(after, e.key, r),
    ensures
        r is Ok && shows(r->Ok_0, Some(e)),
{
    before.memtable.lemma_sorted();
    crate::engine::memtable::lemma_put_then_get(before.mem(), e);
}

/// A write leaves the other keys alone: after the engine applies a write,
/// a lookup of any other key answers what it answered before.
pub proof fn lemma_write_keeps_other_keys(
    before: Store,
    after: Store,
    e: EntryView,
    k: Seq<u8>,
    r: Result<LookupResult, DecodeError>,
)
    requires
        k != e.key,
        after.mem() == before.mem().insert(insert_pos(before.mem(), e), e),
        after.tables() == before.tables(),
    ensures
        store_answers(after, k, r) == store_answers(before, k, r),
{
    crate::engine::memtable::lemma_put_keeps_other_keys(before.mem(), e, k);
    assert(path_answers(after, k, r) == path_answers(before, k, r));
    assert(path_answers(after, k, Ok::<LookupResult, DecodeError>(LookupResult::Tombstone))
        == path_answers(before, k, Ok::<LookupResult, DecodeError>(LookupResult::Tombstone)));
}

/// The tables a read consults after a flush: the flushed table first, then
/// those it consulted before.
proof fn lemma_flushed_search_order(ls: Seq<Seq<SSTable>>, t: SSTable)
    ensures
        search_order(flushed_levels(ls, t)) == seq![t] + search_order(ls),
{
    let f = flushed_levels(ls, t);
    if ls.len() > 0 {
        assert(f.drop_first() =~= ls.drop_first());
        assert(f[0].reverse() =~= seq![t] + ls[0].reverse());
        assert(seq![t] + ls[0].reverse() + search_order(ls.drop_first()) =~= seq![t] + (ls[0].reverse()
            + search_order(ls.drop_first())));
    } else {
        assert(f.drop_first() =~= Seq::<Seq<SSTable>>::empty());
        assert(ls =~= Seq::<Seq<SSTable>>::empty());
        assert(f[0].reverse() =~= seq![t]);
        assert(seq![t] + Seq::<SSTable>::empty() =~= seq![t]);
    }
}

/// What the read path finds after a flush, it could have found before.
proof fn lemma_flush_keeps_paths(
    before: Store,
    after: Store,
    t: SSTable,
    block_size: usize,
    index_type: IndexType,
    bits_per_element: usize,
    learned: Seq<u8>,
    k: Seq<u8>,
    r: Result<LookupResult, DecodeError>,
)
    requires
        sorted_by_key(before.mem()),
        table_fits(before.mem()),
        table_file_of(t.spec_data(), before.mem(), block_size, index_type, bits_per_element, learned),
        open_outcome(t.spec_data()) matches Ok(p) && opened_as(t, p),
        after.mem() == Seq::<EntryView>::empty(),
        after.tables() == flushed_levels(before.tables(), t),
        path_answers(after, k, r),
    ensures
        path_answers(before, k, r),
{
    assert(!exists|i: int| is_newest_at(after.mem(), k, i));
    lemma_flushed_search_order(before.tables(), t);
    lemma_built_table_first(
        t,
        before.mem(),
        block_size,
        index_type,
        bits_per_element,
        learned,
        search_order(before.tables()),
        k,
        r,
    );
}

/// A flush keeps what scans give: once the engine has emptied its memtable
/// into a table built from the memtable's entries (all their versions, in
/// key order) and taken that table in as the newest of level 0, whatever a
/// scan of any range gives, it could have given before the flush.
pub proof fn lemma_flush_keeps_scans(
    before: Store,
    after: Store,
    t: SSTable,
    block_size: usize,
    index_type: IndexType,
    bits_per_element: usize,
    learned: Seq<u8>,
    start: Seq<u8>,
    end: Seq<u8>,
    r: Result<Seq<EntryView>, DecodeError>,
)
    requires
        sorted_by_key(before.mem()),
        table_fits(before.mem()),
        table_file_of(t.spec_data(), before.mem(), block_size, index_type, bits_per_element, learned),
        open_outcome(t.spec_data()) matches Ok(p) && opened_as(t, p),
        after.mem() == Seq::<EntryView>::empty(),
        after.tables() == flushed_levels(before.tables(), t),
        store_scans(after, start, end, r),
    ensures
        store_scans(before, start, end, r),
{
    lemma_flushed_search_order(before.tables(), t);
    let rest = search_order(before.tables());
    let s = before.mem();
    assert(table_file_of(t.spec_data(), s, block_size, index_type, bits_per_element, learned));
    assert(table_built(t, s));
    assert(select_range(after.mem(), start, end) =~= Seq::<EntryView>::empty()) by {
        crate::versions::lemma_filter_none(
            after.mem(),
            |e: EntryView| crate::versions::key_in_range(e, start, end),
        );
    }
    match r {
        Ok(v) => {
            let c = choose|c: Seq<EntryView>|
                #![trigger collect_answers(search_order(after.tables()), start, end, Ok::<Seq<EntryView>, DecodeError>(c))]
                collect_answers(search_order(after.tables()), start, end, Ok::<Seq<EntryView>, DecodeError>(c))
                    && newest_per_key(
                    select_range(after.mem(), start, end) + c,
                    v,
                    visible_keys(select_range(after.mem(), start, end) + c),
                );
            lemma_collect_holder_first(t, s, rest, start, end, Ok::<Seq<EntryView>, DecodeError>(c));
            let sel = select_range(s, start, end);
            let c2 = c.skip(sel.len() as int);
            assert(c =~= sel + c2);
            assert(Seq::<EntryView>::empty() + c =~= c);
            assert(collect_answers(rest, start, end, Ok::<Seq<EntryView>, DecodeError>(c2)));
        },
        Err(e) => {
            lemma_collect_holder_first(t, s, rest, start, end, r);
        },
    }
}

/// What the read path finds after a compaction, it could have found
/// before.
proof fn lemma_compaction_keeps_paths(
    before: Store,
    after: Store,
    level: usize,
    ss_new: Seq<Seq<EntryView>>,
    ss_old: Seq<Seq<EntryView>>,
    t: SSTable,
    m: Seq<EntryView>,
    k: Seq<u8>,
    r: Result<LookupResult, DecodeError>,
)
    requires
        level + 1 < before.tables().len(),
        ss_new.len() == before.tables()[level as int].len(),
        forall|i: int|
            0 <= i < ss_new.len() ==> table_built(#[trigger] before.tables()[level as int][i], ss_new[i]),
        ss_old.len() == before.tables()[level + 1].len(),
        forall|i: int| 0 <= i < ss_old.len() ==> table_built(#[trigger] before.tables()[level + 1][i], ss_old[i]),
        newer_first(ss_new.reverse() + ss_old.reverse(), k),
        newest_per_key(
            flatten(ss_new) + flatten(ss_old),
            m,
            kept_keys(flatten(ss_new) + flatten(ss_old), (level + 1) as usize),
        ),
        table_built(t, m),
        survives_compaction(flatten(ss_new) + flatten(ss_old), k, (level + 1) as usize),
        after.mem() == before.mem(),
        after.tables() == before.tables().update(level as int, Seq::<SSTable>::empty()).update(
            level + 1,
            seq![t],
        ),
        path_answers(after, k, r),
    ensures
        path_answers(before, k, r),
{
    let ls = before.tables();
    let ls2 = after.tables();
    let l = level as int;
    lemma_search_order_split(ls, l);
    lemma_search_order_split(ls2, l);
    assert(ls2.subrange(0, l) =~= ls.subrange(0, l));
    lemma_search_order_skip(ls, l);
    lemma_search_order_skip(ls, l + 1);
    lemma_search_order_skip(ls2, l);
    lemma_search_order_skip(ls2, l + 1);
    assert(ls2.skip(l + 2) =~= ls.skip(l + 2));
    let p = search_order(ls.subrange(0, l));
    let d = search_order(ls.skip(l + 2));
    let x = ls[l].reverse() + ls[l + 1].reverse();
    assert(search_order(ls) =~= p + (x + d));
    assert(ls2[l].reverse() =~= Seq::<SSTable>::empty());
    assert(ls2[l + 1].reverse() =~= seq![t]);
    assert(search_order(ls2) =~= p + (seq![t] + d));
    lemma_read_tables(ls, l, ss_new, ss_old);
    if newest_version(before.mem(), k) is None {
        assert forall|r2: Result<LookupResult, DecodeError>|
            #[trigger] search_answers(seq![t] + d, k, r2) implies search_answers(x + d, k, r2) by {
            lemma_compacted_search(x, ss_new, ss_old, t, m, (level + 1) as usize, d, k, r2);
        }
        lemma_search_prefix(p, seq![t] + d, x + d, k, r);
    }
}

/// A flush keeps what lookups answer: once the engine has emptied its
/// memtable into a table built from the memtable's entries (all their
/// versions, in key order) and taken that table in as the newest of level
/// 0, whatever a lookup of any key answers, it could have answered before
/// the flush.
pub proof fn lemma_flush_keeps_reads(
    before: Store,
    after: Store,
    t: SSTable,
    block_size: usize,
    index_type: IndexType,
    bits_per_element: usize,
    learned: Seq<u8>,
    k: Seq<u8>,
    r: Result<LookupResult, DecodeError>,
)
    requires
        sorted_by_key(before.mem()),
        table_fits(before.mem()),
        table_file_of(t.spec_data(), before.mem(), block_size, index_type, bits_per_element, learned),
        open_outcome(t.spec_data()) matches Ok(p) && opened_as(t, p),
        after.mem() == Seq::<EntryView>::empty(),
        after.tables() == flushed_levels(before.tables(), t),
        store_answers(after, k, r),
    ensures
        store_answers(before, k, r),
{
    assert forall|r2: Result<LookupResult, DecodeError>|
        #[trigger] path_answers(after, k, r2) implies path_answers(before, k, r2) by {
        lemma_flush_keeps_paths(before, after, t, block_size, index_type, bits_per_element, learned, k, r2);
    }
    lemma_answers_follow(before, after, k, r);
}

/// A compaction keeps what lookups answer. Say the tables of `level` and
/// of the next level were built from entries in key order
/// (`ss_new[i]` for table `i` of `level`, `ss_old[i]` for table `i` of the
/// next), a table that a read consults earlier holds the newer versions of
/// `k`, and the compacted table `t` was built from `m`, the newest version
/// of every key that survives among all their entries. Once `t` has
/// replaced those tables as the only table of the next level, whatever a
/// lookup of `k` answers, it could have answered before, unless the
/// compaction dropped `k` (its newest version a tombstone with no other
/// version among them).
pub proof fn lemma_compaction_keeps_reads(
    before: Store,
    after: Store,
    level: usize,
    ss_new: Seq<Seq<EntryView>>,
    ss_old: Seq<Seq<EntryView>>,
    t: SSTable,
    m: Seq<EntryView>,
    k: Seq<u8>,
    r: Result<LookupResult, DecodeError>,
)
    requires
        level + 1 < before.tables().len(),
        ss_new.len() == before.tables()[level as int].len(),
        forall|i: int|
            0 <= i < ss_new.len() ==> table_built(#[trigger] before.tables()[level as int][i], ss_new[i]),
        ss_old.len() == before.tables()[level + 1].len(),
        forall|i: int| 0 <= i < ss_old.len() ==> table_built(#[trigger] before.tables()[level + 1][i], ss_old[i]),
        newer_first(ss_new.reverse() + ss_old.reverse(), k),
        newest_per_key(
            flatten(ss_new) + flatten(ss_old),
            m,
            kept_keys(flatten(ss_new) + flatten(ss_old), (level + 1) as usize),
        ),
        table_built(t, m),
        survives_compaction(flatten(ss_new) + flatten(ss_old), k, (level + 1) as usize),
        after.mem() == before.mem(),
        after.tables() == before.tables().update(level as int, Seq::<SSTable>::empty()).update(
            level + 1,
            seq![t],
        ),
        store_answers(after, k, r),
    ensures
        store_answers(before, k, r),
{
    assert forall|r2: Result<LookupResult, DecodeError>|
        #[trigger] path_answers(after, k, r2) implies path_answers(before, k, r2) by {
        lemma_compaction_keeps_paths(before, after, level, ss_new, ss_old, t, m, k, r2);
    }
    lemma_answers_follow(before, after, k, r);
}

/// The memtable the writes `s` build when applied one by one to `m`, each
/// taking its place in key order, is what putting them all in builds.
proof fn lemma_applied_writes(mems: Seq<Seq<EntryView>>, s: Seq<EntryView>, n: int)
    requires
        mems.len() == s.len() + 1,
        forall|i: int|
            #![trigger s[i]]
            0 <= i < s.len() ==> mems[i + 1] == mems[i].insert(insert_pos(mems[i], s[i]), s[i]),
        0 <= n <= s.len(),
    ensures
        mems[n] == put_all(mems[0], s.subrange(0, n)),
    decreases n,
{
    if n > 0 {
        lemma_applied_writes(mems, s, n - 1);
        assert(s.subrange(0, n).drop_last() =~= s.subrange(0, n - 1));
        let i = n - 1;
        assert(mems[i + 1] == mems[i].insert(insert_pos(mems[i], s[i]), s[i]));
    }
}

/// Recovery rebuilds the memtable: when writes `s` were each logged (their
/// records appended to the log in order) and applied to an empty memtable,
/// replaying the log's bytes into an empty memtable gives the memtable the
/// writes built.
pub proof fn lemma_recovery(mems: Seq<Seq<EntryView>>, s: Seq<EntryView>)
    requires
        forall|i: int| 0 <= i < s.len() ==> entry_fits(#[trigger] s[i]),
        mems.len() == s.len() + 1,
        mems[0] == Seq::<EntryView>::empty(),
        forall|i: int|
            #![trigger s[i]]
            0 <= i < s.len() ==> mems[i + 1] == mems[i].insert(insert_pos(mems[i], s[i]), s[i]),
    ensures
        put_all(Seq::<EntryView>::empty(), log_entries(encode_entries(s), 0)) == mems[s.len() as int],
{
    lemma_replay_written(s);
    lemma_applied_writes(mems, s, s.len() as int);
    assert(s.subrange(0, s.len() as int) =~= s);
}

/// The ids of the tables, in order.
pub open spec fn ids_of(ts: Seq<SSTable>) -> Seq<u64> {
    ts.map_values(|t: SSTable| crate::engine::sstable::id_of_path(t.spec_path()))
}

/// The records without those of any of the ids, removing id after id.
pub open spec fn without_ids(s: Seq<RecordView>, ids: Seq<u64>) -> Seq<RecordView>
    decreases ids.len(),
{
    if ids.len() == 0 {
        s
    } else {
        without_id(without_ids(s, ids.drop_last()), ids.last())
    }
}

} // verus!
