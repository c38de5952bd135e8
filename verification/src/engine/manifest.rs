//! The manifest: the record of every table the engine holds, with its level
//! and key range, in the order the tables were added.
use vstd::prelude::*;

use crate::IndexType;

verus! {

/// What the engine knows of one table.
pub struct SSTableMeta {
    pub id: u64,
    pub level: usize,
    pub path: String,
    pub min_key: Vec<u8>,
    pub max_key: Vec<u8>,
    pub size_bytes: u64,
    pub index_type: IndexType,
}

/// One table recorded in the manifest.
pub struct ManifestEntry {
    pub id: u64,
    pub level: usize,
    pub min_key: Vec<u8>,
    pub max_key: Vec<u8>,
    pub size_bytes: u64,
    pub index_type: IndexType,
}

/// The mathematical content of a [`ManifestEntry`].
pub struct RecordView {
    pub id: u64,
    pub level: usize,
    pub min_key: Seq<u8>,
    pub max_key: Seq<u8>,
    pub size_bytes: u64,
    pub index_type: IndexType,
}

impl View for ManifestEntry {
    type V = RecordView;

    open spec fn view(&self) -> RecordView {
        RecordView {
            id: self.id,
            level: self.level,
            min_key: self.min_key@,
            max_key: self.max_key@,
            size_bytes: self.size_bytes,
            index_type: self.index_type,
        }
    }
}

/// The record of a table's metadata (its path is not recorded).
pub open spec fn record_of(m: SSTableMeta) -> RecordView {
    RecordView {
        id: m.id,
        level: m.level,
        min_key: m.min_key@,
        max_key: m.max_key@,
        size_bytes: m.size_bytes,
        index_type: m.index_type,
    }
}

/// The views of a sequence of records.
pub open spec fn records_view(v: Seq<ManifestEntry>) -> Seq<RecordView> {
    v.map_values(|e: ManifestEntry| e@)
}

/// The deepest level among the records, 0 when there are none.
pub open spec fn deepest_level(s: Seq<RecordView>) -> usize
    decreases s.len(),
{
    if s.len() == 0 {
        0
    } else {
        let d = deepest_level(s.drop_last());
        if s.last().level > d {
            s.last().level
        } else {
            d
        }
    }
}

/// The records whose id is not `id`, in order.
pub open spec fn without_id(s: Seq<RecordView>, id: u64) -> Seq<RecordView> {
    s.filter(|r: RecordView| r.id != id)
}

/// The deepest level is the level of some record (or 0) and no record lies
/// deeper.
pub proof fn lemma_deepest_level(s: Seq<RecordView>)
    ensures
        forall|i: int| 0 <= i < s.len() ==> #[trigger] s[i].level <= deepest_level(s),
        s.len() == 0 ==> deepest_level(s) == 0,
        s.len() > 0 ==> exists|i: int| 0 <= i < s.len() && #[trigger] s[i].level == deepest_level(s),
    decreases s.len(),
{
    if s.len() > 0 {
        lemma_deepest_level(s.drop_last());
        assert forall|i: int| 0 <= i < s.len() implies #[trigger] s[i].level <= deepest_level(s) by {
            if i < s.len() - 1 {
                assert(s[i] == s.drop_last()[i]);
            }
        }
        if s.last().level <= deepest_level(s.drop_last()) && s.len() > 1 {
            let i = choose|i: int|
                0 <= i < s.drop_last().len() && #[trigger] s.drop_last()[i].level == deepest_level(
                    s.drop_last(),
                );
            assert(s[i] == s.drop_last()[i]);
        } else {
            assert(s[s.len() - 1].level == deepest_level(s));
        }
    }
}

/// Tracks all tables, their levels and key ranges.
pub struct Manifest {
    path: String,
    entries: Vec<ManifestEntry>,
}

impl View for Manifest {
    type V = Seq<RecordView>;

    closed spec fn view(&self) -> Seq<RecordView> {
        records_view(self.entries@)
    }
}

impl Manifest {
    pub closed spec fn spec_path(&self) -> Seq<char> {
        self.path@
    }

    /// A manifest kept at `path` holding `entries`.
    pub fn new(path: String, entries: Vec<ManifestEntry>) -> (r: Manifest)
        ensures
            r.spec_path() == path@,
            r@ == records_view(entries@),
    {
        Manifest { path, entries }
    }

    /// Record a table.
    pub fn add(&mut self, meta: SSTableMeta)
        ensures
            final(self)@ == old(self)@.push(record_of(meta)),
            final(self).spec_path() == old(self).spec_path(),
    {
        let ghost m = record_of(meta);
        let entry = ManifestEntry {
            id: meta.id,
            level: meta.level,
            min_key: meta.min_key,
            max_key: meta.max_key,
            size_bytes: meta.size_bytes,
            index_type: meta.index_type,
        };
        let ghost pre = self@;
        self.entries.push(entry);
        assert(self@ =~= pre.push(m));
    }

    /// Forget every table with id `id`.
    pub fn remove(&mut self, id: u64)
        ensures
            final(self)@ == without_id(old(self)@, id),
            final(self).spec_path() == old(self).spec_path(),
    {
        let ghost s = self@;
        let ghost pred = |r: RecordView| r.id != id;
        let mut kept: Vec<ManifestEntry> = Vec::new();
        let mut rest: Vec<ManifestEntry> = Vec::new();
        std::mem::swap(&mut rest, &mut self.entries);
        let ghost mut k: int = 0;
        assert(s.subrange(0, 0).filter(pred) =~= Seq::<RecordView>::empty()) by {
            reveal(Seq::filter);
        }
        assert(records_view(rest@) =~= s.subrange(0, s.len() as int));
        while rest.len() > 0
            invariant
                pred == (|r: RecordView| r.id != id),
                0 <= k <= s.len(),
                records_view(rest@) == s.subrange(k, s.len() as int),
                records_view(kept@) == s.subrange(0, k).filter(pred),
            decreases rest.len(),
        {
            let ghost before = records_view(kept@);
            let ghost old_rest = rest@;
            assert(records_view(old_rest).len() == old_rest.len());
            assert(records_view(old_rest)[0] == s.subrange(k, s.len() as int)[0]);
            let e = rest.remove(0);
            assert(e@ == s[k]);
            assert forall|j: int| 0 <= j < rest@.len() implies #[trigger] records_view(rest@)[j]
                == s.subrange(k + 1, s.len() as int)[j] by {
                assert(rest@[j] == old_rest[j + 1]);
                assert(records_view(old_rest)[j + 1] == s.subrange(k, s.len() as int)[j + 1]);
            }
            assert(records_view(rest@) =~= s.subrange(k + 1, s.len() as int));
            proof {
                reveal(Seq::filter);
                assert(s.subrange(0, k + 1).drop_last() =~= s.subrange(0, k));
            }
            if e.id != id {
                kept.push(e);
                assert(records_view(kept@) =~= before.push(s[k]));
            }
            proof {
                k = k + 1;
            }
        }
        assert(s.subrange(0, k) =~= s);
        self.entries = kept;
    }

    /// The deepest level of any recorded table (0 if there is none).
    pub fn max_level(&self) -> (r: usize)
        ensures
            r == deepest_level(self@),
    {
        let mut best: usize = 0;
        let mut i: usize = 0;
        assert(self@.subrange(0, 0) =~= Seq::<RecordView>::empty());
        while i < self.entries.len()
            invariant
                i <= self@.len(),
                self@.len() == self.entries@.len(),
                best == deepest_level(self@.subrange(0, i as int)),
            decreases self.entries.len() - i,
        {
            assert(self@.subrange(0, i + 1).drop_last() =~= self@.subrange(0, i as int));
            assert(self@[i as int] == self.entries@[i as int]@);
            if self.entries[i].level > best {
                best = self.entries[i].level;
            }
            i = i + 1;
        }
        assert(self@.subrange(0, self@.len() as int) =~= self@);
        best
    }

    /// The recorded tables, in the order they were added, each with an empty
    /// path.
    pub fn entries(&self) -> (r: Vec<SSTableMeta>)
        ensures
            r@.len() == self@.len(),
            forall|i: int|
                0 <= i < r@.len() ==> record_of(#[trigger] r@[i]) == self@[i] && r@[i].path@
                    == Seq::<char>::empty(),
    {
        let mut r: Vec<SSTableMeta> = Vec::new();
        let mut i: usize = 0;
        while i < self.entries.len()
            invariant
                i <= self@.len(),
                self@.len() == self.entries@.len(),
                r@.len() == i,
                forall|t: int|
                    0 <= t < i ==> record_of(#[trigger] r@[t]) == self@[t] && r@[t].path@ == Seq::<
                        char,
                    >::empty(),
            decreases self.entries.len() - i,
        {
            let e = &self.entries[i];
            assert(self@[i as int] == e@);
            r.push(
                SSTableMeta {
                    id: e.id,
                    level: e.level,
                    path: String::new(),
                    min_key: crate::copy_bytes(&e.min_key),
                    max_key: crate::copy_bytes(&e.max_key),
                    size_bytes: e.size_bytes,
                    index_type: e.index_type,
                },
            );
            i = i + 1;
        }
        r
    }

    /// The recorded tables, as stored.
    pub fn records(&self) -> (r: &[ManifestEntry])
        ensures
            records_view(r@) == self@,
    {
        self.entries.as_slice()
    }

    /// Where the manifest is kept.
    pub fn path(&self) -> (r: &str)
        ensures
            r@ == self.spec_path(),
    {
        self.path.as_str()
    }
}

} // verus!
