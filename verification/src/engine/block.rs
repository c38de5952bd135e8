//! Data blocks of an SSTable: `num_entries:u32` followed by that many entry
//! records, in key order.
use vstd::prelude::*;

use vstd::bytes::{lemma_auto_spec_u32_to_from_le_bytes, spec_u32_from_le_bytes, spec_u32_to_le_bytes};

use crate::engine::format::{
    encode_entries, entry_fits, lemma_parse_encoded_entries, parse_entries, push_u32_le,
    read_entry, read_u32_le, write_entry,
};
use crate::keys::{key_eq, key_le, key_lt, lex_lt, lemma_lex_order, lemma_lex_lt_total};
use crate::versions::{
    entries_view, is_newest_at, key_in_range, lemma_key_run, lemma_lower_bound,
    lemma_lower_bound_at, lemma_newest_in_window, lemma_newest_version_at,
    lemma_sorted_prefix_below, lower_bound, newest_version, select_range, sorted_by_key,
};
use crate::{Entry, EntryView};

verus! {

/// Why stored bytes could not be read.
#[derive(Debug, Clone, Copy, PartialEq, Eq, Structural)]
pub enum DecodeError {
    /// The data ends before a record is complete.
    Truncated,
    /// The table does not end with the expected magic number.
    BadMagic,
    /// The file is too small to hold a table footer.
    TooSmall,
    /// The stored Bloom filter cannot be queried.
    BadIndex,
}

/// The stored form of a block holding `s`.
pub open spec fn encode_block(s: Seq<EntryView>) -> Seq<u8> {
    spec_u32_to_le_bytes(s.len() as u32) + encode_entries(s)
}

/// The entries of a stored block, or `None` if the data ends early.
/// Bytes after the last record are ignored.
pub open spec fn parse_block(data: Seq<u8>) -> Option<Seq<EntryView>> {
    if data.len() < 4 {
        None
    } else {
        match parse_entries(data, 4, spec_u32_from_le_bytes(data.subrange(0, 4)) as nat) {
            Some((s, _)) => Some(s),
            None => None,
        }
    }
}

/// The number of leading entries whose keys do not sort after `end`.
pub open spec fn upto_end(s: Seq<EntryView>, end: Seq<u8>) -> int
    decreases s.len(),
{
    if s.len() == 0 {
        0
    } else if lex_lt(end, s[0].key) {
        0
    } else {
        1 + upto_end(s.drop_first(), end)
    }
}

proof fn lemma_upto_end(s: Seq<EntryView>, end: Seq<u8>)
    ensures
        0 <= upto_end(s, end) <= s.len(),
        forall|i: int| 0 <= i < upto_end(s, end) ==> !lex_lt(end, #[trigger] s[i].key),
        upto_end(s, end) < s.len() ==> lex_lt(end, s[upto_end(s, end)].key),
    decreases s.len(),
{
    if s.len() > 0 && !lex_lt(end, s[0].key) {
        lemma_upto_end(s.drop_first(), end);
        assert forall|i: int| 0 <= i < upto_end(s, end) implies !lex_lt(end, #[trigger] s[i].key) by {
            if i > 0 {
                assert(s[i] == s.drop_first()[i - 1]);
            }
        }
    }
}

proof fn lemma_parse_entries_none_grows(data: Seq<u8>, pos: int, n: nat, m: nat)
    requires
        parse_entries(data, pos, n) is None,
        n <= m,
    ensures
        parse_entries(data, pos, m) is None,
    decreases m - n,
{
    if n < m {
        lemma_parse_entries_none_grows(data, pos, n, (m - 1) as nat);
    }
}

/// A stored block reads back as the entries it was written from.
pub proof fn lemma_block_roundtrip(s: Seq<EntryView>)
    requires
        s.len() <= u32::MAX,
        forall|i: int| 0 <= i < s.len() ==> entry_fits(#[trigger] s[i]),
    ensures
        parse_block(encode_block(s)) == Some(s),
{
    lemma_auto_spec_u32_to_from_le_bytes();
    let pre = spec_u32_to_le_bytes(s.len() as u32);
    lemma_parse_encoded_entries(pre, s, Seq::empty());
    assert(pre + encode_entries(s) + Seq::<u8>::empty() =~= encode_block(s));
    assert(encode_block(s).subrange(0, 4) =~= pre);
}

/// Where a binary search of positions `[lo, hi)` of `s` for the first
/// key not below `key` ends; in a sequence sorted by key, the lower bound
/// of `key`.
pub open spec fn key_search(s: Seq<EntryView>, key: Seq<u8>, lo: int, hi: int) -> int
    decreases hi - lo,
{
    if lo < hi {
        let mid = lo + (hi - lo) / 2;
        if lex_lt(s[mid].key, key) {
            key_search(s, key, mid + 1, hi)
        } else {
            key_search(s, key, lo, mid)
        }
    } else {
        lo
    }
}

/// The number of consecutive versions of `key` in `s` from position `from`.
pub open spec fn run_len(s: Seq<EntryView>, key: Seq<u8>, from: int) -> int
    decreases s.len() - from,
{
    if 0 <= from < s.len() && s[from].key == key {
        1 + run_len(s, key, from + 1)
    } else {
        0
    }
}

/// The version of `key` that a lookup in a block of entries `s` finds: the
/// newest of the versions that stand together where a binary search for
/// `key` ends (none when no version stands there).
pub open spec fn block_lookup(s: Seq<EntryView>, key: Seq<u8>) -> Option<EntryView> {
    let p = key_search(s, key, 0, s.len() as int);
    newest_version(s.subrange(p, p + run_len(s, key, p)), key)
}

proof fn lemma_key_search_range(s: Seq<EntryView>, key: Seq<u8>, lo: int, hi: int)
    requires
        lo <= hi,
    ensures
        lo <= key_search(s, key, lo, hi) <= hi,
    decreases hi - lo,
{
    if lo < hi {
        let mid = lo + (hi - lo) / 2;
        if lex_lt(s[mid].key, key) {
            lemma_key_search_range(s, key, mid + 1, hi);
        } else {
            lemma_key_search_range(s, key, lo, mid);
        }
    }
}

/// The versions of `key` from `from` run up to `from + run_len`.
proof fn lemma_run_len(s: Seq<EntryView>, key: Seq<u8>, from: int)
    requires
        0 <= from <= s.len(),
    ensures
        0 <= run_len(s, key, from) <= s.len() - from,
        forall|t: int| from <= t < from + run_len(s, key, from) ==> #[trigger] s[t].key == key,
        from + run_len(s, key, from) < s.len() ==> s[from + run_len(s, key, from)].key != key,
    decreases s.len() - from,
{
    if from < s.len() && s[from].key == key {
        lemma_run_len(s, key, from + 1);
    }
}

/// In a block sorted by key, a binary search ends at the lower bound.
proof fn lemma_key_search_sorted(s: Seq<EntryView>, key: Seq<u8>, lo: int, hi: int)
    requires
        sorted_by_key(s),
        0 <= lo <= hi <= s.len(),
        forall|t: int| 0 <= t < lo ==> lex_lt(#[trigger] s[t].key, key),
        forall|t: int| hi <= t < s.len() ==> !lex_lt(#[trigger] s[t].key, key),
    ensures
        key_search(s, key, lo, hi) == lower_bound(s, key),
    decreases hi - lo,
{
    if lo < hi {
        let mid = lo + (hi - lo) / 2;
        if lex_lt(s[mid].key, key) {
            lemma_sorted_prefix_below(s, key, mid);
            lemma_key_search_sorted(s, key, mid + 1, hi);
        } else {
            assert forall|t: int| mid <= t < s.len() implies !lex_lt(#[trigger] s[t].key, key) by {
                if t > mid {
                    assert(!lex_lt(s[t].key, s[mid].key));
                    lemma_lex_lt_total(s[t].key, s[mid].key);
                    lemma_lex_order(s[mid].key, s[t].key, key);
                }
            }
            lemma_key_search_sorted(s, key, lo, mid);
        }
    } else {
        lemma_lower_bound_at(s, key, lo);
    }
}

/// In a block sorted by key, a lookup finds the newest version of the key.
pub proof fn lemma_block_lookup_sorted(s: Seq<EntryView>, key: Seq<u8>)
    requires
        sorted_by_key(s),
    ensures
        block_lookup(s, key) == newest_version(s, key),
{
    lemma_key_search_sorted(s, key, 0, s.len() as int);
    lemma_lower_bound(s, key);
    let p = lower_bound(s, key);
    lemma_run_len(s, key, p);
    let q = p + run_len(s, key, p);
    lemma_key_run(s, key, q);
    lemma_newest_in_window(s, key, p, q);
}

/// A single data block in the SSTable.
pub struct Block {
    entries: Vec<Entry>,
    first_key: Vec<u8>,
    offset: u64,
    size: u64,
}

impl Block {
    /// The entries of the block.
    pub closed spec fn items(&self) -> Seq<EntryView> {
        entries_view(self.entries@)
    }

    pub closed spec fn spec_first_key(&self) -> Seq<u8> {
        self.first_key@
    }

    pub closed spec fn spec_offset(&self) -> u64 {
        self.offset
    }

    pub closed spec fn spec_size(&self) -> u64 {
        self.size
    }

    /// A block of `entries`; its first key is that of the first entry (empty
    /// when there is none).
    pub fn new(entries: Vec<Entry>, offset: u64, size: u64) -> (r: Block)
        ensures
            r.items() == entries_view(entries@),
            r.spec_first_key() == (if entries@.len() > 0 {
                entries@[0].key@
            } else {
                Seq::<u8>::empty()
            }),
            r.spec_offset() == offset,
            r.spec_size() == size,
    {
        let first_key = if entries.len() > 0 {
            crate::copy_bytes(&entries[0].key)
        } else {
            Vec::new()
        };
        Block { entries, first_key, offset, size }
    }

    pub fn first_key(&self) -> (r: &[u8])
        ensures
            r@ == self.spec_first_key(),
    {
        self.first_key.as_slice()
    }

    pub fn offset(&self) -> (r: u64)
        ensures
            r == self.spec_offset(),
    {
        self.offset
    }

    pub fn size(&self) -> (r: u64)
        ensures
            r == self.spec_size(),
    {
        self.size
    }

    /// Record where the block lies in its file.
    pub fn set_position(&mut self, offset: u64, size: u64)
        ensures
            final(self).items() == old(self).items(),
            final(self).spec_first_key() == old(self).spec_first_key(),
            final(self).spec_offset() == offset,
            final(self).spec_size() == size,
    {
        self.offset = offset;
        self.size = size;
    }

    /// The stored form of the block. A count that does not fit in 32 bits
    /// is written truncated.
    pub fn serialize(&self) -> (r: Vec<u8>)
        ensures
            r@ == encode_block(self.items()),
    {
        let mut buf: Vec<u8> = Vec::new();
        push_u32_le(&mut buf, self.entries.len() as u32);
        let ghost header = buf@;
        let mut i: usize = 0;
        assert(entries_view(self.entries@.subrange(0, 0)) =~= Seq::<EntryView>::empty());
        while i < self.entries.len()
            invariant
                i <= self.entries.len(),
                buf@ == header + encode_entries(entries_view(self.entries@.subrange(0, i as int))),
            decreases self.entries.len() - i,
        {
            write_entry(&mut buf, &self.entries[i]);
            i = i + 1;
            assert(entries_view(self.entries@.subrange(0, i as int)).drop_last() =~= entries_view(
                self.entries@.subrange(0, i - 1),
            ));
        }
        assert(self.entries@.subrange(0, self.entries.len() as int) =~= self.entries@);
        buf
    }

    /// Read a stored block. Its offset and size are set to 0.
    pub fn deserialize(data: &[u8]) -> (r: Result<Block, DecodeError>)
        ensures
            match r {
                Ok(b) => {
                    &&& parse_block(data@) == Some(b.items())
                    &&& b.spec_first_key() == (if b.items().len() > 0 {
                        b.items()[0].key
                    } else {
                        Seq::<u8>::empty()
                    })
                    &&& b.spec_offset() == 0
                    &&& b.spec_size() == 0
                },
                Err(e) => parse_block(data@) is None && e == DecodeError::Truncated,
            },
    {
        if data.len() < 4 {
            return Err(DecodeError::Truncated);
        }
        let count = read_u32_le(data, 0);
        let mut entries: Vec<Entry> = Vec::new();
        let mut pos: usize = 4;
        let mut i: u32 = 0;
        while i < count
            invariant
                count == spec_u32_from_le_bytes(data@.subrange(0, 4)),
                i <= count,
                parse_entries(data@, 4, i as nat) == Some((entries_view(entries@), pos as int)),
            decreases count - i,
        {
            match read_entry(data, pos) {
                Some((e, q)) => {
                    let ghost pre = entries_view(entries@);
                    entries.push(e);
                    pos = q;
                    i = i + 1;
                    assert(entries_view(entries@) =~= pre.push(e@));
                },
                None => {
                    proof {
                        lemma_parse_entries_none_grows(data@, 4, (i + 1) as nat, count as nat);
                    }
                    return Err(DecodeError::Truncated);
                },
            }
        }
        Ok(Block::new(entries, 0, 0))
    }

    /// The version of `key` the block holds where a binary search for it
    /// ends; in a block sorted by key, the newest version of `key` (the
    /// first of them when several share the largest sequence number).
    pub fn get(&self, key: &[u8]) -> (r: Option<&Entry>)
        ensures
            match r {
                Some(e) => block_lookup(self.items(), key@) == Some(e@),
                None => block_lookup(self.items(), key@) is None,
            },
            sorted_by_key(self.items()) ==> block_lookup(self.items(), key@) == newest_version(
                self.items(),
                key@,
            ),
    {
        let ghost v = self.items();
        let n = self.entries.len();
        let mut lo: usize = 0;
        let mut hi: usize = n;
        while lo < hi
            invariant
                v == self.items(),
                n == v.len(),
                lo <= hi <= n,
                key_search(v, key@, lo as int, hi as int) == key_search(v, key@, 0, n as int),
            decreases hi - lo,
        {
            let mid = lo + (hi - lo) / 2;
            if key_lt(self.entries[mid].key.as_slice(), key) {
                lo = mid + 1;
            } else {
                hi = mid;
            }
        }
        proof {
            if sorted_by_key(v) {
                lemma_block_lookup_sorted(v, key@);
            }
            lemma_run_len(v, key@, lo as int);
        }
        let ghost p = lo as int;
        if lo < n && key_eq(self.entries[lo].key.as_slice(), key) {
            let mut best: usize = lo;
            let mut idx: usize = lo + 1;
            while idx < n && key_eq(self.entries[idx].key.as_slice(), key)
                invariant
                    v == self.items(),
                    n == v.len(),
                    lo < idx <= n,
                    lo <= best < idx,
                    idx <= lo + run_len(v, key@, lo as int),
                    lo + run_len(v, key@, lo as int) <= n,
                    lo + run_len(v, key@, lo as int) < n ==> v[lo + run_len(v, key@, lo as int)].key
                        != key@,
                    forall|t: int| lo <= t < lo + run_len(v, key@, lo as int) ==> #[trigger] v[t].key == key@,
                    forall|t: int| lo <= t < idx ==> #[trigger] v[t].sequence <= v[best as int].sequence,
                    forall|t: int| lo <= t < best ==> #[trigger] v[t].sequence < v[best as int].sequence,
                decreases n - idx,
            {
                if self.entries[idx].sequence > self.entries[best].sequence {
                    best = idx;
                }
                idx = idx + 1;
            }
            proof {
                let q = lo + run_len(v, key@, lo as int);
                if idx < q {
                    assert(v[idx as int].key == key@);
                }
                assert(idx == q);
                let w = v.subrange(p, q);
                assert(w[best - p] == v[best as int]);
                assert forall|j: int| 0 <= j < w.len() && #[trigger] w[j].key == key@ implies w[j].sequence
                    <= w[best - p].sequence by {
                    assert(w[j] == v[j + p]);
                }
                assert forall|j: int| 0 <= j < best - p && #[trigger] w[j].key == key@ implies w[j].sequence
                    < w[best - p].sequence by {
                    assert(w[j] == v[j + p]);
                }
                assert(is_newest_at(w, key@, best - p));
                lemma_newest_version_at(w, key@, best - p);
            }
            return Some(&self.entries[best]);
        }
        proof {
            assert(run_len(v, key@, lo as int) == 0);
            let w = v.subrange(p, p);
            assert(!exists|i: int| is_newest_at(w, key@, i));
        }
        None
    }

    /// The entries with keys in `[start, end]` among those before the first
    /// key above `end`; for a block sorted by key, exactly the entries with
    /// keys in `[start, end]`.
    pub fn scan(&self, start: &[u8], end: &[u8]) -> (r: Vec<Entry>)
        ensures
            entries_view(r@) == select_range(
                self.items().subrange(0, upto_end(self.items(), end@)),
                start@,
                end@,
            ),
            sorted_by_key(self.items()) ==> entries_view(r@) == select_range(self.items(), start@, end@),
    {
        let ghost v = self.items();
        let ghost pred = |e: EntryView| key_in_range(e, start@, end@);
        let mut results: Vec<Entry> = Vec::new();
        let mut i: usize = 0;
        let mut done = false;
        assert(v.subrange(0, 0).filter(pred) =~= Seq::<EntryView>::empty()) by {
            reveal(Seq::filter);
        }
        while i < self.entries.len() && !done
            invariant
                v == self.items(),
                pred == (|e: EntryView| key_in_range(e, start@, end@)),
                i <= v.len(),
                forall|t: int| 0 <= t < i ==> !lex_lt(end@, #[trigger] v[t].key),
                done ==> i < v.len() && lex_lt(end@, v[i as int].key),
                entries_view(results@) == v.subrange(0, i as int).filter(pred),
            decreases v.len() - i + (if done {
                0int
            } else {
                1int
            }),
        {
            let e = &self.entries[i];
            if key_lt(end, e.key.as_slice()) {
                done = true;
            } else {
                let ghost before = results@;
                let inside = key_le(start, e.key.as_slice());
                if inside {
                    results.push(e.duplicate());
                }
                proof {
                    reveal(Seq::filter);
                    assert(v[i as int] == e@);
                    assert(v.subrange(0, i + 1).drop_last() =~= v.subrange(0, i as int));
                    lemma_lex_lt_total(e.key@, end@);
                    assert(pred(v[i as int]) == inside);
                    if inside {
                        assert(entries_view(results@) =~= entries_view(before).push(v[i as int]));
                    }
                }
                i = i + 1;
            }
        }
        proof {
            lemma_upto_end(v, end@);
            if !done {
                assert(i == v.len());
            }
            let k = upto_end(v, end@);
            assert(k == i as int) by {
                lemma_upto_end_at(v, end@, i as int);
            }
            if sorted_by_key(v) {
                lemma_scan_prefix_sorted(v, start@, end@);
            }
        }
        results
    }
}

/// In a sequence in key order, the entries before the first key above `end`
/// hold every entry with a key in `[start, end]`.
pub proof fn lemma_scan_prefix_sorted(v: Seq<EntryView>, start: Seq<u8>, end: Seq<u8>)
    requires
        sorted_by_key(v),
    ensures
        select_range(v.subrange(0, upto_end(v, end)), start, end) == select_range(v, start, end),
{
    let pred = |e: EntryView| key_in_range(e, start, end);
    lemma_upto_end(v, end);
    let k = upto_end(v, end);
    assert forall|t: int| k <= t < v.len() implies !pred(#[trigger] v[t]) by {
        if t > k {
            assert(!lex_lt(v[t].key, v[k].key));
            lemma_lex_lt_total(v[t].key, v[k].key);
            if lex_lt(v[k].key, v[t].key) {
                crate::keys::lemma_lex_lt_transitive(end, v[k].key, v[t].key);
            }
        }
        lemma_lex_order(end, v[t].key, end);
    }
    assert(v =~= v.subrange(0, k) + v.subrange(k, v.len() as int));
    Seq::filter_distributes_over_add(v.subrange(0, k), v.subrange(k, v.len() as int), pred);
    crate::versions::lemma_filter_none(v.subrange(k, v.len() as int), pred);
    assert(v.subrange(0, k).filter(pred) + Seq::<EntryView>::empty() =~= v.subrange(0, k).filter(pred));
}

/// A position that ends the run of keys not above `end` is `upto_end`.
proof fn lemma_upto_end_at(s: Seq<EntryView>, end: Seq<u8>, p: int)
    requires
        0 <= p <= s.len(),
        forall|t: int| 0 <= t < p ==> !lex_lt(end, #[trigger] s[t].key),
        p < s.len() ==> lex_lt(end, s[p].key),
    ensures
        upto_end(s, end) == p,
    decreases s.len(),
{
    if s.len() > 0 && p > 0 {
        assert forall|t: int| 0 <= t < p - 1 implies !lex_lt(end, #[trigger] s.drop_first()[t].key) by {
            assert(s.drop_first()[t] == s[t + 1]);
        }
        lemma_upto_end_at(s.drop_first(), end, p - 1);
    }
}

} // verus!
