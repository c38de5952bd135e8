//! The tables of the engine, level by level, and the read path over them:
//! lookups and scans consult the levels in order, and within a level the
//! newest table first.
use vstd::prelude::*;

use crate::engine::block::DecodeError;
use crate::engine::memtable::Memtable;
use crate::engine::merge::{merge_visible, newest_per_key, visible_in};
use crate::engine::sstable::{get_answers, scan_answers, SSTable};
use crate::keys::{key_lt, lex_lt};
use crate::versions::{entries_view, newest_version, select_range};
use crate::{reports, Entry, EntryView, LookupResult};

verus! {

/// The tables in the order a read consults them: level by level, and within
/// a level from the last (newest) table to the first.
pub open spec fn search_order(ls: Seq<Seq<SSTable>>) -> Seq<SSTable>
    decreases ls.len(),
{
    if ls.len() == 0 {
        Seq::empty()
    } else {
        ls[0].reverse() + search_order(ls.drop_first())
    }
}

/// `key` lies outside the key range of `t`.
pub open spec fn outside(t: SSTable, key: Seq<u8>) -> bool {
    lex_lt(key, t.spec_min_key()) || lex_lt(t.spec_max_key(), key)
}

/// `r` is what a lookup of `key` in the tables `ts`, consulted in order,
/// answers: the answer of the first table whose key range holds `key` and
/// that does not answer "not found", or "not found" when there is none.
pub open spec fn search_answers(ts: Seq<SSTable>, key: Seq<u8>, r: Result<LookupResult, DecodeError>) -> bool
    decreases ts.len(),
{
    if ts.len() == 0 {
        r == Ok::<LookupResult, DecodeError>(LookupResult::NotFound)
    } else if outside(ts[0], key) {
        search_answers(ts.drop_first(), key, r)
    } else {
        exists|a: Result<LookupResult, DecodeError>|
            #![trigger get_answers(ts[0], key, a)]
            get_answers(ts[0], key, a) && if a == Ok::<LookupResult, DecodeError>(LookupResult::NotFound) {
                search_answers(ts.drop_first(), key, r)
            } else {
                r == a
            }
    }
}

/// A lookup of `key` in the tables `ts`, consulted in order, reaches no
/// table that cannot answer it: each table it consults (whose key range
/// holds `key`) can be queried for `key`, and the search goes on past a
/// table only when that table answers "not found".
pub open spec fn search_ok(ts: Seq<SSTable>, key: Seq<u8>) -> bool
    decreases ts.len(),
{
    if ts.len() == 0 {
        true
    } else if outside(ts[0], key) {
        search_ok(ts.drop_first(), key)
    } else {
        &&& ts[0].lookup_ok(key)
        &&& forall|a: Result<LookupResult, DecodeError>|
            #[trigger] get_answers(ts[0], key, a) && a == Ok::<LookupResult, DecodeError>(LookupResult::NotFound)
                ==> search_ok(ts.drop_first(), key)
    }
}

/// The tables still to consult at table `m` (counted from the newest) of
/// level `i`.
pub open spec fn remaining(ls: Seq<Seq<SSTable>>, i: int, m: int) -> Seq<SSTable> {
    ls[i].reverse().skip(m) + search_order(ls.skip(i + 1))
}

pub(crate) proof fn lemma_search_order_skip(ls: Seq<Seq<SSTable>>, i: int)
    requires
        0 <= i < ls.len(),
    ensures
        search_order(ls.skip(i)) == ls[i].reverse() + search_order(ls.skip(i + 1)),
{
    assert(ls.skip(i).drop_first() =~= ls.skip(i + 1));
    assert(ls.skip(i)[0] == ls[i]);
}

proof fn lemma_remaining_step(ls: Seq<Seq<SSTable>>, i: int, m: int)
    requires
        0 <= i < ls.len(),
        0 <= m < ls[i].len(),
    ensures
        remaining(ls, i, m).len() > 0,
        remaining(ls, i, m)[0] == ls[i][ls[i].len() - 1 - m],
        remaining(ls, i, m).drop_first() == remaining(ls, i, m + 1),
{
    let rv = ls[i].reverse();
    assert(rv.skip(m)[0] == rv[m]);
    assert(remaining(ls, i, m).drop_first() =~= remaining(ls, i, m + 1));
}

proof fn lemma_remaining_next_level(ls: Seq<Seq<SSTable>>, i: int)
    requires
        0 <= i < ls.len(),
    ensures
        remaining(ls, i, ls[i].len() as int) == (if i + 1 < ls.len() {
            remaining(ls, i + 1, 0)
        } else {
            Seq::<SSTable>::empty()
        }),
{
    let rv = ls[i].reverse();
    assert(rv.skip(ls[i].len() as int) =~= Seq::<SSTable>::empty());
    assert(Seq::<SSTable>::empty() + search_order(ls.skip(i + 1)) =~= search_order(ls.skip(i + 1)));
    if i + 1 < ls.len() {
        lemma_search_order_skip(ls, i + 1);
        assert(ls[i + 1].reverse().skip(0) =~= ls[i + 1].reverse());
    } else {
        assert(ls.skip(i + 1) =~= Seq::<Seq<SSTable>>::empty());
    }
}

/// All tables of the levels can be read.
pub open spec fn tables_wf(ls: Seq<Seq<SSTable>>) -> bool {
    forall|i: int, j: int| 0 <= i < ls.len() && 0 <= j < ls[i].len() ==> (#[trigger] ls[i][j]).wf()
}

/// The tables of the engine, level by level; within a level, later tables
/// are newer.
pub struct Levels {
    levels: Vec<Vec<SSTable>>,
}

impl View for Levels {
    type V = Seq<Seq<SSTable>>;

    closed spec fn view(&self) -> Seq<Seq<SSTable>> {
        self.levels@.map_values(|l: Vec<SSTable>| l@)
    }
}

impl Levels {
    /// Levels holding the given tables.
    pub fn new(levels: Vec<Vec<SSTable>>) -> (r: Levels)
        ensures
            r@ == levels@.map_values(|l: Vec<SSTable>| l@),
    {
        Levels { levels }
    }

    /// The number of levels.
    pub fn num_levels(&self) -> (r: usize)
        ensures
            r == self@.len(),
    {
        self.levels.len()
    }

    /// The number of tables at `level` (0 for a level not yet made).
    pub fn level_len(&self, level: usize) -> (r: usize)
        ensures
            r == (if level < self@.len() {
                self@[level as int].len()
            } else {
                0
            }),
    {
        if level < self.levels.len() {
            self.levels[level].len()
        } else {
            0
        }
    }

    /// Make sure levels `0..=level` exist.
    pub fn ensure_level(&mut self, level: usize)
        requires
            level < usize::MAX,
        ensures
            final(self)@.len() == if old(self)@.len() > level {
                old(self)@.len() as int
            } else {
                level + 1
            },
            forall|i: int| 0 <= i < old(self)@.len() ==> #[trigger] final(self)@[i] == old(self)@[i],
            forall|i: int| old(self)@.len() <= i < final(self)@.len() ==> #[trigger] final(self)@[i]
                == Seq::<SSTable>::empty(),
    {
        let ghost pre = self@;
        while self.levels.len() <= level
            invariant
                level < usize::MAX,
                pre.len() <= self@.len() <= (if pre.len() > level {
                    pre.len() as int
                } else {
                    level + 1
                }),
                self@.len() == self.levels@.len(),
                forall|i: int| 0 <= i < pre.len() ==> #[trigger] self@[i] == pre[i],
                forall|i: int| pre.len() <= i < self@.len() ==> #[trigger] self@[i] == Seq::<SSTable>::empty(),
            decreases level + 1 - self.levels.len(),
        {
            let ghost before = self@;
            self.levels.push(Vec::new());
            assert(self@ =~= before.push(Seq::<SSTable>::empty()));
        }
    }

    /// Add `t` as the newest table of `level`, making the level if needed.
    pub fn add_table(&mut self, level: usize, t: SSTable)
        requires
            level < usize::MAX,
        ensures
            final(self)@.len() == if old(self)@.len() > level {
                old(self)@.len() as int
            } else {
                level + 1
            },
            forall|i: int|
                0 <= i < final(self)@.len() && i != level ==> #[trigger] final(self)@[i] == if i
                    < old(self)@.len() {
                    old(self)@[i]
                } else {
                    Seq::<SSTable>::empty()
                },
            final(self)@[level as int] == (if level < old(self)@.len() {
                old(self)@[level as int]
            } else {
                Seq::<SSTable>::empty()
            }).push(t),
    {
        self.ensure_level(level);
        let ghost mid = self@;
        let mut l: Vec<SSTable> = Vec::new();
        std::mem::swap(&mut l, &mut self.levels[level]);
        l.push(t);
        std::mem::swap(&mut l, &mut self.levels[level]);
        assert(self@ =~= mid.update(level as int, mid[level as int].push(t)));
    }

    /// The tables of `level`, oldest first.
    pub fn level(&self, level: usize) -> (r: &[SSTable])
        requires
            level < self@.len(),
        ensures
            r@ == self@[level as int],
    {
        self.levels[level].as_slice()
    }

    /// Whether level 0 holds at least `max` tables, so that it is due to
    /// be compacted into level 1.
    pub fn needs_compaction(&self, max: usize) -> (r: bool)
        ensures
            r == (self@.len() > 0 && self@[0].len() >= max),
    {
        self.levels.len() > 0 && self.levels[0].len() >= max
    }

    /// Make `tables` the tables of `level`, making the level if needed.
    pub fn set_level(&mut self, level: usize, tables: Vec<SSTable>)
        requires
            level < usize::MAX,
        ensures
            final(self)@.len() == if old(self)@.len() > level {
                old(self)@.len() as int
            } else {
                level + 1
            },
            forall|i: int|
                0 <= i < final(self)@.len() && i != level ==> #[trigger] final(self)@[i] == if i
                    < old(self)@.len() {
                    old(self)@[i]
                } else {
                    Seq::<SSTable>::empty()
                },
            final(self)@[level as int] == tables@,
    {
        self.ensure_level(level);
        let ghost mid = self@;
        let mut l = tables;
        let ghost tv = l@;
        std::mem::swap(&mut l, &mut self.levels[level]);
        assert(self@ =~= mid.update(level as int, tv));
    }

    /// Take all tables of `level`, leaving it empty (nothing when the level
    /// does not exist).
    pub fn take_level(&mut self, level: usize) -> (r: Vec<SSTable>)
        ensures
            r@ == (if level < old(self)@.len() {
                old(self)@[level as int]
            } else {
                Seq::<SSTable>::empty()
            }),
            final(self)@ == (if level < old(self)@.len() {
                old(self)@.update(level as int, Seq::<SSTable>::empty())
            } else {
                old(self)@
            }),
    {
        let mut l: Vec<SSTable> = Vec::new();
        if level < self.levels.len() {
            let ghost pre = self@;
            std::mem::swap(&mut l, &mut self.levels[level]);
            assert(self@ =~= pre.update(level as int, Seq::<SSTable>::empty()));
        }
        l
    }

    /// Look `key` up in the tables, in search order: the answer of the
    /// first table whose key range holds `key` and that does not answer
    /// "not found"; `None` when the search reaches a table that cannot
    /// answer the lookup (its filter cannot be queried for `key`).
    pub fn get(&self, key: &[u8]) -> (r: Option<Result<LookupResult, DecodeError>>)
        requires
            tables_wf(self@),
        ensures
            r is None ==> !search_ok(search_order(self@), key@),
            r matches Some(a) ==> search_answers(search_order(self@), key@, a),
    {
        let ghost ls = self@;
        let n = self.levels.len();
        if n == 0 {
            return Some(Ok(LookupResult::NotFound));
        }
        proof {
            assert(ls.skip(0) =~= ls);
            lemma_search_order_skip(ls, 0);
            assert(ls[0].reverse().skip(0) =~= ls[0].reverse());
        }
        let mut i: usize = 0;
        while i < n
            invariant
                ls == self@,
                n == ls.len(),
                n > 0,
                tables_wf(ls),
                i <= n,
                i < n ==> forall|r: Result<LookupResult, DecodeError>|
                    search_answers(remaining(ls, i as int, 0), key@, r) ==> search_answers(
                        search_order(ls),
                        key@,
                        r,
                    ),
                i < n ==> (search_ok(search_order(ls), key@) ==> search_ok(remaining(ls, i as int, 0), key@)),
                i == n ==> search_answers(search_order(ls), key@, Ok::<LookupResult, DecodeError>(LookupResult::NotFound)),
            decreases n - i,
        {
            let level = &self.levels[i];
            assert(level@ == ls[i as int]);
            let len = level.len();
            let mut m: usize = 0;
            while m < len
                invariant
                    ls == self@,
                    n == ls.len(),
                    i < n,
                    level@ == ls[i as int],
                    len == level@.len(),
                    tables_wf(ls),
                    m <= len,
                    forall|r: Result<LookupResult, DecodeError>|
                        search_answers(remaining(ls, i as int, m as int), key@, r) ==> search_answers(
                            search_order(ls),
                            key@,
                            r,
                        ),
                    search_ok(search_order(ls), key@) ==> search_ok(remaining(ls, i as int, m as int), key@),
                decreases len - m,
            {
                let t = &level[len - 1 - m];
                proof {
                    lemma_remaining_step(ls, i as int, m as int);
                    assert(t.wf());
                }
                if key_lt(key, t.min_key()) || key_lt(t.max_key(), key) {
                    // skip: the table's key range does not hold the key
                } else {
                    let a = match t.try_get(key) {
                        Some(a) => a,
                        None => return None,
                    };
                    let not_found = match &a {
                        Ok(LookupResult::NotFound) => true,
                        _ => false,
                    };
                    if !not_found {
                        proof {
                            assert(get_answers(*t, key@, a));
                            assert(search_answers(remaining(ls, i as int, m as int), key@, a));
                        }
                        return Some(a);
                    }
                    proof {
                        assert(a == Ok::<LookupResult, DecodeError>(LookupResult::NotFound));
                        assert(get_answers(*t, key@, a));
                        assert forall|r: Result<LookupResult, DecodeError>|
                            search_answers(remaining(ls, i as int, m + 1), key@, r) implies search_answers(
                            remaining(ls, i as int, m as int),
                            key@,
                            r,
                        ) by {
                            assert(get_answers(*t, key@, a));
                        }
                    }
                }
                m = m + 1;
            }
            proof {
                lemma_remaining_next_level(ls, i as int);
                if i + 1 == n {
                    assert(search_answers(
                        Seq::<SSTable>::empty(),
                        key@,
                        Ok::<LookupResult, DecodeError>(LookupResult::NotFound),
                    ));
                }
            }
            i = i + 1;
        }
        Some(Ok(LookupResult::NotFound))
    }
}


/// The key range of `t` does not meet `[start, end]`.
pub open spec fn misses(t: SSTable, start: Seq<u8>, end: Seq<u8>) -> bool {
    lex_lt(t.spec_max_key(), start) || lex_lt(end, t.spec_min_key())
}

/// `r` is what scanning `[start, end]` over the tables `ts`, in order,
/// collects: the scans of the tables whose key range meets the range, one
/// after the other, or the first error.
pub open spec fn collect_answers(
    ts: Seq<SSTable>,
    start: Seq<u8>,
    end: Seq<u8>,
    r: Result<Seq<EntryView>, DecodeError>,
) -> bool
    decreases ts.len(),
{
    if ts.len() == 0 {
        r == Ok::<Seq<EntryView>, DecodeError>(Seq::empty())
    } else if misses(ts[0], start, end) {
        collect_answers(ts.drop_first(), start, end, r)
    } else {
        exists|a: Result<Vec<Entry>, DecodeError>|
            #![trigger scan_answers(ts[0], start, end, a)]
            scan_answers(ts[0], start, end, a) && match a {
                Err(e) => r == Err::<Seq<EntryView>, DecodeError>(e),
                Ok(v) => match r {
                    Err(e) => collect_answers(ts.drop_first(), start, end, Err(e)),
                    Ok(out) => out.len() >= v@.len() && out.take(v@.len() as int) == entries_view(v@)
                        && collect_answers(
                        ts.drop_first(),
                        start,
                        end,
                        Ok(out.skip(v@.len() as int)),
                    ),
                },
            }
    }
}

/// `acc` followed by what `r` collects.
pub open spec fn after(acc: Seq<EntryView>, r: Result<Seq<EntryView>, DecodeError>) -> Result<
    Seq<EntryView>,
    DecodeError,
> {
    match r {
        Ok(out) => Ok(acc + out),
        Err(e) => Err(e),
    }
}

impl Levels {
    /// Scan `[start, end]` over the tables in search order, skipping those
    /// whose key range misses it, and collect what the scans give.
    pub fn collect_scan(&self, start: &[u8], end: &[u8]) -> (r: Result<Vec<Entry>, DecodeError>)
        ensures
            collect_answers(
                search_order(self@),
                start@,
                end@,
                match r {
                    Ok(v) => Ok(entries_view(v@)),
                    Err(e) => Err(e),
                },
            ),
    {
        let ghost ls = self@;
        let n = self.levels.len();
        let mut results: Vec<Entry> = Vec::new();
        if n == 0 {
            assert(entries_view(results@) =~= Seq::<EntryView>::empty());
            return Ok(results);
        }
        proof {
            assert(ls.skip(0) =~= ls);
            lemma_search_order_skip(ls, 0);
            assert(ls[0].reverse().skip(0) =~= ls[0].reverse());
            assert forall|r: Result<Seq<EntryView>, DecodeError>|
                collect_answers(remaining(ls, 0, 0), start@, end@, r) implies collect_answers(
                search_order(ls),
                start@,
                end@,
                after(entries_view(results@), r),
            ) by {
                match r {
                    Ok(out) => {
                        assert(entries_view(results@) + out =~= out);
                    },
                    Err(e) => {},
                }
            }
        }
        let mut i: usize = 0;
        while i < n
            invariant
                ls == self@,
                n == ls.len(),
                n > 0,
                i <= n,
                i < n ==> forall|r: Result<Seq<EntryView>, DecodeError>|
                    collect_answers(remaining(ls, i as int, 0), start@, end@, r) ==> collect_answers(
                        search_order(ls),
                        start@,
                        end@,
                        after(entries_view(results@), r),
                    ),
                i == n ==> collect_answers(
                    search_order(ls),
                    start@,
                    end@,
                    Ok::<Seq<EntryView>, DecodeError>(entries_view(results@)),
                ),
            decreases n - i,
        {
            let level = &self.levels[i];
            assert(level@ == ls[i as int]);
            let len = level.len();
            let mut m: usize = 0;
            while m < len
                invariant
                    ls == self@,
                    n == ls.len(),
                    i < n,
                    level@ == ls[i as int],
                    len == level@.len(),
                    m <= len,
                    forall|r: Result<Seq<EntryView>, DecodeError>|
                        collect_answers(remaining(ls, i as int, m as int), start@, end@, r)
                            ==> collect_answers(
                            search_order(ls),
                            start@,
                            end@,
                            after(entries_view(results@), r),
                        ),
                decreases len - m,
            {
                let t = &level[len - 1 - m];
                proof {
                    lemma_remaining_step(ls, i as int, m as int);
                }
                if key_lt(t.max_key(), start) || key_lt(end, t.min_key()) {
                    proof {
                        assert forall|r: Result<Seq<EntryView>, DecodeError>|
                            collect_answers(remaining(ls, i as int, m + 1), start@, end@, r) implies collect_answers(
                            remaining(ls, i as int, m as int),
                            start@,
                            end@,
                            r,
                        ) by {}
                        assert forall|r: Result<Seq<EntryView>, DecodeError>|
                            collect_answers(remaining(ls, i as int, m + 1), start@, end@, r) implies collect_answers(
                            search_order(ls),
                            start@,
                            end@,
                            after(entries_view(results@), r),
                        ) by {
                            assert(collect_answers(remaining(ls, i as int, m as int), start@, end@, r));
                        }
                    }
                } else {
                    let a = t.scan(start, end);
                    match a {
                        Err(e) => {
                            proof {
                                let rem = remaining(ls, i as int, m as int);
                                assert(scan_answers(*t, start@, end@, Err::<Vec<Entry>, DecodeError>(e)));
                                assert(collect_answers(rem, start@, end@, Err::<Seq<EntryView>, DecodeError>(e)));
                            }
                            return Err(e);
                        },
                        Ok(mut v) => {
                            let ghost vv = v@;
                            let ghost before = entries_view(results@);
                            proof {
                                assert forall|r: Result<Seq<EntryView>, DecodeError>|
                                    collect_answers(remaining(ls, i as int, m + 1), start@, end@, r)
                                        implies collect_answers(
                                    remaining(ls, i as int, m as int),
                                    start@,
                                    end@,
                                    after(entries_view(vv), r),
                                ) by {
                                    assert(scan_answers(*t, start@, end@, Ok::<Vec<Entry>, DecodeError>(v)));
                                    match r {
                                        Ok(out) => {
                                            let o2 = entries_view(vv) + out;
                                            assert(o2.take(vv.len() as int) =~= entries_view(vv));
                                            assert(o2.skip(vv.len() as int) =~= out);
                                        },
                                        Err(e) => {},
                                    }
                                }
                                assert forall|r: Result<Seq<EntryView>, DecodeError>|
                                    collect_answers(remaining(ls, i as int, m + 1), start@, end@, r)
                                        implies collect_answers(
                                    search_order(ls),
                                    start@,
                                    end@,
                                    after(before, after(entries_view(vv), r)),
                                ) by {
                                    assert(collect_answers(
                                        remaining(ls, i as int, m as int),
                                        start@,
                                        end@,
                                        after(entries_view(vv), r),
                                    ));
                                }
                            }
                            results.append(&mut v);
                            proof {
                                assert(entries_view(results@) =~= before + entries_view(vv));
                                assert forall|r: Result<Seq<EntryView>, DecodeError>|
                                    collect_answers(remaining(ls, i as int, m + 1), start@, end@, r)
                                        implies collect_answers(
                                    search_order(ls),
                                    start@,
                                    end@,
                                    after(entries_view(results@), r),
                                ) by {
                                    assert(collect_answers(
                                        search_order(ls),
                                        start@,
                                        end@,
                                        after(before, after(entries_view(vv), r)),
                                    ));
                                    match r {
                                        Ok(out) => {
                                            assert(before + (entries_view(vv) + out) =~= entries_view(
                                                results@,
                                            ) + out);
                                        },
                                        Err(e) => {},
                                    }
                                }
                            }
                        },
                    }
                }
                m = m + 1;
            }
            proof {
                lemma_remaining_next_level(ls, i as int);
                if i + 1 == n {
                    assert(collect_answers(
                        Seq::<SSTable>::empty(),
                        start@,
                        end@,
                        Ok::<Seq<EntryView>, DecodeError>(Seq::empty()),
                    ));
                    assert(entries_view(results@) + Seq::<EntryView>::empty() =~= entries_view(
                        results@,
                    ));
                }
            }
            i = i + 1;
        }
        Ok(results)
    }
}


/// The keys whose newest version in `s` holds a value.
pub open spec fn visible_keys(s: Seq<EntryView>) -> spec_fn(Seq<u8>) -> bool {
    |k: Seq<u8>| visible_in(s, k)
}

/// Look `key` up as the engine does: its newest version in the memtable if
/// there is one, else the answer of the tables in search order; `None` when
/// that search reaches a table that cannot answer the lookup.
pub fn get_from(memtable: &Memtable, levels: &Levels, key: &[u8]) -> (r: Option<
    Result<LookupResult, DecodeError>,
>)
    requires
        memtable.wf(),
        tables_wf(levels@),
    ensures
        r is None ==> newest_version(memtable@, key@) is None && !search_ok(search_order(levels@), key@),
        r matches Some(a) ==> match newest_version(memtable@, key@) {
            Some(e) => a is Ok && reports(a->Ok_0, Some(e)),
            None => search_answers(search_order(levels@), key@, a),
        },
{
    match memtable.get(key) {
        Some(entry) => match entry.value {
            Some(v) => Some(Ok(LookupResult::Found(v))),
            None => Some(Ok(LookupResult::Tombstone)),
        },
        None => levels.get(key),
    }
}

/// Scan `[start, end]` as the engine does: the memtable's entries in the
/// range and those the tables give, merged into the newest version of each
/// key, in key order, without the keys whose newest version is a tombstone.
pub fn scan_from(memtable: &Memtable, levels: &Levels, start: &[u8], end: &[u8]) -> (r: Result<
    Vec<Entry>,
    DecodeError,
>)
    requires
        memtable.wf(),
    ensures
        match r {
            Ok(v) => exists|c: Seq<EntryView>|
                #![trigger collect_answers(search_order(levels@), start@, end@, Ok::<Seq<EntryView>, DecodeError>(c))]
                collect_answers(
                    search_order(levels@),
                    start@,
                    end@,
                    Ok::<Seq<EntryView>, DecodeError>(c),
                ) && newest_per_key(
                    select_range(memtable@, start@, end@) + c,
                    entries_view(v@),
                    visible_keys(select_range(memtable@, start@, end@) + c),
                ),
            Err(e) => collect_answers(
                search_order(levels@),
                start@,
                end@,
                Err::<Seq<EntryView>, DecodeError>(e),
            ),
        },
{
    let mut all = memtable.range_scan(start, end);
    let ghost m = entries_view(all@);
    let mut tables = match levels.collect_scan(start, end) {
        Ok(v) => v,
        Err(e) => return Err(e),
    };
    let ghost c = entries_view(tables@);
    all.append(&mut tables);
    assert(entries_view(all@) =~= m + c);
    let merged = merge_visible(all.as_slice());
    proof {
        assert(visible_keys(m + c) =~= (|k: Seq<u8>| visible_in(entries_view(all@), k)));
        assert(collect_answers(
            search_order(levels@),
            start@,
            end@,
            Ok::<Seq<EntryView>, DecodeError>(c),
        ));
    }
    Ok(merged)
}

/// The tables of `ts` recorded at level `l`, in order.
pub open spec fn level_tables(ts: Seq<(usize, SSTable)>, l: int) -> Seq<SSTable>
    decreases ts.len(),
{
    if ts.len() == 0 {
        Seq::empty()
    } else {
        let rest = level_tables(ts.drop_last(), l);
        if ts.last().0 == l {
            rest.push(ts.last().1)
        } else {
            rest
        }
    }
}

/// The levels `0..=max_level` holding the tables `ts`, each given with its
/// level: a level holds the tables recorded at it, in the order given.
pub fn assemble_levels(max_level: usize, ts: Vec<(usize, SSTable)>) -> (r: Vec<Vec<SSTable>>)
    requires
        max_level < usize::MAX,
        forall|i: int| 0 <= i < ts@.len() ==> (#[trigger] ts@[i]).0 <= max_level,
    ensures
        r@.len() == max_level + 1,
        forall|l: int| 0 <= l <= max_level ==> (#[trigger] r@[l])@ == level_tables(ts@, l),
{
    let ghost all = ts@;
    let mut levels: Vec<Vec<SSTable>> = Vec::new();
    let mut n: usize = 0;
    while n <= max_level
        invariant
            max_level < usize::MAX,
            n <= max_level + 1,
            levels@.len() == n,
            forall|l: int| 0 <= l < n ==> (#[trigger] levels@[l])@ == Seq::<SSTable>::empty(),
        decreases max_level + 1 - n,
    {
        levels.push(Vec::new());
        n = n + 1;
    }
    let mut rest = ts;
    let ghost mut k: int = 0;
    assert(all.subrange(0, 0) =~= Seq::<(usize, SSTable)>::empty());
    assert(rest@ =~= all.subrange(0, all.len() as int));
    while rest.len() > 0
        invariant
            forall|i: int| 0 <= i < all.len() ==> (#[trigger] all[i]).0 <= max_level,
            0 <= k <= all.len(),
            rest@ == all.subrange(k, all.len() as int),
            levels@.len() == max_level + 1,
            forall|l: int| 0 <= l <= max_level ==> (#[trigger] levels@[l])@ == level_tables(
                all.subrange(0, k),
                l,
            ),
        decreases rest.len(),
    {
        let ghost old_rest = rest@;
        let (lvl, t) = rest.remove(0);
        assert((lvl, t) == all[k]);
        assert(rest@ =~= all.subrange(k + 1, all.len() as int));
        let ghost pre = levels@;
        let mut l: Vec<SSTable> = Vec::new();
        std::mem::swap(&mut l, &mut levels[lvl]);
        l.push(t);
        std::mem::swap(&mut l, &mut levels[lvl]);
        proof {
            assert(all.subrange(0, k + 1).drop_last() =~= all.subrange(0, k));
            assert(all.subrange(0, k + 1).last() == all[k]);
            assert forall|j: int| 0 <= j <= max_level implies (#[trigger] levels@[j])@ == level_tables(
                all.subrange(0, k + 1),
                j,
            ) by {
                if j == lvl as int {
                    assert(levels@[j]@ =~= pre[j]@.push(t));
                } else {
                    assert(levels@[j] == pre[j]);
                }
            }
            k = k + 1;
        }
    }
    assert(all.subrange(0, all.len() as int) =~= all);
    levels
}

} // verus!
