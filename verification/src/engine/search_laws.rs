//! What the read path answers over tables built from entries: a table
//! without a version of the key is passed over, the first table that holds
//! one answers with it, a scan collects each table's entries in the range,
//! and a compacted table answers as the tables it replaced.
use vstd::prelude::*;

use crate::engine::block::DecodeError;
use crate::engine::compaction::{full_scan, kept_keys};
use crate::engine::merge::{has_key, newest_per_key, survives_compaction};
use crate::engine::levels::{collect_answers, misses, outside, search_answers, search_order};
use crate::engine::sstable::{get_answers, open_outcome, opened_as, scan_answers, table_file_of, SSTable};
use crate::engine::table_laws::{
    flatten, lemma_built_table_answers, lemma_built_table_blocks, lemma_built_table_full_scan,
    lemma_key_between, table_fits,
};
use crate::keys::lemma_lex_order;
use crate::versions::{newest_version, select_range, sorted_by_key};
use crate::{reports, EntryView, IndexType, LookupResult};

verus! {

/// `t` is a table built from the entries `s`, in key order.
pub open spec fn table_built(t: SSTable, s: Seq<EntryView>) -> bool {
    &&& sorted_by_key(s)
    &&& table_fits(s)
    &&& exists|block_size: usize, index_type: IndexType, bits: usize, learned: Seq<u8>|
        #![trigger table_file_of(t.spec_data(), s, block_size, index_type, bits, learned)]
        table_file_of(t.spec_data(), s, block_size, index_type, bits, learned)
    &&& open_outcome(t.spec_data()) matches Ok(p) && opened_as(t, p)
}

/// What a table built from entries answers and reads back: a lookup
/// answers exactly what reports the key's newest version, a key with a
/// version lies in the table's key range, and a full scan reads all the
/// entries.
pub proof fn lemma_table_built(t: SSTable, s: Seq<EntryView>, k: Seq<u8>)
    requires
        table_built(t, s),
    ensures
        forall|r: Result<LookupResult, DecodeError>|
            #[trigger] get_answers(t, k, r) <==> (r matches Ok(a) && reports(a, newest_version(s, k))),
        newest_version(s, k) is Some ==> !outside(t, k),
        full_scan(t) == Some(s),
{
    let (block_size, index_type, bits, learned) = choose|
        block_size: usize,
        index_type: IndexType,
        bits: usize,
        learned: Seq<u8>,
    | #![trigger table_file_of(t.spec_data(), s, block_size, index_type, bits, learned)]
        table_file_of(t.spec_data(), s, block_size, index_type, bits, learned);
    lemma_built_table_answers(t, s, block_size, index_type, bits, learned, k);
    lemma_built_table_blocks(t, s, block_size, index_type, bits, learned);
    lemma_built_table_full_scan(t, s, block_size, index_type, bits, learned);
    if newest_version(s, k) is Some {
        let i = choose|i: int| crate::versions::is_newest_at(s, k, i);
        lemma_key_between(s, i);
        lemma_lex_order(k, s[0].key, k);
        lemma_lex_order(s.last().key, k, s.last().key);
    }
}

/// The tables a read consults are those of the first `i` levels, then
/// those of the rest.
pub proof fn lemma_search_order_split(ls: Seq<Seq<SSTable>>, i: int)
    requires
        0 <= i <= ls.len(),
    ensures
        search_order(ls) == search_order(ls.subrange(0, i)) + search_order(ls.skip(i)),
    decreases i,
{
    if i == 0 {
        assert(ls.subrange(0, 0) =~= Seq::<Seq<SSTable>>::empty());
        assert(ls.skip(0) =~= ls);
        assert(Seq::<SSTable>::empty() + search_order(ls) =~= search_order(ls));
    } else {
        lemma_search_order_split(ls.drop_first(), i - 1);
        assert(ls.subrange(0, i).drop_first() =~= ls.drop_first().subrange(0, i - 1));
        assert(ls.subrange(0, i)[0] == ls[0]);
        assert(ls.drop_first().skip(i - 1) =~= ls.skip(i));
        assert(ls[0].reverse() + (search_order(ls.drop_first().subrange(0, i - 1)) + search_order(
            ls.skip(i),
        )) =~= ls[0].reverse() + search_order(ls.drop_first().subrange(0, i - 1)) + search_order(
            ls.skip(i),
        ));
    }
}

/// Tables consulted first that end a search the same way keep it so: when
/// whatever a search of `y1` answers a search of `y2` could answer, the
/// same holds with the tables `p` consulted before them.
pub proof fn lemma_search_prefix(
    p: Seq<SSTable>,
    y1: Seq<SSTable>,
    y2: Seq<SSTable>,
    k: Seq<u8>,
    r: Result<LookupResult, DecodeError>,
)
    requires
        forall|r2: Result<LookupResult, DecodeError>|
            #[trigger] search_answers(y1, k, r2) ==> search_answers(y2, k, r2),
        search_answers(p + y1, k, r),
    ensures
        search_answers(p + y2, k, r),
    decreases p.len(),
{
    if p.len() == 0 {
        assert(p + y1 =~= y1);
        assert(p + y2 =~= y2);
    } else {
        let s1 = p + y1;
        let s2 = p + y2;
        assert(s1[0] == p[0]);
        assert(s2[0] == p[0]);
        assert(s1.drop_first() =~= p.drop_first() + y1);
        assert(s2.drop_first() =~= p.drop_first() + y2);
        if outside(p[0], k) {
            lemma_search_prefix(p.drop_first(), y1, y2, k, r);
        } else {
            let a = choose|a: Result<LookupResult, DecodeError>|
                #![trigger get_answers(s1[0], k, a)]
                get_answers(s1[0], k, a) && if a == Ok::<LookupResult, DecodeError>(
                    LookupResult::NotFound,
                ) {
                    search_answers(s1.drop_first(), k, r)
                } else {
                    r == a
                };
            if a == Ok::<LookupResult, DecodeError>(LookupResult::NotFound) {
                lemma_search_prefix(p.drop_first(), y1, y2, k, r);
            }
            assert(get_answers(s2[0], k, a));
        }
    }
}

/// Tables built from entries without a version of `k` are passed over: a
/// search of them and then of `d` answers what a search of `d` answers.
pub proof fn lemma_search_passes(
    x: Seq<SSTable>,
    ss: Seq<Seq<EntryView>>,
    d: Seq<SSTable>,
    k: Seq<u8>,
    r: Result<LookupResult, DecodeError>,
)
    requires
        x.len() == ss.len(),
        forall|i: int| 0 <= i < x.len() ==> table_built(#[trigger] x[i], ss[i]),
        forall|i: int| 0 <= i < x.len() ==> (#[trigger] newest_version(ss[i], k)) is None,
        search_answers(d, k, r),
    ensures
        search_answers(x + d, k, r),
    decreases x.len(),
{
    if x.len() == 0 {
        assert(x + d =~= d);
    } else {
        let xd = x + d;
        assert(xd[0] == x[0]);
        assert(xd.drop_first() =~= x.drop_first() + d);
        assert forall|i: int| 0 <= i < x.drop_first().len() implies table_built(
            #[trigger] x.drop_first()[i],
            ss.drop_first()[i],
        ) && newest_version(ss.drop_first()[i], k) is None by {
            assert(x.drop_first()[i] == x[i + 1]);
            assert(ss.drop_first()[i] == ss[i + 1]);
            assert(table_built(x[i + 1], ss[i + 1]));
            assert(newest_version(ss[i + 1], k) is None);
        }
        lemma_search_passes(x.drop_first(), ss.drop_first(), d, k, r);
        assert(table_built(x[0], ss[0]));
        assert(newest_version(ss[0], k) is None);
        lemma_table_built(x[0], ss[0], k);
        if !outside(x[0], k) {
            let a = Ok::<LookupResult, DecodeError>(LookupResult::NotFound);
            assert(get_answers(xd[0], k, a));
        }
    }
}

/// The first table built from entries with a version of `k`, after tables
/// built from entries without one, answers the search with that version.
pub proof fn lemma_search_first_holder(
    x: Seq<SSTable>,
    ss: Seq<Seq<EntryView>>,
    t: SSTable,
    s: Seq<EntryView>,
    d: Seq<SSTable>,
    k: Seq<u8>,
    r: Result<LookupResult, DecodeError>,
)
    requires
        x.len() == ss.len(),
        forall|i: int| 0 <= i < x.len() ==> table_built(#[trigger] x[i], ss[i]),
        forall|i: int| 0 <= i < x.len() ==> (#[trigger] newest_version(ss[i], k)) is None,
        table_built(t, s),
        newest_version(s, k) is Some,
        r matches Ok(a) && reports(a, newest_version(s, k)),
    ensures
        search_answers(x + (seq![t] + d), k, r),
{
    let td = seq![t] + d;
    assert(td[0] == t);
    lemma_table_built(t, s, k);
    assert(get_answers(td[0], k, r));
    assert(r != Ok::<LookupResult, DecodeError>(LookupResult::NotFound));
    assert(search_answers(td, k, r));
    lemma_search_passes(x, ss, td, k, r);
}

/// A search that consults a table built from entries first answers with
/// the key's version there, or else what the rest answers.
pub proof fn lemma_search_holder_first(
    t: SSTable,
    s: Seq<EntryView>,
    d: Seq<SSTable>,
    k: Seq<u8>,
    r: Result<LookupResult, DecodeError>,
)
    requires
        table_built(t, s),
        search_answers(seq![t] + d, k, r),
    ensures
        match newest_version(s, k) {
            Some(e) => r matches Ok(a) && reports(a, Some(e)),
            None => search_answers(d, k, r),
        },
{
    let td = seq![t] + d;
    assert(td[0] == t);
    assert(td.drop_first() =~= d);
    lemma_table_built(t, s, k);
}

/// A table read earlier holds the newer versions of `k`: along `rs` (the
/// entries of tables in the order a read consults them), every version of
/// `k` carries a larger sequence number than every version in a later
/// table.
pub open spec fn newer_first(rs: Seq<Seq<EntryView>>, k: Seq<u8>) -> bool {
    forall|i: int, j: int, p: int, q: int|
        0 <= i < j < rs.len() && 0 <= p < rs[i].len() && 0 <= q < rs[j].len() && #[trigger] rs[i][p].key == k
            && #[trigger] rs[j][q].key == k ==> rs[i][p].sequence > rs[j][q].sequence
}

/// `s` holds a version of `k`.
pub open spec fn holds_key(s: Seq<EntryView>, k: Seq<u8>) -> bool {
    exists|p: int| 0 <= p < s.len() && s[p].key == k
}

/// The first of the entries `rs` that holds a version of `k`, when one
/// does.
proof fn lemma_first_holder(rs: Seq<Seq<EntryView>>, k: Seq<u8>) -> (j: int)
    requires
        exists|i: int| 0 <= i < rs.len() && holds_key(#[trigger] rs[i], k),
    ensures
        0 <= j < rs.len(),
        holds_key(rs[j], k),
        forall|i: int| 0 <= i < j ==> !holds_key(#[trigger] rs[i], k),
    decreases rs.len(),
{
    if holds_key(rs[0], k) {
        0
    } else {
        let w = choose|i: int| 0 <= i < rs.len() && holds_key(#[trigger] rs[i], k);
        assert(rs.drop_first()[w - 1] == rs[w]);
        let j = lemma_first_holder(rs.drop_first(), k);
        assert forall|i: int| 0 <= i < j + 1 implies !holds_key(#[trigger] rs[i], k) by {
            if i > 0 {
                assert(rs[i] == rs.drop_first()[i - 1]);
            }
        }
        assert(rs[j + 1] == rs.drop_first()[j]);
        j + 1
    }
}

/// The newest version of `k` among the entries of tables `ts` (laid end to
/// end) is the one in the first table a read consults that holds `k`, when
/// tables read earlier hold newer versions. Table `c` is read at position
/// `rank(c)` of `rs`, and table `cj` is the first one read that holds `k`.
proof fn lemma_newest_among_tables(
    ts: Seq<Seq<EntryView>>,
    rs: Seq<Seq<EntryView>>,
    rank: spec_fn(int) -> int,
    cj: int,
    k: Seq<u8>,
)
    requires
        forall|c: int| 0 <= c < ts.len() ==> 0 <= #[trigger] rank(c) < rs.len() && rs[rank(c)] == ts[c],
        forall|c: int| 0 <= c < ts.len() && #[trigger] rank(c) == rank(cj) ==> c == cj,
        0 <= cj < ts.len(),
        holds_key(ts[cj], k),
        forall|i: int| 0 <= i < rank(cj) ==> !holds_key(#[trigger] rs[i], k),
        newer_first(rs, k),
    ensures
        newest_version(crate::engine::table_laws::flatten(ts), k) == newest_version(ts[cj], k),
        newest_version(ts[cj], k) is Some,
{
    let f = crate::engine::table_laws::flatten(ts);
    let q0 = choose|p: int| 0 <= p < ts[cj].len() && ts[cj][p].key == k;
    crate::versions::lemma_newest_exists(ts[cj], k, q0);
    let q = choose|p: int| crate::versions::is_newest_at(ts[cj], k, p);
    let e = ts[cj][q];
    crate::versions::lemma_newest_version_at(ts[cj], k, q);
    crate::engine::table_laws::lemma_block_in_flatten(ts, cj);
    let g0 = crate::engine::table_laws::block_start(ts, cj);
    assert(f[g0 + q] == e) by {
        assert(f.subrange(g0, crate::engine::table_laws::block_start(ts, cj + 1))[q] == ts[cj][q]);
    }
    assert forall|g: int| 0 <= g < f.len() && #[trigger] f[g].key == k implies f[g].sequence <= e.sequence && (
    g < g0 + q ==> f[g].sequence < e.sequence) by {
        let c = crate::engine::table_laws::lemma_block_of_position(ts, g);
        crate::engine::table_laws::lemma_block_in_flatten(ts, c);
        let gc = crate::engine::table_laws::block_start(ts, c);
        let p = g - gc;
        assert(f[g] == ts[c][p]) by {
            assert(f.subrange(gc, crate::engine::table_laws::block_start(ts, c + 1))[p] == ts[c][p]);
        }
        if rank(c) == rank(cj) {
            assert(c == cj);
            if g < g0 + q {
                assert(p < q);
            }
        } else if rank(c) < rank(cj) {
            assert(rs[rank(c)] == ts[c]);
            assert(holds_key(rs[rank(c)], k));
        } else {
            assert(rs[rank(cj)] == ts[cj]);
            assert(rs[rank(c)] == ts[c]);
            assert(rs[rank(cj)][q].key == k && rs[rank(c)][p].key == k);
        }
    }
    assert(crate::versions::is_newest_at(f, k, g0 + q));
    crate::versions::lemma_newest_version_at(f, k, g0 + q);
}

/// Where a read consults table `c` of the tables of two levels laid out
/// as the newer level's then the older level's, each oldest first: the
/// newer level's from its newest, then the older level's from its newest.
pub open spec fn read_rank(n_new: int, n_old: int, c: int) -> int {
    if c < n_new {
        n_new - 1 - c
    } else {
        n_new + n_old - 1 - (c - n_new)
    }
}

/// Reading the tables of two levels consults table `c` at position
/// `read_rank(c)`, and every table once.
proof fn lemma_read_rank(ss_new: Seq<Seq<EntryView>>, ss_old: Seq<Seq<EntryView>>)
    ensures
        forall|c: int|
            0 <= c < ss_new.len() + ss_old.len() ==> {
                let r = #[trigger] read_rank(ss_new.len() as int, ss_old.len() as int, c);
                &&& 0 <= r < ss_new.len() + ss_old.len()
                &&& (ss_new.reverse() + ss_old.reverse())[r] == (ss_new + ss_old)[c]
                &&& read_rank(ss_new.len() as int, ss_old.len() as int, r) == c
            },
{
    let n = ss_new.len() as int;
    let o = ss_old.len() as int;
    assert forall|c: int| 0 <= c < n + o implies {
        let r = #[trigger] read_rank(n, o, c);
        &&& 0 <= r < n + o
        &&& (ss_new.reverse() + ss_old.reverse())[r] == (ss_new + ss_old)[c]
        &&& read_rank(n, o, r) == c
    } by {
        let r = read_rank(n, o, c);
        if c < n {
            assert(ss_new.reverse()[r] == ss_new[c]);
        } else {
            assert(ss_old.reverse()[r - n] == ss_old[c - n]);
        }
    }
}

/// The tables of levels `l` and `l + 1` in the order a read consults them
/// hold the entries in read order.
pub(crate) proof fn lemma_read_tables(
    ls: Seq<Seq<SSTable>>,
    l: int,
    ss_new: Seq<Seq<EntryView>>,
    ss_old: Seq<Seq<EntryView>>,
)
    requires
        0 <= l,
        l + 1 < ls.len(),
        ss_new.len() == ls[l].len(),
        forall|i: int| 0 <= i < ss_new.len() ==> table_built(#[trigger] ls[l][i], ss_new[i]),
        ss_old.len() == ls[l + 1].len(),
        forall|i: int| 0 <= i < ss_old.len() ==> table_built(#[trigger] ls[l + 1][i], ss_old[i]),
    ensures
        ({
            let x = ls[l].reverse() + ls[l + 1].reverse();
            let rs = ss_new.reverse() + ss_old.reverse();
            &&& x.len() == rs.len()
            &&& forall|i: int| 0 <= i < x.len() ==> table_built(#[trigger] x[i], rs[i])
        }),
{
    let x = ls[l].reverse() + ls[l + 1].reverse();
    let rs = ss_new.reverse() + ss_old.reverse();
    let n = ss_new.len() as int;
    assert forall|i: int| 0 <= i < x.len() implies table_built(#[trigger] x[i], rs[i]) by {
        if i < n {
            assert(x[i] == ls[l][n - 1 - i]);
            assert(rs[i] == ss_new[n - 1 - i]);
        } else {
            let o = ss_old.len() as int;
            assert(x[i] == ls[l + 1][o - 1 - (i - n)]);
            assert(rs[i] == ss_old[o - 1 - (i - n)]);
        }
    }
}

/// An entry of table `c` stands among the entries of all the tables.
proof fn lemma_entry_in_flatten(ts: Seq<Seq<EntryView>>, c: int, p: int) -> (g: int)
    requires
        0 <= c < ts.len(),
        0 <= p < ts[c].len(),
    ensures
        0 <= g < flatten(ts).len(),
        flatten(ts)[g] == ts[c][p],
{
    crate::engine::table_laws::lemma_block_in_flatten(ts, c);
    let g0 = crate::engine::table_laws::block_start(ts, c);
    assert(flatten(ts).subrange(g0, crate::engine::table_laws::block_start(ts, c + 1))[p] == ts[c][p]);
    g0 + p
}

/// Every entry of all the tables stands in one of them.
proof fn lemma_entry_of_flatten(ts: Seq<Seq<EntryView>>, g: int) -> (cp: (int, int))
    requires
        0 <= g < flatten(ts).len(),
    ensures
        0 <= cp.0 < ts.len(),
        0 <= cp.1 < ts[cp.0].len(),
        flatten(ts)[g] == ts[cp.0][cp.1],
{
    let c = crate::engine::table_laws::lemma_block_of_position(ts, g);
    crate::engine::table_laws::lemma_block_in_flatten(ts, c);
    let g0 = crate::engine::table_laws::block_start(ts, c);
    assert(flatten(ts).subrange(g0, crate::engine::table_laws::block_start(ts, c + 1))[g - g0] == ts[c][g
        - g0]);
    (c, g - g0)
}

/// The facts the two cases of a compacted search share.
pub open spec fn compacted_from(
    x: Seq<SSTable>,
    ss_new: Seq<Seq<EntryView>>,
    ss_old: Seq<Seq<EntryView>>,
    t: SSTable,
    m: Seq<EntryView>,
    level: usize,
    k: Seq<u8>,
) -> bool {
    &&& x.len() == ss_new.len() + ss_old.len()
    &&& forall|i: int| 0 <= i < x.len() ==> table_built(#[trigger] x[i], (ss_new.reverse() + ss_old.reverse())[i])
    &&& newer_first(ss_new.reverse() + ss_old.reverse(), k)
    &&& newest_per_key(flatten(ss_new) + flatten(ss_old), m, kept_keys(flatten(ss_new) + flatten(ss_old), level))
    &&& table_built(t, m)
    &&& survives_compaction(flatten(ss_new) + flatten(ss_old), k, level)
}

/// When a compacted table holds `k`, the first one a read consults holds
/// the version of `k` that the compacted table holds.
#[verifier::spinoff_prover]
proof fn lemma_compacted_holder(
    x: Seq<SSTable>,
    ss_new: Seq<Seq<EntryView>>,
    ss_old: Seq<Seq<EntryView>>,
    t: SSTable,
    m: Seq<EntryView>,
    level: usize,
    k: Seq<u8>,
) -> (j: int)
    requires
        compacted_from(x, ss_new, ss_old, t, m, level, k),
        exists|i: int| 0 <= i < x.len() && holds_key(#[trigger] (ss_new.reverse() + ss_old.reverse())[i], k),
    ensures
        0 <= j < x.len(),
        forall|i: int|
            0 <= i < j ==> !holds_key(#[trigger] (ss_new.reverse() + ss_old.reverse())[i], k),
        newest_version((ss_new.reverse() + ss_old.reverse())[j], k) is Some,
        newest_version(m, k) == newest_version((ss_new.reverse() + ss_old.reverse())[j], k),
{
    let rs = ss_new.reverse() + ss_old.reverse();
    let ts = ss_new + ss_old;
    let all = flatten(ss_new) + flatten(ss_old);
    let n = ss_new.len() as int;
    let o = ss_old.len() as int;
    crate::engine::table_laws::lemma_flatten_add(ss_new, ss_old);
    lemma_read_rank(ss_new, ss_old);
    let j = lemma_first_holder(rs, k);
    let cj = read_rank(n, o, j);
    assert(rs[j] == ts[cj]);
    let rank = |c: int| read_rank(n, o, c);
    assert forall|c: int| 0 <= c < ts.len() && #[trigger] rank(c) == rank(cj) implies c == cj by {
        assert(read_rank(n, o, read_rank(n, o, c)) == c);
    }
    lemma_newest_among_tables(ts, rs, rank, cj, k);
    let e = newest_version(rs[j], k)->Some_0;
    // the newest version among all the entries survives into `t`
    let q = choose|p: int| 0 <= p < ts[cj].len() && ts[cj][p].key == k;
    let g = lemma_entry_in_flatten(ts, cj, q);
    assert(kept_keys(all, level)(all[g].key));
    assert(has_key(m, all[g].key));
    let t0 = choose|t0: int| 0 <= t0 < m.len() && m[t0].key == k;
    crate::engine::table_laws::lemma_unique_newest(m, k, t0);
    j
}

/// The case of a compacted search where a compacted table holds `k`.
#[verifier::rlimit(50)]
#[verifier::spinoff_prover]
proof fn lemma_compacted_search_held(
    x: Seq<SSTable>,
    ss_new: Seq<Seq<EntryView>>,
    ss_old: Seq<Seq<EntryView>>,
    t: SSTable,
    m: Seq<EntryView>,
    level: usize,
    d: Seq<SSTable>,
    k: Seq<u8>,
    r: Result<LookupResult, DecodeError>,
)
    requires
        compacted_from(x, ss_new, ss_old, t, m, level, k),
        exists|i: int| 0 <= i < x.len() && holds_key(#[trigger] (ss_new.reverse() + ss_old.reverse())[i], k),
        search_answers(seq![t] + d, k, r),
    ensures
        search_answers(x + d, k, r),
{
    let rs = ss_new.reverse() + ss_old.reverse();
    let j = lemma_compacted_holder(x, ss_new, ss_old, t, m, level, k);
    lemma_search_holder_first(t, m, d, k, r);
    let x1 = x.subrange(0, j);
    let r1 = rs.subrange(0, j);
    assert forall|i: int| 0 <= i < x1.len() implies table_built(#[trigger] x1[i], r1[i]) by {
        assert(x1[i] == x[i]);
        assert(r1[i] == rs[i]);
    }
    assert forall|i: int| 0 <= i < x1.len() implies (#[trigger] newest_version(r1[i], k)) is None by {
        assert(r1[i] == rs[i]);
        assert(!holds_key(rs[i], k));
        crate::engine::table_laws::lemma_absent_newest(rs[i], k);
    }
    lemma_search_first_holder(x1, r1, x[j], rs[j], x.subrange(j + 1, x.len() as int) + d, k, r);
    assert(x1 + (seq![x[j]] + (x.subrange(j + 1, x.len() as int) + d)) =~= x + d);
}

/// The case of a compacted search where no compacted table holds `k`.
proof fn lemma_compacted_search_absent(
    x: Seq<SSTable>,
    ss_new: Seq<Seq<EntryView>>,
    ss_old: Seq<Seq<EntryView>>,
    t: SSTable,
    m: Seq<EntryView>,
    level: usize,
    d: Seq<SSTable>,
    k: Seq<u8>,
    r: Result<LookupResult, DecodeError>,
)
    requires
        compacted_from(x, ss_new, ss_old, t, m, level, k),
        !exists|i: int| 0 <= i < x.len() && holds_key(#[trigger] (ss_new.reverse() + ss_old.reverse())[i], k),
        search_answers(seq![t] + d, k, r),
    ensures
        search_answers(x + d, k, r),
{
    let rs = ss_new.reverse() + ss_old.reverse();
    let ts = ss_new + ss_old;
    let all = flatten(ss_new) + flatten(ss_old);
    let n = ss_new.len() as int;
    let o = ss_old.len() as int;
    crate::engine::table_laws::lemma_flatten_add(ss_new, ss_old);
    lemma_read_rank(ss_new, ss_old);
    lemma_search_holder_first(t, m, d, k, r);
    assert(newest_version(m, k) is None) by {
        if newest_version(m, k) is Some {
            let i = choose|i: int| crate::versions::is_newest_at(m, k, i);
            assert(newest_version(all, m[i].key) == Some(m[i]));
            let g = choose|g: int| crate::versions::is_newest_at(all, k, g);
            let (c, p) = lemma_entry_of_flatten(ts, g);
            let rc = read_rank(n, o, c);
            assert(rs[rc] == ts[c]);
            assert(holds_key(rs[rc], k));
        }
    }
    assert forall|i: int| 0 <= i < x.len() implies (#[trigger] newest_version(rs[i], k)) is None by {
        assert(!holds_key(rs[i], k));
        crate::engine::table_laws::lemma_absent_newest(rs[i], k);
    }
    lemma_search_passes(x, rs, d, k, r);
}

/// A search that consults the compacted table `t` in place of the tables
/// `x` it was compacted from answers what a search of `x` could have
/// answered, for a key the compaction did not drop: when the tables `x`
/// hold the entries `ss_new.reverse() + ss_old.reverse()` (the newer
/// level's tables from the newest, then the older level's), tables read
/// earlier hold newer versions of `k`, and `t` holds the newest version of
/// every key that survives among all their entries.
pub proof fn lemma_compacted_search(
    x: Seq<SSTable>,
    ss_new: Seq<Seq<EntryView>>,
    ss_old: Seq<Seq<EntryView>>,
    t: SSTable,
    m: Seq<EntryView>,
    level: usize,
    d: Seq<SSTable>,
    k: Seq<u8>,
    r: Result<LookupResult, DecodeError>,
)
    requires
        compacted_from(x, ss_new, ss_old, t, m, level, k),
        search_answers(seq![t] + d, k, r),
    ensures
        search_answers(x + d, k, r),
{
    if exists|i: int| 0 <= i < x.len() && holds_key(#[trigger] (ss_new.reverse() + ss_old.reverse())[i], k) {
        lemma_compacted_search_held(x, ss_new, ss_old, t, m, level, d, k, r);
    } else {
        lemma_compacted_search_absent(x, ss_new, ss_old, t, m, level, d, k, r);
    }
}

/// A scan of a table built from entries gives the entries in the range,
/// and a table whose key range misses the range holds none of them.
pub proof fn lemma_table_built_scan(t: SSTable, s: Seq<EntryView>, start: Seq<u8>, end: Seq<u8>)
    requires
        table_built(t, s),
    ensures
        forall|a: Result<Vec<crate::Entry>, DecodeError>|
            #[trigger] scan_answers(t, start, end, a) ==> (a matches Ok(v) && crate::versions::entries_view(v@)
                == select_range(s, start, end)),
        misses(t, start, end) ==> select_range(s, start, end) == Seq::<EntryView>::empty(),
{
    let (block_size, index_type, bits, learned) = choose|
        block_size: usize,
        index_type: IndexType,
        bits: usize,
        learned: Seq<u8>,
    | #![trigger table_file_of(t.spec_data(), s, block_size, index_type, bits, learned)]
        table_file_of(t.spec_data(), s, block_size, index_type, bits, learned);
    assert forall|a: Result<Vec<crate::Entry>, DecodeError>| #[trigger]
        scan_answers(t, start, end, a) implies (a matches Ok(v) && crate::versions::entries_view(v@)
        == select_range(s, start, end)) by {
        crate::engine::table_laws::lemma_built_table_scan(t, s, block_size, index_type, bits, learned, start, end, a);
    }
    lemma_built_table_blocks(t, s, block_size, index_type, bits, learned);
    if misses(t, start, end) {
        let pred = |e: EntryView| crate::versions::key_in_range(e, start, end);
        assert forall|i: int| 0 <= i < s.len() implies !pred(#[trigger] s[i]) by {
            lemma_key_between(s, i);
            let k = s[i].key;
            if crate::keys::lex_lt(t.spec_max_key(), start) {
                lemma_lex_order(start, k, t.spec_max_key());
                lemma_lex_order(k, t.spec_max_key(), start);
                lemma_lex_order(k, start, k);
            } else {
                lemma_lex_order(t.spec_min_key(), k, end);
                lemma_lex_order(end, t.spec_min_key(), k);
                lemma_lex_order(k, end, k);
            }
        }
        crate::versions::lemma_filter_none(s, pred);
    }
}

/// A scan that consults a table built from entries first collects the
/// table's entries in the range, then what the rest collects.
pub proof fn lemma_collect_holder_first(
    t: SSTable,
    s: Seq<EntryView>,
    d: Seq<SSTable>,
    start: Seq<u8>,
    end: Seq<u8>,
    r: Result<Seq<EntryView>, DecodeError>,
)
    requires
        table_built(t, s),
        collect_answers(seq![t] + d, start, end, r),
    ensures
        match r {
            Ok(c) => {
                let sel = select_range(s, start, end);
                &&& c.len() >= sel.len()
                &&& c.take(sel.len() as int) == sel
                &&& collect_answers(d, start, end, Ok::<Seq<EntryView>, DecodeError>(c.skip(sel.len() as int)))
            },
            Err(e) => collect_answers(d, start, end, Err::<Seq<EntryView>, DecodeError>(e)),
        },
{
    let td = seq![t] + d;
    assert(td[0] == t);
    assert(td.drop_first() =~= d);
    lemma_table_built_scan(t, s, start, end);
    if misses(t, start, end) {
        if let Ok(c) = r {
            assert(c.take(0) =~= Seq::<EntryView>::empty());
            assert(c.skip(0) =~= c);
        }
    }
}

} // verus!
