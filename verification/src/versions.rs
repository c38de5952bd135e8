//! Sequences of versioned entries: key order, the newest version of a key,
//! range selection and the memory they are charged for.
use vstd::prelude::*;

use crate::keys::{
    lex_le, lex_lt, lemma_lex_lt_asymmetric, lemma_lex_lt_total, lemma_lex_lt_transitive,
    lemma_lex_order,
};
use crate::{entry_size, Entry, EntryView};

verus! {

/// The views of a slice of entries.
pub open spec fn entries_view(v: Seq<Entry>) -> Seq<EntryView> {
    v.map_values(|e: Entry| e@)
}

/// Keys never decrease along the sequence.
pub open spec fn sorted_by_key(s: Seq<EntryView>) -> bool {
    forall|i: int, j: int| 0 <= i < j < s.len() ==> !lex_lt(#[trigger] s[j].key, #[trigger] s[i].key)
}

/// The length of the longest prefix of `s` whose keys sort before `k`;
/// in a sorted sequence, the first position whose key is not below `k`.
pub open spec fn lower_bound(s: Seq<EntryView>, k: Seq<u8>) -> int
    decreases s.len(),
{
    if s.len() == 0 {
        0
    } else if lex_lt(s[0].key, k) {
        1 + lower_bound(s.drop_first(), k)
    } else {
        0
    }
}

/// Position `i` holds a version of `k` with the largest sequence number
/// among all versions of `k` in `s`, and no earlier position holds a version
/// with that sequence number.
pub open spec fn is_newest_at(s: Seq<EntryView>, k: Seq<u8>, i: int) -> bool {
    &&& 0 <= i < s.len()
    &&& s[i].key == k
    &&& forall|j: int| 0 <= j < s.len() && #[trigger] s[j].key == k ==> s[j].sequence <= s[i].sequence
    &&& forall|j: int| 0 <= j < i && #[trigger] s[j].key == k ==> s[j].sequence < s[i].sequence
}

/// The newest version of `k` in `s` (the first of them if several versions
/// share the largest sequence number), or `None` if `s` holds no version
/// of `k`.
pub open spec fn newest_version(s: Seq<EntryView>, k: Seq<u8>) -> Option<EntryView> {
    if exists|i: int| is_newest_at(s, k, i) {
        Some(s[choose|i: int| is_newest_at(s, k, i)])
    } else {
        None
    }
}

/// The key of `e` lies in the closed range `[start, end]`.
pub open spec fn key_in_range(e: EntryView, start: Seq<u8>, end: Seq<u8>) -> bool {
    lex_le(start, e.key) && lex_le(e.key, end)
}

/// The entries of `s` whose keys lie in `[start, end]`, in order.
pub open spec fn select_range(s: Seq<EntryView>, start: Seq<u8>, end: Seq<u8>) -> Seq<EntryView> {
    s.filter(|e: EntryView| key_in_range(e, start, end))
}

/// The memory charged for all entries of `s`.
pub open spec fn total_size(s: Seq<EntryView>) -> int
    decreases s.len(),
{
    if s.len() == 0 {
        0
    } else {
        total_size(s.drop_last()) + entry_size(s.last())
    }
}

pub proof fn lemma_lower_bound(s: Seq<EntryView>, k: Seq<u8>)
    ensures
        0 <= lower_bound(s, k) <= s.len(),
        forall|i: int| 0 <= i < lower_bound(s, k) ==> lex_lt(#[trigger] s[i].key, k),
        lower_bound(s, k) < s.len() ==> !lex_lt(s[lower_bound(s, k)].key, k),
    decreases s.len(),
{
    if s.len() > 0 && lex_lt(s[0].key, k) {
        lemma_lower_bound(s.drop_first(), k);
        assert forall|i: int| 0 <= i < lower_bound(s, k) implies lex_lt(#[trigger] s[i].key, k) by {
            if i > 0 {
                assert(s[i] == s.drop_first()[i - 1]);
            }
        }
    }
}

/// A position that splits `s` into keys below `k` and keys not below `k`
/// is the lower bound of `k`.
pub proof fn lemma_lower_bound_at(s: Seq<EntryView>, k: Seq<u8>, p: int)
    requires
        0 <= p <= s.len(),
        forall|i: int| 0 <= i < p ==> lex_lt(#[trigger] s[i].key, k),
        p < s.len() ==> !lex_lt(s[p].key, k),
    ensures
        lower_bound(s, k) == p,
    decreases s.len(),
{
    if s.len() > 0 && p > 0 {
        assert(lex_lt(s[0].key, k));
        assert forall|i: int| 0 <= i < p - 1 implies lex_lt(#[trigger] s.drop_first()[i].key, k) by {
            assert(s.drop_first()[i] == s[i + 1]);
        }
        lemma_lower_bound_at(s.drop_first(), k, p - 1);
    }
}

/// In a sorted sequence, every position before the lower bound holds a key
/// below `k` and every later position a key not below `k`.
pub proof fn lemma_sorted_lower_bound(s: Seq<EntryView>, k: Seq<u8>)
    requires
        sorted_by_key(s),
    ensures
        forall|i: int| 0 <= i < lower_bound(s, k) ==> lex_lt(#[trigger] s[i].key, k),
        forall|i: int| lower_bound(s, k) <= i < s.len() ==> !lex_lt(#[trigger] s[i].key, k),
{
    lemma_lower_bound(s, k);
    let p = lower_bound(s, k);
    assert forall|i: int| p <= i < s.len() implies !lex_lt(#[trigger] s[i].key, k) by {
        if i > p {
            assert(!lex_lt(s[i].key, s[p].key));
            lemma_lex_order(s[p].key, s[i].key, k);
            if lex_lt(s[i].key, k) {
                lemma_lex_order(s[i].key, s[p].key, k);
                lemma_lex_lt_total(s[i].key, s[p].key);
            }
        }
    }
}

/// In a sorted sequence, a key below `k` at position `c` means every key up
/// to `c` is below `k`.
pub proof fn lemma_sorted_prefix_below(s: Seq<EntryView>, k: Seq<u8>, c: int)
    requires
        sorted_by_key(s),
        0 <= c < s.len(),
        lex_lt(s[c].key, k),
    ensures
        forall|t: int| 0 <= t <= c ==> lex_lt(#[trigger] s[t].key, k),
{
    assert forall|t: int| 0 <= t <= c implies lex_lt(#[trigger] s[t].key, k) by {
        if t < c {
            assert(!lex_lt(s[c].key, s[t].key));
            lemma_lex_lt_total(s[c].key, s[t].key);
            if lex_lt(s[t].key, s[c].key) {
                lemma_lex_lt_transitive(s[t].key, s[c].key, k);
            }
        }
    }
}

/// In a sorted sequence, the versions of `k` occupy exactly the run that
/// starts at the lower bound of `k`: if `[p, w)` holds only versions of `k`
/// and position `w` does not, no other position holds one.
pub proof fn lemma_key_run(s: Seq<EntryView>, k: Seq<u8>, w: int)
    requires
        sorted_by_key(s),
        lower_bound(s, k) <= w <= s.len(),
        forall|t: int| lower_bound(s, k) <= t < w ==> #[trigger] s[t].key == k,
        w < s.len() ==> s[w].key != k,
    ensures
        forall|j: int| 0 <= j < s.len() && #[trigger] s[j].key == k ==> lower_bound(s, k) <= j < w,
{
    let p = lower_bound(s, k);
    lemma_sorted_lower_bound(s, k);
    assert forall|j: int| 0 <= j < s.len() && #[trigger] s[j].key == k implies p <= j < w by {
        if j < p {
            assert(lex_lt(s[j].key, k));
            lemma_lex_order(k, k, k);
        } else if j >= w {
            assert(!lex_lt(s[w].key, k));
            lemma_lex_lt_total(s[w].key, k);
            if j > w {
                assert(!lex_lt(s[j].key, s[w].key));
                lemma_lex_lt_asymmetric(k, s[w].key);
                lemma_lex_lt_transitive(k, s[w].key, k);
                lemma_lex_order(k, k, k);
            }
        }
    }
}

/// In a sorted sequence, the entries in `[start, end]` are the run from the
/// lower bound of `start` up to the first key above `end`.
pub proof fn lemma_select_window(s: Seq<EntryView>, start: Seq<u8>, end: Seq<u8>, w: int)
    requires
        sorted_by_key(s),
        lower_bound(s, start) <= w <= s.len(),
        forall|t: int| lower_bound(s, start) <= t < w ==> !lex_lt(end, #[trigger] s[t].key),
        w < s.len() ==> lex_lt(end, s[w].key),
    ensures
        select_range(s, start, end) == s.subrange(lower_bound(s, start), w),
{
    let p = lower_bound(s, start);
    let pred = |e: EntryView| key_in_range(e, start, end);
    lemma_sorted_lower_bound(s, start);
    assert forall|i: int| 0 <= i < p implies !pred(#[trigger] s[i]) by {
        lemma_lex_order(s[i].key, start, s[i].key);
        lemma_lex_order(start, s[i].key, start);
    }
    assert forall|i: int| p <= i < w implies pred(#[trigger] s[i]) by {
        lemma_lex_lt_total(start, s[i].key);
        lemma_lex_lt_total(s[i].key, end);
    }
    assert forall|i: int| w <= i < s.len() implies !pred(#[trigger] s[i]) by {
        if i > w {
            assert(!lex_lt(s[i].key, s[w].key));
            lemma_lex_lt_total(s[i].key, s[w].key);
            if lex_lt(s[w].key, s[i].key) {
                lemma_lex_lt_transitive(end, s[w].key, s[i].key);
            }
        }
        lemma_lex_order(end, s[i].key, end);
        if lex_lt(s[i].key, end) {
            lemma_lex_lt_asymmetric(end, s[i].key);
        }
    }
    lemma_filter_window(s, pred, p, w);
}

pub proof fn lemma_total_size_insert(s: Seq<EntryView>, p: int, e: EntryView)
    requires
        0 <= p <= s.len(),
    ensures
        total_size(s.insert(p, e)) == total_size(s) + entry_size(e),
    decreases s.len(),
{
    let t = s.insert(p, e);
    s.insert_ensures(p, e);
    if p == s.len() {
        assert(t.drop_last() =~= s);
    } else {
        lemma_total_size_insert(s.drop_last(), p, e);
        assert(t.drop_last() =~= s.drop_last().insert(p, e));
        assert(t.last() == s.last());
    }
}

/// At most one position satisfies `is_newest_at`.
pub proof fn lemma_newest_unique(s: Seq<EntryView>, k: Seq<u8>, i: int, j: int)
    requires
        is_newest_at(s, k, i),
        is_newest_at(s, k, j),
    ensures
        i == j,
{
    if i < j {
        assert(s[i].sequence < s[j].sequence);
        assert(s[i].sequence <= s[j].sequence);
        assert(s[j].sequence <= s[i].sequence);
    } else if j < i {
        assert(s[j].sequence < s[i].sequence);
        assert(s[i].sequence <= s[j].sequence);
    }
}

/// The newest version is the one at the position that satisfies
/// `is_newest_at`.
pub proof fn lemma_newest_version_at(s: Seq<EntryView>, k: Seq<u8>, i: int)
    requires
        is_newest_at(s, k, i),
    ensures
        newest_version(s, k) == Some(s[i]),
{
    let c = choose|c: int| is_newest_at(s, k, c);
    lemma_newest_unique(s, k, i, c);
}

/// When every version of `k` in `s` lies in `[p, q)`, that window of `s`
/// holds the same newest version of `k` as the whole sequence.
pub proof fn lemma_newest_in_window(s: Seq<EntryView>, k: Seq<u8>, p: int, q: int)
    requires
        0 <= p <= q <= s.len(),
        forall|j: int| 0 <= j < s.len() && #[trigger] s[j].key == k ==> p <= j < q,
    ensures
        newest_version(s.subrange(p, q), k) == newest_version(s, k),
{
    let w = s.subrange(p, q);
    assert forall|i: int| is_newest_at(s, k, i) implies is_newest_at(w, k, i - p) by {
        assert(p <= i < q);
        assert forall|j: int| 0 <= j < w.len() && #[trigger] w[j].key == k implies w[j].sequence
            <= w[i - p].sequence by {
            assert(w[j] == s[j + p]);
        }
        assert forall|j: int| 0 <= j < i - p && #[trigger] w[j].key == k implies w[j].sequence
            < w[i - p].sequence by {
            assert(w[j] == s[j + p]);
        }
    }
    assert forall|i: int| is_newest_at(w, k, i) implies is_newest_at(s, k, i + p) by {
        assert(w[i] == s[i + p]);
        assert forall|j: int| 0 <= j < s.len() && #[trigger] s[j].key == k implies s[j].sequence
            <= s[i + p].sequence by {
            assert(s[j] == w[j - p]);
        }
        assert forall|j: int| 0 <= j < i + p && #[trigger] s[j].key == k implies s[j].sequence
            < s[i + p].sequence by {
            assert(s[j] == w[j - p]);
        }
    }
    if exists|i: int| is_newest_at(s, k, i) {
        let i = choose|i: int| is_newest_at(s, k, i);
        lemma_newest_version_at(s, k, i);
        lemma_newest_version_at(w, k, i - p);
    } else if exists|i: int| is_newest_at(w, k, i) {
        let i = choose|i: int| is_newest_at(w, k, i);
        assert(is_newest_at(s, k, i + p));
    }
}

/// Filtering keeps nothing when no element passes.
pub proof fn lemma_filter_none<A>(s: Seq<A>, pred: spec_fn(A) -> bool)
    requires
        forall|i: int| 0 <= i < s.len() ==> !pred(#[trigger] s[i]),
    ensures
        s.filter(pred) == Seq::<A>::empty(),
    decreases s.len(),
{
    reveal(Seq::filter);
    if s.len() > 0 {
        lemma_filter_none(s.drop_last(), pred);
    }
}

/// Filtering keeps everything when every element passes.
pub proof fn lemma_filter_all<A>(s: Seq<A>, pred: spec_fn(A) -> bool)
    requires
        forall|i: int| 0 <= i < s.len() ==> pred(#[trigger] s[i]),
    ensures
        s.filter(pred) == s,
    decreases s.len(),
{
    reveal(Seq::filter);
    if s.len() > 0 {
        lemma_filter_all(s.drop_last(), pred);
        assert(s.drop_last().push(s.last()) =~= s);
    }
}

/// Filtering a sequence that is cut in three places: nothing before `a`
/// passes, everything in `[a, b)` passes, nothing from `b` on passes.
pub proof fn lemma_filter_window<A>(s: Seq<A>, pred: spec_fn(A) -> bool, a: int, b: int)
    requires
        0 <= a <= b <= s.len(),
        forall|i: int| 0 <= i < a ==> !pred(#[trigger] s[i]),
        forall|i: int| a <= i < b ==> pred(#[trigger] s[i]),
        forall|i: int| b <= i < s.len() ==> !pred(#[trigger] s[i]),
    ensures
        s.filter(pred) == s.subrange(a, b),
{
    let s1 = s.subrange(0, a);
    let s2 = s.subrange(a, b);
    let s3 = s.subrange(b, s.len() as int);
    assert(s =~= s1 + s2 + s3);
    Seq::filter_distributes_over_add(s1 + s2, s3, pred);
    Seq::filter_distributes_over_add(s1, s2, pred);
    lemma_filter_none(s1, pred);
    lemma_filter_all(s2, pred);
    lemma_filter_none(s3, pred);
    assert(s.filter(pred) =~= s2);
}

/// The newer of two found versions: the second when its sequence number is
/// larger than the first's, otherwise the first (when there is one).
pub open spec fn newer_of(a: Option<EntryView>, b: Option<EntryView>) -> Option<EntryView> {
    match a {
        Some(x) => match b {
            Some(y) => if y.sequence > x.sequence {
                b
            } else {
                a
            },
            None => a,
        },
        None => b,
    }
}

/// A key with a version in `s` has a newest version there.
pub proof fn lemma_newest_exists(s: Seq<EntryView>, k: Seq<u8>, i: int)
    requires
        0 <= i < s.len(),
        s[i].key == k,
    ensures
        exists|m: int| is_newest_at(s, k, m),
    decreases s.len(),
{
    let t = s.drop_last();
    let n = s.len() - 1;
    if exists|j: int| 0 <= j < t.len() && t[j].key == k {
        let j = choose|j: int| 0 <= j < t.len() && t[j].key == k;
        lemma_newest_exists(t, k, j);
        let m = choose|m: int| is_newest_at(t, k, m);
        if s[n].key == k && s[n].sequence > t[m].sequence {
            assert forall|x: int| 0 <= x < s.len() && #[trigger] s[x].key == k implies s[x].sequence
                <= s[n].sequence by {
                if x < n {
                    assert(s[x] == t[x]);
                }
            }
            assert forall|x: int| 0 <= x < n && #[trigger] s[x].key == k implies s[x].sequence
                < s[n].sequence by {
                assert(s[x] == t[x]);
            }
            assert(is_newest_at(s, k, n));
        } else {
            assert(s[m] == t[m]);
            assert forall|x: int| 0 <= x < s.len() && #[trigger] s[x].key == k implies s[x].sequence
                <= s[m].sequence by {
                if x < n {
                    assert(s[x] == t[x]);
                }
            }
            assert forall|x: int| 0 <= x < m && #[trigger] s[x].key == k implies s[x].sequence
                < s[m].sequence by {
                assert(s[x] == t[x]);
            }
            assert(is_newest_at(s, k, m));
        }
    } else {
        assert(i == n) by {
            if i < n {
                assert(t[i] == s[i]);
            }
        }
        assert forall|x: int| 0 <= x < s.len() && #[trigger] s[x].key == k implies s[x].sequence
            <= s[n].sequence by {
            if x < n {
                assert(t[x] == s[x]);
            }
        }
        assert forall|x: int| 0 <= x < n && #[trigger] s[x].key == k implies s[x].sequence
            < s[n].sequence by {
            assert(t[x] == s[x]);
        }
        assert(is_newest_at(s, k, n));
    }
}

/// The newest version of a key in two sequences one after the other is
/// the newer of its newest versions in each (the first on a tie).
pub proof fn lemma_newest_concat(a: Seq<EntryView>, b: Seq<EntryView>, k: Seq<u8>)
    ensures
        newest_version(a + b, k) == newer_of(newest_version(a, k), newest_version(b, k)),
{
    let c = a + b;
    let n = a.len() as int;
    if exists|x: int| is_newest_at(c, k, x) {
        let x = choose|x: int| is_newest_at(c, k, x);
        lemma_newest_version_at(c, k, x);
        if x < n {
            assert(c[x] == a[x]);
            assert forall|y: int| 0 <= y < a.len() && #[trigger] a[y].key == k implies a[y].sequence
                <= a[x].sequence by {
                assert(c[y] == a[y]);
            }
            assert forall|y: int| 0 <= y < x && #[trigger] a[y].key == k implies a[y].sequence
                < a[x].sequence by {
                assert(c[y] == a[y]);
            }
            assert(is_newest_at(a, k, x));
            lemma_newest_version_at(a, k, x);
            if exists|j: int| is_newest_at(b, k, j) {
                let j = choose|j: int| is_newest_at(b, k, j);
                lemma_newest_version_at(b, k, j);
                assert(c[n + j] == b[j]);
            }
        } else {
            let j = x - n;
            assert(c[x] == b[j]);
            assert forall|y: int| 0 <= y < b.len() && #[trigger] b[y].key == k implies b[y].sequence
                <= b[j].sequence by {
                assert(c[n + y] == b[y]);
            }
            assert forall|y: int| 0 <= y < j && #[trigger] b[y].key == k implies b[y].sequence
                < b[j].sequence by {
                assert(c[n + y] == b[y]);
            }
            assert(is_newest_at(b, k, j));
            lemma_newest_version_at(b, k, j);
            if exists|i: int| is_newest_at(a, k, i) {
                let i = choose|i: int| is_newest_at(a, k, i);
                lemma_newest_version_at(a, k, i);
                assert(c[i] == a[i]);
            }
        }
    } else {
        if exists|i: int| is_newest_at(a, k, i) {
            let i = choose|i: int| is_newest_at(a, k, i);
            assert(c[i] == a[i]);
            lemma_newest_exists(c, k, i);
        }
        if exists|j: int| is_newest_at(b, k, j) {
            let j = choose|j: int| is_newest_at(b, k, j);
            assert(c[n + j] == b[j]);
            lemma_newest_exists(c, k, n + j);
        }
    }
}

/// Entry `x` comes before a search for `key`: its key sorts before `key`,
/// or, when `seq` is given, it is a version of `key` whose sequence number
/// is at least `seq` (a new version goes after those).
pub open spec fn comes_before(x: EntryView, key: Seq<u8>, seq: Option<u64>) -> bool {
    lex_lt(x.key, key) || (seq matches Some(q) && x.key == key && x.sequence >= q)
}

/// The number of leading entries of `s` that come before a search for
/// `key` (and `seq`).
pub open spec fn search_pos(s: Seq<EntryView>, key: Seq<u8>, seq: Option<u64>) -> int
    decreases s.len(),
{
    if s.len() == 0 {
        0
    } else if comes_before(s[0], key, seq) {
        1 + search_pos(s.drop_first(), key, seq)
    } else {
        0
    }
}

/// Where a memtable puts a new version `e`: after the entries whose keys
/// sort before its key and after the versions of its key whose sequence
/// number is at least its own.
pub open spec fn insert_pos(s: Seq<EntryView>, e: EntryView) -> int {
    search_pos(s, e.key, Some(e.sequence))
}

/// In key order, and the versions of each key from the largest sequence
/// number down.
pub open spec fn memtable_ordered(s: Seq<EntryView>) -> bool {
    &&& sorted_by_key(s)
    &&& forall|i: int, j: int|
        0 <= i < j < s.len() && #[trigger] s[i].key == #[trigger] s[j].key ==> s[i].sequence >= s[j].sequence
}

pub proof fn lemma_search_pos(s: Seq<EntryView>, key: Seq<u8>, seq: Option<u64>)
    ensures
        0 <= search_pos(s, key, seq) <= s.len(),
        forall|i: int| 0 <= i < search_pos(s, key, seq) ==> comes_before(#[trigger] s[i], key, seq),
        search_pos(s, key, seq) < s.len() ==> !comes_before(s[search_pos(s, key, seq)], key, seq),
    decreases s.len(),
{
    if s.len() > 0 && comes_before(s[0], key, seq) {
        lemma_search_pos(s.drop_first(), key, seq);
        assert forall|i: int| 0 <= i < search_pos(s, key, seq) implies comes_before(#[trigger] s[i], key, seq) by {
            if i > 0 {
                assert(s[i] == s.drop_first()[i - 1]);
            }
        }
    }
}

/// A position that splits `s` into entries that come before the search
/// and entries that do not is the search's position.
pub proof fn lemma_search_pos_at(s: Seq<EntryView>, key: Seq<u8>, seq: Option<u64>, p: int)
    requires
        0 <= p <= s.len(),
        forall|i: int| 0 <= i < p ==> comes_before(#[trigger] s[i], key, seq),
        p < s.len() ==> !comes_before(s[p], key, seq),
    ensures
        search_pos(s, key, seq) == p,
    decreases s.len(),
{
    if s.len() > 0 && p > 0 {
        assert(comes_before(s[0], key, seq));
        assert forall|i: int| 0 <= i < p - 1 implies comes_before(#[trigger] s.drop_first()[i], key, seq) by {
            assert(s.drop_first()[i] == s[i + 1]);
        }
        lemma_search_pos_at(s.drop_first(), key, seq, p - 1);
    }
}

/// When no version of `key` has a sequence number at least `seq` (or no
/// `seq` is given), a search ends at the lower bound of `key`.
pub proof fn lemma_search_pos_lower(s: Seq<EntryView>, key: Seq<u8>, seq: Option<u64>)
    requires
        forall|i: int|
            0 <= i < s.len() && #[trigger] s[i].key == key ==> (seq matches Some(q) ==> s[i].sequence < q),
    ensures
        search_pos(s, key, seq) == lower_bound(s, key),
    decreases s.len(),
{
    if s.len() > 0 {
        assert forall|i: int|
            0 <= i < s.drop_first().len() && #[trigger] s.drop_first()[i].key == key implies (seq matches Some(
            q,
        ) ==> s.drop_first()[i].sequence < q) by {
            assert(s.drop_first()[i] == s[i + 1]);
        }
        lemma_search_pos_lower(s.drop_first(), key, seq);
        assert(s[0].key == key ==> (seq matches Some(q) ==> s[0].sequence < q));
    }
}

/// In an ordered memtable, an entry that comes before a search has only
/// such entries before it.
pub proof fn lemma_ordered_prefix(s: Seq<EntryView>, key: Seq<u8>, seq: Option<u64>, c: int)
    requires
        memtable_ordered(s),
        0 <= c < s.len(),
        comes_before(s[c], key, seq),
    ensures
        forall|t: int| 0 <= t <= c ==> comes_before(#[trigger] s[t], key, seq),
{
    assert forall|t: int| 0 <= t <= c implies comes_before(#[trigger] s[t], key, seq) by {
        if t < c {
            assert(!lex_lt(s[c].key, s[t].key));
            lemma_lex_lt_total(s[c].key, s[t].key);
            if lex_lt(s[c].key, key) {
                if lex_lt(s[t].key, s[c].key) {
                    lemma_lex_lt_transitive(s[t].key, s[c].key, key);
                }
            } else {
                if s[t].key == key {
                    assert(s[t].sequence >= s[c].sequence);
                }
            }
        }
    }
}

/// Putting a new version where a memtable puts it keeps the memtable
/// ordered.
pub proof fn lemma_ordered_insert(s: Seq<EntryView>, e: EntryView)
    requires
        memtable_ordered(s),
    ensures
        memtable_ordered(s.insert(insert_pos(s, e), e)),
{
    let q = Some(e.sequence);
    let p = insert_pos(s, e);
    lemma_search_pos(s, e.key, q);
    assert forall|j: int| p <= j < s.len() implies !comes_before(#[trigger] s[j], e.key, q) by {
        if comes_before(s[j], e.key, q) {
            lemma_ordered_prefix(s, e.key, q, j);
        }
    }
    let t = s.insert(p, e);
    s.insert_ensures(p, e);
    assert forall|i: int, j: int| 0 <= i < j < t.len() implies !lex_lt(#[trigger] t[j].key, #[trigger] t[i].key) by {
        if j < p {
            assert(t[i] == s[i] && t[j] == s[j]);
        } else if j == p {
            assert(t[i] == s[i]);
            assert(comes_before(s[i], e.key, q));
            lemma_lex_lt_asymmetric(s[i].key, e.key);
            lemma_lex_order(e.key, e.key, e.key);
        } else if i == p {
            assert(t[j] == s[j - 1]);
            assert(!comes_before(s[j - 1], e.key, q));
        } else if i < p {
            assert(t[i] == s[i] && t[j] == s[j - 1]);
        } else {
            assert(t[i] == s[i - 1] && t[j] == s[j - 1]);
        }
    }
    assert forall|i: int, j: int|
        0 <= i < j < t.len() && #[trigger] t[i].key == #[trigger] t[j].key implies t[i].sequence
        >= t[j].sequence by {
        if j < p {
            assert(t[i] == s[i] && t[j] == s[j]);
        } else if j == p {
            assert(t[i] == s[i]);
            assert(comes_before(s[i], e.key, q));
            lemma_lex_order(e.key, e.key, e.key);
        } else if i == p {
            assert(t[j] == s[j - 1]);
            assert(!comes_before(s[j - 1], e.key, q));
        } else if i < p {
            assert(t[i] == s[i] && t[j] == s[j - 1]);
        } else {
            assert(t[i] == s[i - 1] && t[j] == s[j - 1]);
        }
    }
}

} // verus!
