//! Merging versions from several sources: a stable sort by key (ascending)
//! and sequence number (descending), then one entry per key.
use vstd::prelude::*;

use vstd::set_lib::{lemma_int_range, lemma_len_subset, lemma_subset_equality, set_int_range};

use crate::keys::{key_eq, key_lt, lex_lt, lemma_lex_order, lemma_lex_lt_total, lemma_lex_lt_transitive};
use crate::versions::{entries_view, is_newest_at, lemma_newest_version_at, newest_version};
use crate::{Entry, EntryView};

verus! {

/// `a` sorts before `b`: a smaller key, or the same key and a larger
/// sequence number.
pub open spec fn precedes(a: EntryView, b: EntryView) -> bool {
    lex_lt(a.key, b.key) || (a.key == b.key && a.sequence > b.sequence)
}

/// Position `i` of `s` comes before position `j` in the stable order:
/// `s[i]` precedes `s[j]`, or neither precedes the other and `i < j`.
pub open spec fn idx_before(s: Seq<EntryView>, i: int, j: int) -> bool {
    lex_lt(s[i].key, s[j].key) || (s[i].key == s[j].key && (s[i].sequence > s[j].sequence || (
    s[i].sequence == s[j].sequence && i < j)))
}

/// `order` lists the positions `lo..hi` of `s`, each once, in stable order.
pub open spec fn sorted_perm(s: Seq<EntryView>, order: Seq<usize>, lo: int, hi: int) -> bool {
    &&& order.len() == hi - lo
    &&& forall|t: int| 0 <= t < order.len() ==> lo <= #[trigger] order[t] < hi
    &&& order.no_duplicates()
    &&& forall|a: int, b: int|
        0 <= a < b < order.len() ==> idx_before(s, #[trigger] order[a] as int, #[trigger] order[b] as int)
}

/// Position `j` occurs in `order`.
pub open spec fn lists_position(order: Seq<usize>, j: int) -> bool {
    exists|t: int| 0 <= t < order.len() && order[t] == j
}

proof fn lemma_idx_before_transitive(s: Seq<EntryView>, i: int, j: int, k: int)
    requires
        idx_before(s, i, j),
        idx_before(s, j, k),
    ensures
        idx_before(s, i, k),
{
    lemma_lex_order(s[i].key, s[j].key, s[k].key);
    if lex_lt(s[i].key, s[j].key) && s[j].key == s[k].key {
    } else if s[i].key == s[j].key && lex_lt(s[j].key, s[k].key) {
    }
}

proof fn lemma_idx_before_total(s: Seq<EntryView>, i: int, j: int)
    requires
        i != j,
    ensures
        idx_before(s, i, j) || idx_before(s, j, i),
        !(idx_before(s, i, j) && idx_before(s, j, i)),
{
    lemma_lex_order(s[i].key, s[j].key, s[i].key);
}

/// Whether `a` sorts before `b` (smaller key, or same key and larger
/// sequence number).
pub fn entry_precedes(a: &Entry, b: &Entry) -> (r: bool)
    ensures
        r == precedes(a@, b@),
{
    if key_lt(a.key.as_slice(), b.key.as_slice()) {
        true
    } else if key_eq(a.key.as_slice(), b.key.as_slice()) {
        a.sequence > b.sequence
    } else {
        false
    }
}

/// Merge two sorted runs of positions, the left one of `lo..mid`, the right
/// one of `mid..hi`.
fn merge_runs(s: &[Entry], left: Vec<usize>, right: Vec<usize>, lo: usize, mid: usize, hi: usize) -> (r: Vec<usize>)
    requires
        lo <= mid <= hi <= s@.len(),
        sorted_perm(entries_view(s@), left@, lo as int, mid as int),
        sorted_perm(entries_view(s@), right@, mid as int, hi as int),
    ensures
        sorted_perm(entries_view(s@), r@, lo as int, hi as int),
{
    let ghost sv = entries_view(s@);
    let mut out: Vec<usize> = Vec::with_capacity(hi - lo);
    let mut i: usize = 0;
    let mut j: usize = 0;
    while i < left.len() || j < right.len()
        invariant
            lo <= mid <= hi <= s@.len(),
            sv == entries_view(s@),
            sorted_perm(sv, left@, lo as int, mid as int),
            sorted_perm(sv, right@, mid as int, hi as int),
            i <= left@.len(),
            j <= right@.len(),
            out@.len() == i + j,
            forall|t: int| 0 <= t < out@.len() ==> lo <= #[trigger] out@[t] < hi,
            out@.no_duplicates(),
            forall|t: int|
                0 <= t < out@.len() ==> (exists|a: int| 0 <= a < i && left@[a] == #[trigger] out@[t]) || (
                exists|b: int| 0 <= b < j && right@[b] == out@[t]),
            forall|a: int, b: int|
                0 <= a < b < out@.len() ==> idx_before(sv, #[trigger] out@[a] as int, #[trigger] out@[b] as int),
            forall|t: int, a: int|
                0 <= t < out@.len() && i <= a < left@.len() ==> idx_before(sv, #[trigger] out@[t] as int, #[trigger] left@[a] as int),
            forall|t: int, b: int|
                0 <= t < out@.len() && j <= b < right@.len() ==> idx_before(sv, #[trigger] out@[t] as int, #[trigger] right@[b] as int),
        decreases left@.len() + right@.len() - i - j,
    {
        let take_left = if i == left.len() {
            false
        } else if j == right.len() {
            true
        } else {
            !entry_precedes(&s[right[j]], &s[left[i]])
        };
        let ghost pre = out@;
        if take_left {
            let x = left[i];
            proof {
                if j < right@.len() {
                    lemma_idx_before_total(sv, x as int, right@[j as int] as int);
                }
                assert forall|b: int| j <= b < right@.len() implies idx_before(sv, x as int, #[trigger] right@[b] as int) by {
                    if b > j {
                        lemma_idx_before_transitive(sv, x as int, right@[j as int] as int, right@[b] as int);
                    }
                }
                assert forall|a: int| i < a < left@.len() implies idx_before(sv, x as int, #[trigger] left@[a] as int) by {}
                assert forall|t: int| 0 <= t < pre.len() implies #[trigger] pre[t] != x by {
                    if exists|a: int| 0 <= a < i && left@[a] == pre[t] {
                        let a = choose|a: int| 0 <= a < i && left@[a] == pre[t];
                        assert(left@[a] != left@[i as int]);
                    } else {
                        let b = choose|b: int| 0 <= b < j && right@[b] == pre[t];
                        assert(right@[b] >= mid);
                    }
                }
            }
            out.push(x);
            i = i + 1;
            proof {
                assert forall|t: int|
                    0 <= t < out@.len() implies (exists|a: int| 0 <= a < i && left@[a] == #[trigger] out@[t]) || (
                    exists|b: int| 0 <= b < j && right@[b] == out@[t]) by {
                    if t == out@.len() - 1 {
                        assert(left@[i - 1] == out@[t]);
                    } else {
                        assert(out@[t] == pre[t]);
                    }
                }
            }
        } else {
            let x = right[j];
            proof {
                if i < left@.len() {
                    lemma_idx_before_total(sv, x as int, left@[i as int] as int);
                    assert(idx_before(sv, x as int, left@[i as int] as int));
                }
                assert forall|a: int| i <= a < left@.len() implies idx_before(sv, x as int, #[trigger] left@[a] as int) by {
                    if a > i {
                        lemma_idx_before_transitive(sv, x as int, left@[i as int] as int, left@[a] as int);
                    }
                }
                assert forall|b: int| j < b < right@.len() implies idx_before(sv, x as int, #[trigger] right@[b] as int) by {}
                assert forall|t: int| 0 <= t < pre.len() implies #[trigger] pre[t] != x by {
                    if exists|a: int| 0 <= a < i && left@[a] == pre[t] {
                        let a = choose|a: int| 0 <= a < i && left@[a] == pre[t];
                        assert(left@[a] < mid);
                    } else {
                        let b = choose|b: int| 0 <= b < j && right@[b] == pre[t];
                        assert(right@[b] != right@[j as int]);
                    }
                }
            }
            out.push(x);
            j = j + 1;
            proof {
                assert forall|t: int|
                    0 <= t < out@.len() implies (exists|a: int| 0 <= a < i && left@[a] == #[trigger] out@[t]) || (
                    exists|b: int| 0 <= b < j && right@[b] == out@[t]) by {
                    if t == out@.len() - 1 {
                        assert(right@[j - 1] == out@[t]);
                    } else {
                        assert(out@[t] == pre[t]);
                    }
                }
            }
        }
    }
    out
}

/// Sort the positions `lo..hi` of `s` into stable order.
fn sort_range(s: &[Entry], lo: usize, hi: usize) -> (r: Vec<usize>)
    requires
        lo <= hi <= s@.len(),
    ensures
        sorted_perm(entries_view(s@), r@, lo as int, hi as int),
    decreases hi - lo,
{
    if hi - lo <= 1 {
        let mut r: Vec<usize> = Vec::new();
        if hi > lo {
            r.push(lo);
        }
        return r;
    }
    let mid = lo + (hi - lo) / 2;
    let left = sort_range(s, lo, mid);
    let right = sort_range(s, mid, hi);
    merge_runs(s, left, right, lo, mid, hi)
}

/// A duplicate-free list of `n` positions below `n` holds every position.
proof fn lemma_perm_covers(order: Seq<usize>, n: int)
    requires
        order.len() == n,
        order.no_duplicates(),
        forall|t: int| 0 <= t < n ==> 0 <= #[trigger] order[t] < n,
    ensures
        forall|j: int| 0 <= j < n ==> #[trigger] lists_position(order, j),
{
    let ints = order.map_values(|x: usize| x as int);
    assert(ints.no_duplicates()) by {
        assert forall|a: int, b: int| 0 <= a < ints.len() && 0 <= b < ints.len() && a != b implies ints[a] != ints[b] by {
            assert(order[a] != order[b]);
        }
    }
    ints.unique_seq_to_set();
    lemma_int_range(0, n);
    assert(ints.to_set().subset_of(set_int_range(0, n)));
    lemma_len_subset(ints.to_set(), set_int_range(0, n));
    lemma_subset_equality(ints.to_set(), set_int_range(0, n));
    assert forall|j: int| 0 <= j < n implies #[trigger] lists_position(order, j) by {
        assert(set_int_range(0, n).contains(j));
        assert(ints.to_set().contains(j));
        let t = choose|t: int| 0 <= t < ints.len() && ints[t] == j;
        assert(order[t] == j);
    }
}

/// The positions of `s` in stable order: by key ascending, then sequence
/// number descending, then position.
pub fn stable_order(s: &[Entry]) -> (r: Vec<usize>)
    ensures
        sorted_perm(entries_view(s@), r@, 0, s@.len() as int),
        forall|j: int| 0 <= j < s@.len() ==> #[trigger] lists_position(r@, j),
{
    let r = sort_range(s, 0, s.len());
    proof {
        lemma_perm_covers(r@, s@.len() as int);
    }
    r
}

/// `k` has exactly one version in `s`.
pub open spec fn single_version(s: Seq<EntryView>, k: Seq<u8>) -> bool {
    forall|i: int, j: int|
        0 <= i < s.len() && 0 <= j < s.len() && #[trigger] s[i].key == k && #[trigger] s[j].key == k ==> i == j
}

/// Some head in `heads` is a version of `k`.
pub open spec fn has_head(s: Seq<EntryView>, heads: Seq<(usize, bool)>, k: Seq<u8>) -> bool {
    exists|t: int| 0 <= t < heads.len() && s[heads[t].0 as int].key == k
}

/// `heads` names, for each key of `s` in ascending key order, the position
/// of the newest version of that key and whether the key has other
/// versions.
pub open spec fn group_heads_of(s: Seq<EntryView>, heads: Seq<(usize, bool)>) -> bool {
    &&& forall|a: int, b: int|
        0 <= a < b < heads.len() ==> lex_lt(
            s[#[trigger] heads[a].0 as int].key,
            s[#[trigger] heads[b].0 as int].key,
        )
    &&& forall|t: int|
        0 <= t < heads.len() ==> {
            &&& is_newest_at(s, s[#[trigger] heads[t].0 as int].key, heads[t].0 as int)
            &&& heads[t].1 == !single_version(s, s[heads[t].0 as int].key)
        }
    &&& forall|j: int| 0 <= j < s.len() ==> #[trigger] has_head(s, heads, s[j].key)
}

/// For each key of `s`, in ascending key order: the position of its newest
/// version, and whether the key has other versions too.
pub fn group_heads(s: &[Entry]) -> (heads: Vec<(usize, bool)>)
    ensures
        group_heads_of(entries_view(s@), heads@),
{
    let ghost sv = entries_view(s@);
    let order = stable_order(s);
    let n = order.len();
    let mut heads: Vec<(usize, bool)> = Vec::new();
    let mut i: usize = 0;
    while i < n
        invariant
            sv == entries_view(s@),
            n == order@.len(),
            n == s@.len(),
            sorted_perm(sv, order@, 0, n as int),
            forall|j: int| 0 <= j < n ==> #[trigger] lists_position(order@, j),
            i <= n,
            forall|t: int, u: int|
                0 <= t < i <= u < n ==> lex_lt(sv[#[trigger] order@[t] as int].key, sv[#[trigger] order@[u] as int].key),
            forall|a: int, b: int|
                0 <= a < b < heads@.len() ==> lex_lt(
                    sv[#[trigger] heads@[a].0 as int].key,
                    sv[#[trigger] heads@[b].0 as int].key,
                ),
            forall|a: int, u: int|
                0 <= a < heads@.len() && i <= u < n ==> lex_lt(
                    sv[#[trigger] heads@[a].0 as int].key,
                    sv[#[trigger] order@[u] as int].key,
                ),
            forall|t: int|
                0 <= t < heads@.len() ==> {
                    &&& is_newest_at(sv, sv[#[trigger] heads@[t].0 as int].key, heads@[t].0 as int)
                    &&& heads@[t].1 == !single_version(sv, sv[heads@[t].0 as int].key)
                },
            forall|t: int| 0 <= t < i ==> #[trigger] has_head(sv, heads@, sv[order@[t] as int].key),
        decreases n - i,
    {
        let h = order[i];
        let mut j: usize = i + 1;
        let ghost k = sv[h as int].key;
        while j < n && key_eq(s[order[j]].key.as_slice(), s[h].key.as_slice())
            invariant
                sv == entries_view(s@),
                n == order@.len(),
                n == s@.len(),
                sorted_perm(sv, order@, 0, n as int),
                i < j <= n,
                h == order@[i as int],
                k == sv[h as int].key,
                forall|t: int| i <= t < j ==> #[trigger] sv[order@[t] as int].key == k,
            decreases n - j,
        {
            j = j + 1;
        }
        proof {
            // Keys from position j on sort strictly after k.
            assert forall|u: int| j <= u < n implies lex_lt(k, #[trigger] sv[order@[u] as int].key) by {
                assert(sv[order@[j as int] as int].key != k);
                assert(idx_before(sv, order@[i as int] as int, order@[j as int] as int));
                lemma_lex_lt_total(k, sv[order@[j as int] as int].key);
                if u > j {
                    assert(idx_before(sv, order@[j as int] as int, order@[u] as int));
                    lemma_lex_order(k, sv[order@[j as int] as int].key, sv[order@[u] as int].key);
                }
            }
            // Every version of k sits in the group [i, j).
            assert forall|p: int| 0 <= p < n && #[trigger] sv[p].key == k implies exists|t: int|
                i <= t < j && order@[t] == p by {
                assert(lists_position(order@, p));
                let t = choose|t: int| 0 <= t < order@.len() && order@[t] == p;
                if t < i {
                    assert(lex_lt(sv[order@[t] as int].key, sv[order@[i as int] as int].key));
                    lemma_lex_order(k, k, k);
                } else if t >= j {
                    lemma_lex_order(k, k, k);
                }
            }
            assert(is_newest_at(sv, k, h as int)) by {
                lemma_lex_order(k, k, k);
                assert forall|p: int| 0 <= p < sv.len() && #[trigger] sv[p].key == k implies sv[p].sequence <= sv[h as int].sequence by {
                    let t = choose|t: int| i <= t < j && order@[t] == p;
                    if t > i {
                        assert(idx_before(sv, order@[i as int] as int, order@[t] as int));
                    }
                }
                assert forall|p: int| 0 <= p < h && #[trigger] sv[p].key == k implies sv[p].sequence < sv[h as int].sequence by {
                    let t = choose|t: int| i <= t < j && order@[t] == p;
                    if t > i {
                        assert(idx_before(sv, order@[i as int] as int, order@[t] as int));
                    }
                }
            }
            assert((j > i + 1) == !single_version(sv, k)) by {
                if j > i + 1 {
                    let p1 = order@[i as int] as int;
                    let p2 = order@[i + 1] as int;
                    assert(sv[p2].key == k);
                    assert(p1 != p2);
                } else {
                    assert forall|p1: int, p2: int|
                        0 <= p1 < sv.len() && 0 <= p2 < sv.len() && #[trigger] sv[p1].key == k && #[trigger] sv[p2].key == k implies p1 == p2 by {
                        let t1 = choose|t: int| i <= t < j && order@[t] == p1;
                        let t2 = choose|t: int| i <= t < j && order@[t] == p2;
                    }
                }
            }
        }
        let ghost pre = heads@;
        heads.push((h, j > i + 1));
        proof {
            let t_new = pre.len() as int;
            assert(heads@[t_new].0 == h);
            assert forall|t: int| 0 <= t < j implies #[trigger] has_head(sv, heads@, sv[order@[t] as int].key) by {
                if t < i {
                    assert(has_head(sv, pre, sv[order@[t] as int].key));
                    let w = choose|w: int| 0 <= w < pre.len() && sv[pre[w].0 as int].key == sv[order@[t] as int].key;
                    assert(heads@[w] == pre[w]);
                } else {
                    assert(sv[heads@[t_new].0 as int].key == sv[order@[t] as int].key);
                }
            }
            assert forall|a: int, u: int|
                0 <= a < heads@.len() && j <= u < n implies lex_lt(
                    sv[#[trigger] heads@[a].0 as int].key,
                    sv[#[trigger] order@[u] as int].key,
                ) by {
                if a < t_new {
                    assert(heads@[a] == pre[a]);
                    assert(lex_lt(sv[pre[a].0 as int].key, sv[order@[i as int] as int].key));
                    assert(lex_lt(k, sv[order@[u] as int].key));
                    lemma_lex_lt_transitive(sv[pre[a].0 as int].key, k, sv[order@[u] as int].key);
                }
            }
            assert forall|t: int, u: int|
                0 <= t < j <= u < n implies lex_lt(sv[#[trigger] order@[t] as int].key, sv[#[trigger] order@[u] as int].key) by {
                if t < i {
                    assert(lex_lt(sv[order@[t] as int].key, sv[order@[i as int] as int].key));
                    lemma_lex_lt_transitive(sv[order@[t] as int].key, k, sv[order@[u] as int].key);
                }
            }
            assert forall|a: int, b: int|
                0 <= a < b < heads@.len() implies lex_lt(
                    sv[#[trigger] heads@[a].0 as int].key,
                    sv[#[trigger] heads@[b].0 as int].key,
                ) by {
                if b == t_new {
                    assert(heads@[a] == pre[a]);
                } else {
                    assert(heads@[a] == pre[a] && heads@[b] == pre[b]);
                }
            }
            assert forall|t: int|
                0 <= t < heads@.len() implies {
                    &&& is_newest_at(sv, sv[#[trigger] heads@[t].0 as int].key, heads@[t].0 as int)
                    &&& heads@[t].1 == !single_version(sv, sv[heads@[t].0 as int].key)
                } by {
                if t < t_new {
                    assert(heads@[t] == pre[t]);
                }
            }
        }
        i = j;
    }
    proof {
        assert forall|p: int| 0 <= p < sv.len() implies #[trigger] has_head(sv, heads@, sv[p].key) by {
            assert(lists_position(order@, p));
            let t = choose|t: int| 0 <= t < order@.len() && order@[t] == p;
            assert(has_head(sv, heads@, sv[order@[t] as int].key));
        }
    }
    heads
}

/// Some entry of `out` is a version of `k`.
pub open spec fn has_key(out: Seq<EntryView>, k: Seq<u8>) -> bool {
    exists|t: int| 0 <= t < out.len() && out[t].key == k
}

/// `out` holds, in strictly ascending key order, the newest version in `s`
/// of every key that `keep` accepts, and nothing else.
pub open spec fn newest_per_key(s: Seq<EntryView>, out: Seq<EntryView>, keep: spec_fn(Seq<u8>) -> bool) -> bool {
    &&& forall|a: int, b: int| 0 <= a < b < out.len() ==> lex_lt(#[trigger] out[a].key, #[trigger] out[b].key)
    &&& forall|t: int|
        0 <= t < out.len() ==> newest_version(s, #[trigger] out[t].key) == Some(out[t]) && keep(out[t].key)
    &&& forall|j: int| 0 <= j < s.len() && keep(s[j].key) ==> #[trigger] has_key(out, s[j].key)
}

/// A key stays visible when its newest version holds a value.
pub open spec fn visible_in(s: Seq<EntryView>, k: Seq<u8>) -> bool {
    newest_version(s, k) matches Some(e) && e.value is Some
}

/// A key survives compaction into `level` unless the level is below level
/// 0, the key's newest version is a tombstone and it is the only version.
pub open spec fn survives_compaction(s: Seq<EntryView>, k: Seq<u8>, level: usize) -> bool {
    !(level > 0 && (newest_version(s, k) matches Some(e) && e.value is None) && single_version(s, k))
}

/// `k` is the key of one of the first `t` heads.
pub open spec fn among_first_heads(sv: Seq<EntryView>, heads: Seq<(usize, bool)>, t: int, k: Seq<u8>) -> bool {
    exists|a: int| 0 <= a < t && k == sv[heads[a].0 as int].key
}

/// Keys taken from earlier heads sort before the key of head `t`.
proof fn lemma_select_heads_step(
    sv: Seq<EntryView>,
    heads: Seq<(usize, bool)>,
    t: int,
    out: Seq<EntryView>,
    keep: spec_fn(Seq<u8>) -> bool,
)
    requires
        group_heads_of(sv, heads),
        0 <= t < heads.len(),
        forall|a: int, b: int| 0 <= a < b < out.len() ==> lex_lt(#[trigger] out[a].key, #[trigger] out[b].key),
        forall|c: int| 0 <= c < out.len() ==> #[trigger] among_first_heads(sv, heads, t, out[c].key),
    ensures
        forall|c: int| 0 <= c < out.len() ==> lex_lt(#[trigger] out[c].key, sv[heads[t].0 as int].key),
{
    assert forall|c: int| 0 <= c < out.len() implies lex_lt(#[trigger] out[c].key, sv[heads[t].0 as int].key) by {
        assert(among_first_heads(sv, heads, t, out[c].key));
        let a = choose|a: int| 0 <= a < t && out[c].key == sv[heads[a].0 as int].key;
        assert(lex_lt(sv[heads[a].0 as int].key, sv[heads[t].0 as int].key));
    }
}

/// Select, from the heads, the newest versions of the keys that `keep`
/// accepts.
fn select_heads(
    s: &[Entry],
    heads: &Vec<(usize, bool)>,
    drop_tombstones: bool,
    drop_lone_tombstones: bool,
    Ghost(keep): Ghost<spec_fn(Seq<u8>) -> bool>,
) -> (out: Vec<Entry>)
    requires
        group_heads_of(entries_view(s@), heads@),
        forall|t: int|
            0 <= t < heads@.len() ==> #[trigger] keep(entries_view(s@)[heads@[t].0 as int].key) == !(
            (drop_tombstones && s@[heads@[t].0 as int].value is None) || (drop_lone_tombstones
                && s@[heads@[t].0 as int].value is None && !heads@[t].1)),
    ensures
        newest_per_key(entries_view(s@), entries_view(out@), keep),
{
    let ghost sv = entries_view(s@);
    let mut out: Vec<Entry> = Vec::new();
    let mut t: usize = 0;
    while t < heads.len()
        invariant
            sv == entries_view(s@),
            group_heads_of(sv, heads@),
            forall|u: int|
                0 <= u < heads@.len() ==> #[trigger] keep(sv[heads@[u].0 as int].key) == !((
                drop_tombstones && s@[heads@[u].0 as int].value is None) || (drop_lone_tombstones
                    && s@[heads@[u].0 as int].value is None && !heads@[u].1)),
            t <= heads@.len(),
            forall|a: int, b: int|
                0 <= a < b < out@.len() ==> lex_lt(#[trigger] entries_view(out@)[a].key, #[trigger] entries_view(out@)[b].key),
            forall|c: int|
                0 <= c < out@.len() ==> #[trigger] among_first_heads(sv, heads@, t as int, entries_view(out@)[c].key),
            forall|c: int|
                0 <= c < out@.len() ==> newest_version(sv, #[trigger] entries_view(out@)[c].key) == Some(
                    entries_view(out@)[c],
                ) && keep(entries_view(out@)[c].key),
            forall|a: int|
                0 <= a < t && keep(sv[heads@[a].0 as int].key) ==> #[trigger] has_key(
                    entries_view(out@),
                    sv[heads@[a].0 as int].key,
                ),
        decreases heads@.len() - t,
    {
        let (h, multi) = heads[t];
        let e = &s[h];
        let skip = (drop_tombstones && e.is_tombstone()) || (drop_lone_tombstones && e.is_tombstone()
            && !multi);
        if !skip {
            let ghost pre = entries_view(out@);
            proof {
                lemma_select_heads_step(sv, heads@, t as int, pre, keep);
                lemma_newest_version_at(sv, sv[h as int].key, h as int);
            }
            out.push(e.duplicate());
            proof {
                let post = entries_view(out@);
                assert(post =~= pre.push(sv[h as int]));
                assert forall|c: int| 0 <= c < post.len() implies #[trigger] among_first_heads(sv, heads@, t + 1, post[c].key) by {
                    if c < pre.len() {
                        assert(post[c] == pre[c]);
                        assert(among_first_heads(sv, heads@, t as int, pre[c].key));
                        let a = choose|a: int| 0 <= a < t && pre[c].key == sv[heads@[a].0 as int].key;
                        assert(0 <= a < t + 1 && post[c].key == sv[heads@[a].0 as int].key);
                    } else {
                        assert(post[c].key == sv[heads@[t as int].0 as int].key);
                    }
                }
                assert forall|a: int|
                    0 <= a < t + 1 && keep(sv[heads@[a].0 as int].key) implies #[trigger] has_key(
                    post,
                    sv[heads@[a].0 as int].key,
                ) by {
                    if a < t {
                        assert(has_key(pre, sv[heads@[a].0 as int].key));
                        let c = choose|c: int| 0 <= c < pre.len() && pre[c].key == sv[heads@[a].0 as int].key;
                        assert(post[c] == pre[c]);
                    } else {
                        assert(post[pre.len() as int].key == sv[heads@[a].0 as int].key);
                    }
                }
            }
        } else {
            proof {
                let post = entries_view(out@);
                assert forall|c: int| 0 <= c < post.len() implies #[trigger] among_first_heads(sv, heads@, t + 1, post[c].key) by {
                    assert(among_first_heads(sv, heads@, t as int, post[c].key));
                    let a = choose|a: int| 0 <= a < t && post[c].key == sv[heads@[a].0 as int].key;
                    assert(0 <= a < t + 1 && post[c].key == sv[heads@[a].0 as int].key);
                }
            }
        }
        t = t + 1;
    }
    proof {
        let ov = entries_view(out@);
        assert forall|j: int| 0 <= j < sv.len() && keep(sv[j].key) implies #[trigger] has_key(ov, sv[j].key) by {
            assert(has_head(sv, heads@, sv[j].key));
            let a = choose|a: int| 0 <= a < heads@.len() && sv[heads@[a].0 as int].key == sv[j].key;
            assert(keep(sv[heads@[a].0 as int].key));
        }
    }
    out
}

/// The entries a range scan returns: the newest version of each key, in
/// ascending key order, leaving out keys whose newest version is a
/// tombstone.
pub fn merge_visible(entries: &[Entry]) -> (r: Vec<Entry>)
    ensures
        newest_per_key(entries_view(entries@), entries_view(r@), |k: Seq<u8>| visible_in(entries_view(entries@), k)),
{
    let ghost sv = entries_view(entries@);
    let ghost keep = |k: Seq<u8>| visible_in(sv, k);
    let heads = group_heads(entries);
    proof {
        assert forall|t: int| 0 <= t < heads@.len() implies #[trigger] keep(sv[heads@[t].0 as int].key) == !(
            (true && entries@[heads@[t].0 as int].value is None) || (false
                && entries@[heads@[t].0 as int].value is None && !heads@[t].1)) by {
            let h = heads@[t].0 as int;
            lemma_newest_version_at(sv, sv[h].key, h);
        }
    }
    select_heads(entries, &heads, true, false, Ghost(keep))
}

/// The entries a compaction into `output_level` writes: the newest version
/// of each key, in ascending key order, leaving out a key whose newest
/// version is a tombstone when it is the key's only version and the output
/// level is below level 0.
pub fn merge_for_compaction(entries: &[Entry], output_level: usize) -> (r: Vec<Entry>)
    ensures
        newest_per_key(
            entries_view(entries@),
            entries_view(r@),
            |k: Seq<u8>| survives_compaction(entries_view(entries@), k, output_level),
        ),
{
    let ghost sv = entries_view(entries@);
    let ghost keep = |k: Seq<u8>| survives_compaction(sv, k, output_level);
    let heads = group_heads(entries);
    proof {
        assert forall|t: int| 0 <= t < heads@.len() implies #[trigger] keep(sv[heads@[t].0 as int].key) == !(
            (false && entries@[heads@[t].0 as int].value is None) || ((output_level > 0)
                && entries@[heads@[t].0 as int].value is None && !heads@[t].1)) by {
            let h = heads@[t].0 as int;
            lemma_newest_version_at(sv, sv[h].key, h);
        }
    }
    select_heads(entries, &heads, false, output_level > 0, Ghost(keep))
}

} // verus!
