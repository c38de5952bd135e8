//! Skip-list memtable: the in-memory sorted store of recent writes.
//!
//! Nodes live in an arena; node 0 is the head. Every node has a link at each
//! of `MAX_LEVEL` levels; level 0 links all nodes in key order, and each
//! higher level links a subset of the nodes of the level below. Several
//! versions of one key may coexist, the newest first; a new version is
//! linked after the versions whose sequence number is at least its own.
use vstd::prelude::*;

use rand::Rng;

use crate::keys::{key_eq, key_lt, lex_lt, lemma_lex_order};
use crate::versions::{
    comes_before, entries_view, insert_pos, is_newest_at, lemma_key_run, lemma_lower_bound,
    lemma_newest_version_at, lemma_ordered_insert, lemma_ordered_prefix, lemma_search_pos,
    lemma_search_pos_at, lemma_search_pos_lower, lemma_select_window, lemma_sorted_lower_bound,
    lemma_total_size_insert, lower_bound, memtable_ordered, newest_version, search_pos, select_range,
    sorted_by_key, total_size,
};
use crate::{entry_size, opt_entry_view, Entry, EntryView, Key, Sequence, Value};

verus! {

/// Number of levels of the skip list.
pub const MAX_LEVEL: usize = 16;

/// The link that ends a level.
pub const NIL: usize = usize::MAX;

/// The successor, in `list`, of position `j`; position -1 stands for the head.
pub open spec fn succ_of(list: Seq<int>, j: int) -> usize {
    if j + 1 < list.len() {
        list[j + 1] as usize
    } else {
        NIL
    }
}

/// Level `l` of the links is the chain `list`: it starts at the head (node
/// 0), visits the nodes of `list` in order and ends with `NIL`.
pub open spec fn level_ok(n_nodes: int, links: Seq<usize>, list: Seq<int>, l: int) -> bool {
    &&& links.len() == n_nodes * 16
    &&& forall|j: int| 0 <= j < list.len() ==> 1 <= #[trigger] list[j] < n_nodes
    &&& list.no_duplicates()
    &&& links[l] == succ_of(list, -1)
    &&& forall|j: int| 0 <= j < list.len() ==> links[#[trigger] list[j] * 16 + l] == succ_of(list, j)
}

/// The level-0 link of `node`.
pub open spec fn node_link(links: Seq<usize>, node: int) -> usize {
    links[node * 16]
}

/// Appending the sixteen link slots of a new node keeps every level intact.
proof fn lemma_level_extend(n: int, links: Seq<usize>, links2: Seq<usize>, list: Seq<int>, l: int)
    requires
        0 <= l < 16,
        n >= 1,
        level_ok(n, links, list, l),
        links2.len() == (n + 1) * 16,
        forall|k: int| 0 <= k < links.len() ==> links2[k] == links[k],
    ensures
        level_ok(n + 1, links2, list, l),
{
    assert forall|j: int| 0 <= j < list.len() implies links2[#[trigger] list[j] * 16 + l] == succ_of(list, j) by {
        assert(list[j] * 16 + l < n * 16);
    }
}

/// Changing only link slots of other levels keeps level `l` intact.
proof fn lemma_level_frame(n: int, links: Seq<usize>, links2: Seq<usize>, list: Seq<int>, l: int)
    requires
        0 <= l < 16,
        level_ok(n, links, list, l),
        links2.len() == links.len(),
        links2[l] == links[l],
        forall|x: int| 0 <= x < n ==> #[trigger] links2[x * 16 + l] == links[x * 16 + l],
    ensures
        level_ok(n, links2, list, l),
{
    assert forall|j: int| 0 <= j < list.len() implies links2[#[trigger] list[j] * 16 + l] == succ_of(list, j) by {
        assert(links2[list[j] * 16 + l] == links[list[j] * 16 + l]);
    }
}

/// The position just after node `u` in `list` (0 when `u` is the head).
pub open spec fn pos_after(list: Seq<int>, u: int) -> int {
    if u == 0 {
        0
    } else {
        (choose|j: int| 0 <= j < list.len() && #[trigger] list[j] == u) + 1
    }
}

/// Linking `new` in after `u` at level `l` inserts it into the chain at the
/// position after `u`.
proof fn lemma_level_insert(
    n: int,
    links: Seq<usize>,
    list: Seq<int>,
    l: int,
    u: int,
    new: int,
    links2: Seq<usize>,
)
    requires
        0 <= l < 16,
        level_ok(n, links, list, l),
        new == n - 1,
        new >= 1,
        forall|j: int| 0 <= j < list.len() ==> #[trigger] list[j] < new,
        u == 0 || list.contains(u),
        links2 == links.update(new * 16 + l, links[u * 16 + l]).update(u * 16 + l, new as usize),
    ensures
        level_ok(n, links2, list.insert(pos_after(list, u), new), l),
        0 <= pos_after(list, u) <= list.len(),
        u != 0 ==> list[pos_after(list, u) - 1] == u,
{
    let pos = pos_after(list, u);
    let t = list.insert(pos, new);
    list.insert_ensures(pos, new);
    if u != 0 {
        let j = choose|j: int| 0 <= j < list.len() && #[trigger] list[j] == u;
        assert(pos == j + 1);
    }
    assert(links2.len() == links.len());
    assert forall|a: int, b: int| 0 <= a < b < t.len() implies t[a] != t[b] by {
        if a < pos && b < pos {
        } else if a < pos && b == pos {
        } else if a < pos {
            assert(t[b] == list[b - 1]);
        } else if a == pos {
            assert(t[b] == list[b - 1]);
        } else {
            assert(t[a] == list[a - 1] && t[b] == list[b - 1]);
        }
    }
    assert(t.no_duplicates());
    assert forall|j: int| 0 <= j < t.len() implies 1 <= #[trigger] t[j] < n by {
        if j > pos {
            assert(t[j] == list[j - 1]);
        }
    }
    assert(links2[l] == succ_of(t, -1)) by {
        if u == 0 {
            assert(pos == 0);
        } else {
            assert(l != u * 16 + l);
            assert(l != new * 16 + l);
        }
    }
    assert forall|j: int| 0 <= j < t.len() implies links2[#[trigger] t[j] * 16 + l] == succ_of(t, j) by {
        if j < pos - 1 {
            assert(t[j] == list[j] && list[j] != u && list[j] != new);
            assert(t[j + 1] == list[j + 1]);
        } else if j == pos - 1 {
            assert(t[j] == u);
        } else if j == pos {
            assert(u != new);
            assert(links2[new * 16 + l] == links[u * 16 + l]);
            assert(links[u * 16 + l] == succ_of(list, pos - 1));
            if pos < list.len() {
                assert(t[pos + 1] == list[pos]);
            }
        } else {
            assert(t[j] == list[j - 1]);
            assert(list[j - 1] != u) by {
                if u != 0 {
                    assert(list[pos - 1] == u);
                }
            }
            if j + 1 < t.len() {
                assert(t[j + 1] == list[j]);
            }
        }
    }
}

/// Linking a node into the lowest levels keeps every level a subset of the
/// level below.
proof fn lemma_subset_after_link(
    old_lists: Seq<Seq<int>>,
    new_lists: Seq<Seq<int>>,
    update: Seq<usize>,
    new_level: int,
    n_old: int,
)
    requires
        old_lists.len() == 16,
        new_lists.len() == 16,
        update.len() == 16,
        0 <= new_level < 16,
        forall|l: int, j: int|
            1 <= l < 16 && 0 <= j < old_lists[l].len() ==> old_lists[l - 1].contains(
                #[trigger] old_lists[l][j],
            ),
        forall|l: int|
            0 <= l <= new_level ==> #[trigger] new_lists[l] == old_lists[l].insert(
                pos_after(old_lists[l], update[l] as int),
                n_old,
            ),
        forall|l: int| new_level < l < 16 ==> #[trigger] new_lists[l] == old_lists[l],
        forall|l: int|
            0 <= l < 16 ==> (#[trigger] update[l] == 0 || old_lists[l].contains(update[l] as int)),
    ensures
        forall|l: int, j: int|
            1 <= l < 16 && 0 <= j < new_lists[l].len() ==> new_lists[l - 1].contains(
                #[trigger] new_lists[l][j],
            ),
{
    assert forall|l: int, j: int|
        1 <= l < 16 && 0 <= j < new_lists[l].len() implies new_lists[l - 1].contains(
        #[trigger] new_lists[l][j],
    ) by {
        let a = old_lists[l];
        let b = old_lists[l - 1];
        let pb = pos_after(b, update[l - 1] as int);
        if update[l - 1] != 0 {
            assert(b.contains(update[l - 1] as int));
        }
        if update[l] != 0 {
            assert(a.contains(update[l] as int));
        }
        if l <= new_level {
            let pa = pos_after(a, update[l] as int);
            a.insert_ensures(pa, n_old);
            b.insert_ensures(pb, n_old);
            if j == pa {
                assert(new_lists[l - 1][pb] == n_old);
            } else {
                let x = if j < pa {
                    a[j]
                } else {
                    a[j - 1]
                };
                assert(new_lists[l][j] == x);
                assert(b.contains(x));
                let y = choose|y: int| 0 <= y < b.len() && b[y] == x;
                if y < pb {
                    assert(new_lists[l - 1][y] == x);
                } else {
                    assert(new_lists[l - 1][y + 1] == x);
                }
            }
        } else if l - 1 <= new_level {
            b.insert_ensures(pb, n_old);
            let x = a[j];
            assert(new_lists[l][j] == x);
            assert(b.contains(x));
            let y = choose|y: int| 0 <= y < b.len() && b[y] == x;
            if y < pb {
                assert(new_lists[l - 1][y] == x);
            } else {
                assert(new_lists[l - 1][y + 1] == x);
            }
        } else {
            assert(new_lists[l][j] == a[j]);
            assert(b.contains(a[j]));
        }
    }
}

/// Inserting the new node into level 0 at position `lb` inserts its entry
/// into the view there.
proof fn lemma_view_after_link(
    l0_old: Seq<int>,
    l0_new: Seq<int>,
    ents_old: Seq<Entry>,
    ents_new: Seq<Entry>,
    lb: int,
    e: EntryView,
)
    requires
        0 <= lb <= l0_old.len(),
        l0_new == l0_old.insert(lb, ents_old.len() as int),
        ents_new.len() == ents_old.len() + 1,
        forall|j: int| 0 <= j < ents_old.len() ==> #[trigger] ents_new[j] == ents_old[j],
        ents_new[ents_old.len() as int]@ == e,
        forall|j: int| 0 <= j < l0_old.len() ==> 0 <= #[trigger] l0_old[j] < ents_old.len(),
    ensures
        l0_new.map_values(|n: int| ents_new[n]@) == l0_old.map_values(|n: int| ents_old[n]@).insert(lb, e),
{
    let v_old = l0_old.map_values(|n: int| ents_old[n]@);
    let v_new = l0_new.map_values(|n: int| ents_new[n]@);
    l0_old.insert_ensures(lb, ents_old.len() as int);
    v_old.insert_ensures(lb, e);
    assert forall|t: int| 0 <= t < v_new.len() implies #[trigger] v_new[t] == v_old.insert(lb, e)[t] by {
        if t < lb {
            assert(l0_new[t] == l0_old[t]);
            assert(ents_new[l0_old[t]] == ents_old[l0_old[t]]);
        } else if t > lb {
            assert(l0_new[t] == l0_old[t - 1]);
            assert(ents_new[l0_old[t - 1]] == ents_old[l0_old[t - 1]]);
        }
    }
    assert(v_new =~= v_old.insert(lb, e));
}

/// Append the link slots of a new node, all ending their levels.
fn push_nil_links(links: &mut Vec<usize>)
    ensures
        final(links)@.len() == old(links)@.len() + 16,
        forall|t: int| 0 <= t < old(links)@.len() ==> final(links)@[t] == old(links)@[t],
        forall|t: int| old(links)@.len() <= t < final(links)@.len() ==> final(links)@[t] == NIL,
{
    let mut k: usize = 0;
    while k < MAX_LEVEL
        invariant
            k <= MAX_LEVEL,
            links@.len() == old(links)@.len() + k,
            forall|t: int| 0 <= t < old(links)@.len() ==> links@[t] == old(links)@[t],
            forall|t: int| old(links)@.len() <= t < links@.len() ==> links@[t] == NIL,
        decreases MAX_LEVEL - k,
    {
        links.push(NIL);
        k = k + 1;
    }
}

/// One linking step keeps every level a chain: level `i` gains the new node
/// after `u`, every other level is untouched.
proof fn lemma_link_step(
    n: int,
    links_pre: Seq<usize>,
    links_post: Seq<usize>,
    lists: Seq<Seq<int>>,
    i: int,
    u: int,
)
    requires
        0 <= i < 16,
        n >= 2,
        lists.len() == 16,
        forall|l: int| 0 <= l < 16 ==> level_ok(n, links_pre, #[trigger] lists[l], l),
        forall|j: int| 0 <= j < lists[i].len() ==> #[trigger] lists[i][j] < n - 1,
        u == 0 || lists[i].contains(u),
        0 <= u < n - 1,
        links_post == links_pre.update((n - 1) * 16 + i, links_pre[u * 16 + i]).update(
            u * 16 + i,
            (n - 1) as usize,
        ),
    ensures
        forall|l: int|
            0 <= l < 16 ==> level_ok(
                n,
                links_post,
                #[trigger] lists.update(i, lists[i].insert(pos_after(lists[i], u), n - 1))[l],
                l,
            ),
{
    let new_list = lists[i].insert(pos_after(lists[i], u), n - 1);
    let lists2 = lists.update(i, new_list);
    lemma_level_insert(n, links_pre, lists[i], i, u, n - 1, links_post);
    assert forall|l: int| 0 <= l < 16 implies level_ok(n, links_post, #[trigger] lists2[l], l) by {
        if l != i {
            assert(l != (n - 1) * 16 + i && l != u * 16 + i);
            assert forall|x: int| 0 <= x < n implies #[trigger] links_post[x * 16 + l] == links_pre[x
                * 16 + l] by {
                assert(x * 16 + l != (n - 1) * 16 + i);
                assert(x * 16 + l != u * 16 + i);
            }
            lemma_level_frame(n, links_pre, links_post, lists[l], l);
        }
    }
}

/// Link node `new_idx` into levels `0..=new_level`, each time right after
/// `update[l]`.
fn link_node(
    links: &mut Vec<usize>,
    update: &Vec<usize>,
    new_level: usize,
    new_idx: usize,
    Ghost(lists): Ghost<Seq<Seq<int>>>,
) -> (r: Ghost<Seq<Seq<int>>>)
    requires
        new_level < MAX_LEVEL,
        new_idx >= 1,
        new_idx + 1 < usize::MAX / 16,
        lists.len() == 16,
        update@.len() == 16,
        old(links)@.len() == (new_idx + 1) * 16,
        forall|l: int| 0 <= l < 16 ==> level_ok(new_idx + 1, old(links)@, #[trigger] lists[l], l),
        forall|l: int|
            0 <= l < 16 ==> (#[trigger] update@[l] == 0 || lists[l].contains(update@[l] as int)),
        forall|l: int, j: int| 0 <= l < 16 && 0 <= j < lists[l].len() ==> #[trigger] lists[l][j] < new_idx,
    ensures
        r@.len() == 16,
        forall|l: int| 0 <= l < 16 ==> level_ok(new_idx + 1, final(links)@, #[trigger] r@[l], l),
        forall|l: int|
            0 <= l <= new_level ==> #[trigger] r@[l] == lists[l].insert(
                pos_after(lists[l], update@[l] as int),
                new_idx as int,
            ),
        forall|l: int| new_level < l < 16 ==> #[trigger] r@[l] == lists[l],
{
    let ghost mut cur = lists;
    let mut i: usize = 0;
    while i <= new_level
        invariant
            new_level < MAX_LEVEL,
            0 <= i <= new_level + 1,
            new_idx >= 1,
            new_idx + 1 < usize::MAX / 16,
            links@.len() == (new_idx + 1) * 16,
            cur.len() == 16,
            update@.len() == 16,
            forall|l: int| 0 <= l < i ==> #[trigger] cur[l] == lists[l].insert(
                pos_after(lists[l], update@[l] as int),
                new_idx as int,
            ),
            forall|l: int| i <= l < 16 ==> #[trigger] cur[l] == lists[l],
            forall|l: int| 0 <= l < 16 ==> level_ok(new_idx + 1, links@, #[trigger] cur[l], l),
            forall|l: int|
                0 <= l < 16 ==> (#[trigger] update@[l] == 0 || lists[l].contains(update@[l] as int)),
            forall|l: int, j: int|
                0 <= l < 16 && 0 <= j < lists[l].len() ==> #[trigger] lists[l][j] < new_idx,
        decreases new_level + 1 - i,
    {
        let u = update[i];
        let ghost links_pre = links@;
        proof {
            assert((new_idx + 1) * 16 < usize::MAX) by (nonlinear_arith)
                requires
                    new_idx + 1 < usize::MAX / 16,
            ;
            if u != 0 {
                let j = choose|j: int| 0 <= j < lists[i as int].len() && lists[i as int][j] == u as int;
                assert(lists[i as int][j] < new_idx);
            }
        }
        let nxt = links[u * MAX_LEVEL + i];
        links.set(new_idx * MAX_LEVEL + i, nxt);
        links.set(u * MAX_LEVEL + i, new_idx);
        proof {
            assert forall|j: int| 0 <= j < cur[i as int].len() implies #[trigger] cur[i as int][j]
                < new_idx by {
                assert(lists[i as int][j] < new_idx);
            }
            lemma_link_step(new_idx + 1, links_pre, links@, cur, i as int, u as int);
            cur = cur.update(i as int, cur[i as int].insert(pos_after(cur[i as int], u as int), new_idx as int));
        }
        i = i + 1;
    }
    Ghost(cur)
}

/// rand's `Rng::gen::<bool>` on the thread-local generator: a fair coin.
/// Nothing is promised of the outcome.
#[verifier::external_body]
fn coin_flip() -> bool {
    rand::thread_rng().gen::<bool>()
}

/// Skip-list based memtable for in-memory sorted key-value storage.
pub struct Memtable {
    entries: Vec<Entry>,
    links: Vec<usize>,
    head: usize,
    max_level: usize,
    current_level: usize,
    len: usize,
    size_bytes: usize,
    max_size_bytes: usize,
    lists: Ghost<Seq<Seq<int>>>,
}

impl View for Memtable {
    type V = Seq<EntryView>;

    /// The entries in level-0 order.
    closed spec fn view(&self) -> Seq<EntryView> {
        self.lists@[0].map_values(|n: int| self.entries@[n]@)
    }
}

impl Memtable {
    /// The internal invariant of the skip list.
    pub closed spec fn wf(&self) -> bool {
        &&& self.head == 0
        &&& self.max_level == MAX_LEVEL
        &&& self.current_level < MAX_LEVEL
        &&& 1 <= self.entries.len() < usize::MAX / 16
        &&& self.lists@.len() == MAX_LEVEL
        &&& forall|l: int|
            0 <= l < 16 ==> level_ok(self.entries.len() as int, self.links@, #[trigger] self.lists@[l], l)
        &&& self.lists@[0].len() == self.entries.len() - 1
        &&& forall|l: int| self.current_level < l < 16 ==> #[trigger] self.lists@[l].len() == 0
        &&& forall|l: int, j: int|
            1 <= l < 16 && 0 <= j < self.lists@[l].len() ==> self.lists@[l - 1].contains(
                #[trigger] self.lists@[l][j],
            )
        &&& memtable_ordered(self@)
        &&& self.len == self@.len()
        &&& self.size_bytes == total_size(self@)
    }

    /// A memtable holds its entries in key order, and the versions of a
    /// key from the largest sequence number down.
    pub proof fn lemma_sorted(&self)
        requires
            self.wf(),
        ensures
            sorted_by_key(self@),
            memtable_ordered(self@),
    {
    }

    /// The size limit the memtable was created with.
    pub closed spec fn capacity(&self) -> usize {
        self.max_size_bytes
    }

    proof fn lemma_view(&self)
        requires
            self.wf(),
        ensures
            self@.len() == self.lists@[0].len(),
            forall|t: int|
                0 <= t < self@.len() ==> #[trigger] self@[t] == self.entries@[self.lists@[0][t]]@,
    {
    }

    pub fn new(max_size_bytes: usize) -> (r: Memtable)
        ensures
            r.wf(),
            r@ == Seq::<EntryView>::empty(),
            r.capacity() == max_size_bytes,
    {
        let mut entries: Vec<Entry> = Vec::with_capacity(1024);
        entries.push(Entry::new(Vec::new(), None, 0));
        let mut links: Vec<usize> = Vec::new();
        let mut k: usize = 0;
        while k < MAX_LEVEL
            invariant
                k <= MAX_LEVEL,
                links@.len() == k,
                forall|t: int| 0 <= t < k ==> links@[t] == NIL,
            decreases MAX_LEVEL - k,
        {
            links.push(NIL);
            k = k + 1;
        }
        let ghost lists = Seq::new(16, |l: int| Seq::<int>::empty());
        let r = Memtable {
            entries,
            links,
            head: 0,
            max_level: MAX_LEVEL,
            current_level: 0,
            len: 0,
            size_bytes: 0,
            max_size_bytes,
            lists: Ghost(lists),
        };
        assert(r@ =~= Seq::<EntryView>::empty());
        r
    }

    /// Find, at each level, the last node that comes before a search for
    /// `key` (and `seq`): its key sorts before `key`, or it is a version of
    /// `key` with a sequence number at least `seq` (the head where there is
    /// none).
    fn find_predecessors(&self, key: &[u8], seq: Option<u64>) -> (update: Vec<usize>)
        requires
            self.wf(),
        ensures
            update.len() == MAX_LEVEL,
            forall|l: int|
                0 <= l < 16 ==> (#[trigger] update@[l] == 0 || self.lists@[l].contains(
                    update@[l] as int,
                )),
            forall|l: int| self.current_level < l < 16 ==> #[trigger] update@[l] == 0,
            update@[0] == (if search_pos(self@, key@, seq) == 0 {
                0usize
            } else {
                self.lists@[0][search_pos(self@, key@, seq) - 1] as usize
            }),
    {
        let mut update: Vec<usize> = vec![0usize; MAX_LEVEL];
        let mut current: usize = self.head;
        let mut i: usize = self.current_level + 1;
        while i > 0
            invariant
                self.wf(),
                0 <= i <= self.current_level + 1,
                update@.len() == MAX_LEVEL,
                forall|l: int|
                    0 <= l < 16 ==> (#[trigger] update@[l] == 0 || self.lists@[l].contains(
                        update@[l] as int,
                    )),
                forall|l: int| self.current_level < l < 16 ==> #[trigger] update@[l] == 0,
                current == 0 || (i < 16 && self.lists@[i as int].contains(current as int)),
                current != 0 ==> comes_before(self.entries@[current as int]@, key@, seq),
                i == 0 ==> update@[0] == (if search_pos(self@, key@, seq) == 0 {
                    0usize
                } else {
                    self.lists@[0][search_pos(self@, key@, seq) - 1] as usize
                }),
            decreases i,
        {
            i = i - 1;
            let ghost list = self.lists@[i as int];
            let ghost mut cj: int = -1;
            proof {
                if current != 0 {
                    let upper = self.lists@[i + 1];
                    let j = choose|j: int| 0 <= j < upper.len() && #[trigger] upper[j] == current as int;
                    assert(self.lists@[i as int].contains(self.lists@[i + 1][j]));
                    cj = choose|c: int| 0 <= c < list.len() && list[c] == current as int;
                }
            }
            let mut go = true;
            while go
                invariant
                    self.wf(),
                    i < 16,
                    list == self.lists@[i as int],
                    -1 <= cj < list.len(),
                    current == (if cj == -1 {
                        0usize
                    } else {
                        list[cj] as usize
                    }),
                    cj >= 0 ==> comes_before(self.entries@[current as int]@, key@, seq),
                    !go ==> (cj + 1 == list.len() || !comes_before(
                        self.entries@[list[cj + 1]]@,
                        key@,
                        seq,
                    )),
                decreases 2 * (list.len() - cj) + (if go {
                    1int
                } else {
                    0int
                }),
            {
                assert(level_ok(self.entries.len() as int, self.links@, list, i as int));
                let next = self.links[current * MAX_LEVEL + i];
                assert(next == succ_of(list, cj));
                if next == NIL {
                    go = false;
                } else if self.precedes(next, key, seq) {
                    current = next;
                    proof {
                        cj = cj + 1;
                    }
                } else {
                    go = false;
                }
            }
            update.set(i, current);
            proof {
                if i == 0 {
                    self.lemma_view();
                    let p = cj + 1;
                    if cj >= 0 {
                        assert(self@[cj] == self.entries@[list[cj]]@);
                        lemma_ordered_prefix(self@, key@, seq, cj);
                    }
                    if p < self@.len() {
                        assert(self@[p] == self.entries@[list[p]]@);
                    }
                    lemma_search_pos_at(self@, key@, seq, p);
                }
            }
        }
        update
    }

    /// Whether node `n` comes before a search for `key` (and `seq`).
    fn precedes(&self, n: usize, key: &[u8], seq: Option<u64>) -> (r: bool)
        requires
            n < self.entries.len(),
        ensures
            r == comes_before(self.entries@[n as int]@, key@, seq),
    {
        let e = &self.entries[n];
        if key_lt(e.key.as_slice(), key) {
            true
        } else {
            match seq {
                Some(q) => key_eq(e.key.as_slice(), key) && e.sequence >= q,
                None => false,
            }
        }
    }

    fn random_level(&self) -> (r: usize)
        requires
            self.max_level == MAX_LEVEL,
        ensures
            r < MAX_LEVEL,
    {
        let mut level: usize = 0;
        while level < self.max_level - 1
            invariant
                level < MAX_LEVEL,
                self.max_level == MAX_LEVEL,
            decreases MAX_LEVEL - level,
        {
            if !coin_flip() {
                break;
            }
            level = level + 1;
        }
        level
    }

    /// Insert a version of `key`: its value, or a tombstone when `value` is
    /// `None`. The new version is placed after all keys that sort before
    /// `key` and after the versions of `key` whose sequence number is at
    /// least `sequence`, so the versions of a key run from the newest down.
    pub fn put(&mut self, key: Key, value: Option<Value>, sequence: Sequence)
        requires
            old(self).wf(),
            old(self)@.len() + 2 < usize::MAX / 16,
            total_size(old(self)@) + entry_size(Entry { key, value, sequence }@) <= usize::MAX,
        ensures
            final(self).wf(),
            final(self).capacity() == old(self).capacity(),
            final(self)@ == old(self)@.insert(
                insert_pos(old(self)@, Entry { key, value, sequence }@),
                Entry { key, value, sequence }@,
            ),
    {
        let ghost old_view = self@;
        let ghost e = Entry { key, value, sequence }@;
        let ghost old_lists = self.lists@;
        let ghost n_old = self.entries.len() as int;
        let update = self.find_predecessors(key.as_slice(), Some(sequence));
        let new_level = self.random_level();
        if new_level > self.current_level {
            self.current_level = new_level;
        }
        let vlen: usize = match &value {
            Some(v) => v.len(),
            None => 0,
        };
        let entry_size = key.len() + vlen + 8;
        let new_idx = self.entries.len();
        self.entries.push(Entry::new(key, value, sequence));
        let ghost links_before = self.links@;
        push_nil_links(&mut self.links);
        let ghost entries_now = self.entries@;
        let ghost cur_now = self.current_level;
        proof {
            assert(old(self).wf());
            assert forall|l: int| 0 <= l < 16 implies level_ok(
                n_old + 1,
                self.links@,
                #[trigger] self.lists@[l],
                l,
            ) by {
                assert(level_ok(n_old, links_before, old_lists[l], l));
                lemma_level_extend(n_old, links_before, self.links@, self.lists@[l], l);
            }
            assert forall|l: int, j: int|
                0 <= l < 16 && 0 <= j < old_lists[l].len() implies #[trigger] old_lists[l][j] < n_old by {
                assert(level_ok(n_old, links_before, old_lists[l], l));
            }
        }
        let Ghost(new_lists) = link_node(
            &mut self.links,
            &update,
            new_level,
            new_idx,
            Ghost(old_lists),
        );
        proof {
            self.lists@ = new_lists;
        }
        self.len = self.len + 1;
        self.size_bytes = self.size_bytes + entry_size;
        proof {
            let lb = insert_pos(old_view, e);
            lemma_search_pos(old_view, e.key, Some(e.sequence));
            assert(pos_after(old_lists[0], update@[0] as int) == lb) by {
                if lb != 0 {
                    let u = update@[0] as int;
                    let j = choose|j: int| 0 <= j < old_lists[0].len() && #[trigger] old_lists[0][j] == u;
                    assert(old_lists[0][lb - 1] == u);
                    assert(old_lists[0].no_duplicates());
                }
            }
            lemma_view_after_link(old_lists[0], self.lists@[0], old(self).entries@, self.entries@, lb, e);
            lemma_ordered_insert(old_view, e);
            lemma_total_size_insert(old_view, lb, e);
            lemma_subset_after_link(old_lists, self.lists@, update@, new_level as int, n_old);
        }
    }

    /// Walk the run of versions of `key` that starts at list position `p`
    /// (node `first`): the node, and its position, of the newest version.
    #[verifier::rlimit(100)]
    fn newest_in_run(&self, key: &[u8], first: usize, Ghost(p): Ghost<int>) -> (r: (usize, Ghost<int>))
        requires
            self.wf(),
            p == lower_bound(self@, key@),
            0 <= p < self@.len(),
            first as int == self.lists@[0][p],
            self@[p].key == key@,
        ensures
            is_newest_at(self@, key@, r.1@),
            r.0 as int == self.lists@[0][r.1@],
    {
        let ghost v = self@;
        let ghost l0 = self.lists@[0];
        proof {
            self.lemma_view();
            lemma_lower_bound(v, key@);
            lemma_sorted_lower_bound(v, key@);
            assert(level_ok(self.entries.len() as int, self.links@, l0, 0));
            assert(1 <= l0[p] < self.entries.len());
        }
        let mut best = first;
        let mut walk = self.links[first * MAX_LEVEL];
        let ghost mut bi: int = p;
        let ghost mut w: int = p + 1;
        let mut go = true;
        proof {
            assert forall|t: int| 0 <= t < l0.len() implies #[trigger] node_link(self.links@, l0[t])
                == succ_of(l0, t) by {
                assert(self.links@[l0[t] * 16 + 0] == succ_of(l0, t));
            }
        }
        while go
            invariant
                forall|t: int| 0 <= t < l0.len() ==> #[trigger] node_link(self.links@, l0[t]) == succ_of(l0, t),
                forall|t: int| 0 <= t < l0.len() ==> 1 <= #[trigger] l0[t] < self.entries.len(),
                self.links@.len() == self.entries.len() * 16,
                self.entries.len() < usize::MAX / 16,
                v.len() == l0.len(),
                forall|t: int| 0 <= t < v.len() ==> #[trigger] v[t] == self.entries@[l0[t]]@,
                p == lower_bound(v, key@),
                0 <= p <= bi < w <= v.len(),
                best as int == l0[bi],
                walk == succ_of(l0, w - 1),
                forall|t: int| p <= t < w ==> #[trigger] v[t].key == key@,
                forall|t: int| p <= t < w ==> #[trigger] v[t].sequence <= v[bi].sequence,
                forall|t: int| p <= t < bi ==> #[trigger] v[t].sequence < v[bi].sequence,
                !go ==> (w < v.len() ==> v[w].key != key@),
            decreases 2 * (v.len() - w) + (if go {
                1int
            } else {
                0int
            }),
        {
            proof {
                if w < l0.len() {
                    assert(1 <= l0[w] < self.entries.len());
                    assert(v[w] == self.entries@[l0[w]]@);
                }
                assert(1 <= l0[bi] < self.entries.len());
                assert(v[bi] == self.entries@[l0[bi]]@);
            }
            if walk == NIL {
                go = false;
            } else if key_eq(self.entries[walk].key.as_slice(), key) {
                if self.entries[walk].sequence > self.entries[best].sequence {
                    best = walk;
                    proof {
                        bi = w;
                    }
                }
                assert(self.links@[walk * 16] == node_link(self.links@, l0[w]));
                walk = self.links[walk * MAX_LEVEL];
                proof {
                    w = w + 1;
                }
            } else {
                go = false;
            }
        }
        proof {
            lemma_key_run(v, key@, w);
            assert(is_newest_at(v, key@, bi));
        }
        (best, Ghost(bi))
    }

    /// The newest version of `key` held: among its versions the one with the
    /// largest sequence number, the first of them in list order on a tie.
    pub fn get(&self, key: &[u8]) -> (r: Option<Entry>)
        requires
            self.wf(),
        ensures
            opt_entry_view(r) == newest_version(self@, key@),
    {
        let update = self.find_predecessors(key, None);
        proof {
            lemma_search_pos_lower(self@, key@, None);
        }
        let current = update[0];
        let ghost v = self@;
        let ghost l0 = self.lists@[0];
        let ghost p = lower_bound(v, key@);
        proof {
            self.lemma_view();
            lemma_lower_bound(v, key@);
            lemma_sorted_lower_bound(v, key@);
            assert(level_ok(self.entries.len() as int, self.links@, l0, 0));
        }
        let first = self.links[current * MAX_LEVEL];
        proof {
            if p == 0 {
                assert(current == 0);
            } else {
                assert(current as int == l0[p - 1]);
            }
            assert(first == succ_of(l0, p - 1));
        }
        if first != NIL && key_eq(self.entries[first].key.as_slice(), key) {
            proof {
                assert(1 <= l0[p] < self.entries.len());
                assert(v[p] == self.entries@[l0[p]]@);
            }
            let (best, Ghost(bi)) = self.newest_in_run(key, first, Ghost(p));
            proof {
                lemma_newest_version_at(v, key@, bi);
                assert(1 <= l0[bi] < self.entries.len());
                assert(v[bi] == self.entries@[l0[bi]]@);
            }
            return Some(self.entries[best].duplicate());
        }
        proof {
            lemma_key_run(v, key@, p);
            assert(!exists|i: int| is_newest_at(v, key@, i));
        }
        None
    }

    /// The entries whose keys lie in `[start, end]`, in list order (all
    /// versions of each key, newest first).
    #[verifier::rlimit(40)]
    #[verifier::spinoff_prover]
    pub fn range_scan(&self, start: &[u8], end: &[u8]) -> (r: Vec<Entry>)
        requires
            self.wf(),
        ensures
            entries_view(r@) == select_range(self@, start@, end@),
    {
        let mut results: Vec<Entry> = Vec::new();
        let update = self.find_predecessors(start, None);
        proof {
            lemma_search_pos_lower(self@, start@, None);
        }
        let ghost v = self@;
        let ghost l0 = self.lists@[0];
        let ghost p = lower_bound(v, start@);
        proof {
            self.lemma_view();
            lemma_lower_bound(v, start@);
            assert(level_ok(self.entries.len() as int, self.links@, l0, 0));
        }
        let mut idx = self.links[update[0] * MAX_LEVEL];
        let ghost mut w: int = p;
        proof {
            if p == 0 {
                assert(update@[0] == 0);
            }
            assert(idx == succ_of(l0, p - 1));
            assert(entries_view(results@) =~= v.subrange(p, w));
        }
        let mut go = true;
        while go
            invariant
                level_ok(self.entries.len() as int, self.links@, l0, 0),
                self.entries.len() < usize::MAX / 16,
                v.len() == l0.len(),
                forall|t: int| 0 <= t < v.len() ==> #[trigger] v[t] == self.entries@[l0[t]]@,
                p == lower_bound(v, start@),
                0 <= p <= w <= v.len(),
                idx == succ_of(l0, w - 1),
                entries_view(results@) == v.subrange(p, w),
                forall|t: int| p <= t < w ==> !lex_lt(end@, #[trigger] v[t].key),
                !go ==> (w < v.len() ==> lex_lt(end@, v[w].key)),
            decreases 2 * (v.len() - w) + (if go {
                1int
            } else {
                0int
            }),
        {
            proof {
                if w < l0.len() {
                    assert(1 <= l0[w] < self.entries.len());
                    assert(v[w] == self.entries@[l0[w]]@);
                }
            }
            if idx == NIL {
                go = false;
            } else if key_lt(end, self.entries[idx].key.as_slice()) {
                go = false;
            } else {
                let e = self.entries[idx].duplicate();
                let ghost before = results@;
                results.push(e);
                idx = self.links[idx * MAX_LEVEL];
                proof {
                    assert(entries_view(results@) =~= entries_view(before).push(v[w]));
                    w = w + 1;
                    assert(entries_view(results@) =~= v.subrange(p, w));
                }
            }
        }
        proof {
            lemma_select_window(v, start@, end@, w);
        }
        results
    }

    /// Remove every entry.
    pub fn clear(&mut self)
        requires
            old(self).wf(),
        ensures
            final(self).wf(),
            final(self)@ == Seq::<EntryView>::empty(),
            final(self).capacity() == old(self).capacity(),
    {
        self.entries.clear();
        self.entries.push(Entry::new(Vec::new(), None, 0));
        self.links.clear();
        push_nil_links(&mut self.links);
        self.current_level = 0;
        self.len = 0;
        self.size_bytes = 0;
        proof {
            self.lists@ = Seq::new(16, |l: int| Seq::<int>::empty());
            assert(self@ =~= Seq::<EntryView>::empty());
        }
    }

    /// An iterator over the entries in list order.
    pub fn iter(&self) -> (it: MemtableIterator<'_>)
        requires
            self.wf(),
        ensures
            it.valid(),
            it.items() == self@,
            it.position() == 0,
    {
        proof {
            assert(level_ok(self.entries.len() as int, self.links@, self.lists@[0], 0));
        }
        MemtableIterator { table: self, current: self.links[self.head * MAX_LEVEL], pos: Ghost(0) }
    }

    pub fn len(&self) -> (r: usize)
        requires
            self.wf(),
        ensures
            r == self@.len(),
    {
        self.len
    }

    pub fn is_empty(&self) -> (r: bool)
        requires
            self.wf(),
        ensures
            r == (self@.len() == 0),
    {
        self.len == 0
    }

    /// The memory charged for all entries held.
    pub fn size_bytes(&self) -> (r: usize)
        requires
            self.wf(),
        ensures
            r == total_size(self@),
    {
        self.size_bytes
    }

    /// Whether `put` can take an entry with these key and value lengths:
    /// the node count and the charged size stay within the machine's
    /// limits.
    pub fn has_room(&self, key_len: usize, value_len: usize) -> (r: bool)
        requires
            self.wf(),
        ensures
            r == (self@.len() + 2 < usize::MAX / 16 && total_size(self@) + key_len + value_len + 8
                <= usize::MAX),
    {
        self.len < usize::MAX / 16 - 2 && key_len <= usize::MAX - self.size_bytes && value_len
            <= usize::MAX - self.size_bytes - key_len && 8 <= usize::MAX - self.size_bytes - key_len
            - value_len
    }
}

/// Walks the entries of a memtable in list order.
pub struct MemtableIterator<'a> {
    table: &'a Memtable,
    current: usize,
    pos: Ghost<int>,
}

impl<'a> MemtableIterator<'a> {
    pub closed spec fn valid(&self) -> bool {
        &&& self.table.wf()
        &&& 0 <= self.pos@ <= self.table@.len()
        &&& self.current == succ_of(self.table.lists@[0], self.pos@ - 1)
    }

    /// The entries the iterator walks, all of them.
    pub closed spec fn items(&self) -> Seq<EntryView> {
        self.table@
    }

    /// How many entries have been handed out.
    pub closed spec fn position(&self) -> int {
        self.pos@
    }

    /// The next entry, or `None` once all have been handed out.
    pub fn next(&mut self) -> (r: Option<&'a Entry>)
        requires
            old(self).valid(),
        ensures
            final(self).valid(),
            final(self).items() == old(self).items(),
            match r {
                Some(e) => {
                    &&& old(self).position() < old(self).items().len()
                    &&& e@ == old(self).items()[old(self).position()]
                    &&& final(self).position() == old(self).position() + 1
                },
                None => {
                    &&& old(self).position() == old(self).items().len()
                    &&& final(self).position() == old(self).position()
                },
            },
    {
        let table = self.table;
        proof {
            table.lemma_view();
            assert(level_ok(table.entries.len() as int, table.links@, table.lists@[0], 0));
        }
        if self.current == NIL {
            return None;
        }
        let idx = self.current;
        self.current = table.links[idx * MAX_LEVEL];
        self.pos = Ghost(self.pos@ + 1);
        Some(&table.entries[idx])
    }
}



/// A write read back: once `e` is put into a memtable whose versions of
/// `e.key` are all older than `e`, a lookup of `e.key` gives `e`.
pub proof fn lemma_put_then_get(s: Seq<EntryView>, e: EntryView)
    requires
        sorted_by_key(s),
        forall|i: int| 0 <= i < s.len() && #[trigger] s[i].key == e.key ==> s[i].sequence < e.sequence,
    ensures
        newest_version(s.insert(insert_pos(s, e), e), e.key) == Some(e),
{
    lemma_search_pos_lower(s, e.key, Some(e.sequence));
    let p = lower_bound(s, e.key);
    lemma_lower_bound(s, e.key);
    let t = s.insert(p, e);
    assert forall|j: int| 0 <= j < t.len() && #[trigger] t[j].key == e.key implies t[j].sequence
        <= t[p].sequence by {
        if j > p {
            assert(t[j] == s[j - 1]);
        } else if j < p {
            assert(t[j] == s[j]);
        }
    }
    assert forall|j: int| 0 <= j < p && #[trigger] t[j].key == e.key implies t[j].sequence
        < t[p].sequence by {
        assert(t[j] == s[j]);
        assert(lex_lt(s[j].key, e.key));
        lemma_lex_order(e.key, e.key, e.key);
    }
    assert(is_newest_at(t, e.key, p));
    lemma_newest_version_at(t, e.key, p);
}

/// A write leaves the other keys alone: after `e` is put, a lookup of any
/// other key gives what it gave before.
pub proof fn lemma_put_keeps_other_keys(s: Seq<EntryView>, e: EntryView, k: Seq<u8>)
    requires
        k != e.key,
    ensures
        newest_version(s.insert(insert_pos(s, e), e), k) == newest_version(s, k),
{
    let p = insert_pos(s, e);
    lemma_search_pos(s, e.key, Some(e.sequence));
    let t = s.insert(p, e);
    if exists|i: int| is_newest_at(s, k, i) {
        let i = choose|i: int| is_newest_at(s, k, i);
        let i2 = if i < p {
            i
        } else {
            i + 1
        };
        assert(t[i2] == s[i]);
        assert forall|j: int| 0 <= j < t.len() && #[trigger] t[j].key == k implies t[j].sequence
            <= t[i2].sequence by {
            if j > p {
                assert(t[j] == s[j - 1]);
            } else if j < p {
                assert(t[j] == s[j]);
            }
        }
        assert forall|j: int| 0 <= j < i2 && #[trigger] t[j].key == k implies t[j].sequence
            < t[i2].sequence by {
            if j > p {
                assert(t[j] == s[j - 1]);
            } else if j < p {
                assert(t[j] == s[j]);
            }
        }
        assert(is_newest_at(t, k, i2));
        lemma_newest_version_at(t, k, i2);
        lemma_newest_version_at(s, k, i);
    } else {
        if exists|i: int| is_newest_at(t, k, i) {
            let i2 = choose|i: int| is_newest_at(t, k, i);
            assert(i2 != p);
            let i = if i2 < p {
                i2
            } else {
                i2 - 1
            };
            assert(s[i] == t[i2]);
            assert forall|j: int| 0 <= j < s.len() && #[trigger] s[j].key == k implies s[j].sequence
                <= s[i].sequence by {
                if j >= p {
                    assert(s[j] == t[j + 1]);
                } else {
                    assert(s[j] == t[j]);
                }
            }
            assert forall|j: int| 0 <= j < i && #[trigger] s[j].key == k implies s[j].sequence
                < s[i].sequence by {
                if j >= p {
                    assert(s[j] == t[j + 1]);
                } else {
                    assert(s[j] == t[j]);
                }
            }
            assert(is_newest_at(s, k, i));
        }
    }
}

/// Writes keep a memtable in key order, with the versions of each key from
/// the newest down.
pub proof fn lemma_put_keeps_order(s: Seq<EntryView>, e: EntryView)
    requires
        memtable_ordered(s),
    ensures
        memtable_ordered(s.insert(insert_pos(s, e), e)),
{
    lemma_ordered_insert(s, e);
}

} // verus!
