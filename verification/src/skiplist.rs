use vstd::prelude::*;

use crate::key::SkipKey;
use crate::levels::{
    key_map, keys_distinct, lemma_descend, lemma_found, lemma_key_map_absent, lemma_key_map_entry,
    lemma_key_map_push, lemma_key_map_update, lemma_link, lemma_step, Tower,
};
use crate::Min;

verus! {

/// Whether two successor slots hold the same link.
fn same_link(a: Option<usize>, b: Option<usize>) -> (r: bool)
    ensures
        r == (a == b),
{
    match (a, b) {
        (Some(x), Some(y)) => x == y,
        (None, None) => true,
        _ => false,
    }
}

/// `level` is where the climb of [`Skiplist`]'s level draw stops on `draws`: every draw below
/// it is `true`, and the climb ends on the first `false` or at the top level `max_level - 1`,
/// with no further draw.
pub open spec fn climbs_to(draws: Seq<bool>, max_level: int, level: int) -> bool {
    &&& 0 <= level < max_level
    &&& forall|j: int| 0 <= j < level ==> #[trigger] draws[j]
    &&& if level == max_level - 1 {
        draws.len() == level
    } else {
        draws.len() == level + 1 && !draws[level]
    }
}

/// One step of the level draw of [`Skiplist`]: a drawn `true` climbs from `level` to the next
/// level unless `level` is the top one, and a drawn `false` stays.
pub fn next_level(level: usize, max_level: usize, coin: bool) -> (r: usize)
    requires
        level < max_level,
    ensures
        r == (if coin && level + 1 < max_level {
            level + 1
        } else {
            level as int
        }),
{
    if coin && level < max_level - 1 {
        level + 1
    } else {
        level
    }
}

/// A node of [`Skiplist`], with a successor slot for each of the `N` levels.
struct Node<K, V, const N: usize> {
    key: K,
    value: Option<V>,
    level: usize,
    forward: Vec<Option<usize>>,
}

impl<K, V, const N: usize> Node<K, V, N> {
    /// A node standing on `level` levels, with all `N` successor slots empty.
    fn new(key: K, value: Option<V>, level: usize) -> (r: Self)
        ensures
            r.key == key,
            r.value == value,
            r.level == level,
            r.forward@ == Seq::new(N as nat, |i: int| None::<usize>),
    {
        let forward: Vec<Option<usize>> = vec![None; N];
        proof {
            assert forall|i: int| 0 <= i < N implies forward@[i] == None::<usize> by {
                assert(cloned(None::<usize>, forward@[i]));
            }
            assert(forward@ =~= Seq::new(N as nat, |i: int| None::<usize>));
        }
        Self { key, value, level, forward }
    }

    /// The successor slot of level `index`.
    fn forward_ref(&mut self, index: usize) -> (r: Option<&mut Option<usize>>)
        requires
            index < N,
            old(self).forward@.len() == N,
        ensures
            r is Some,
            *(r->0) == old(self).forward@[index as int],
            final(self).forward@ == old(self).forward@.update(index as int, *final(r->0)),
            final(self).key == old(self).key,
            final(self).value == old(self).value,
            final(self).level == old(self).level,
    {
        Some(&mut self.forward[index])
    }
}

/// An ordered map from keys to values, kept as a skiplist of `N` levels.
///
/// The nodes live in an arena; node 0 is the head, which holds no value.
pub struct Skiplist<K, V, const N: usize> {
    cur_level: usize,
    max_level: usize,
    nodes: Vec<Node<K, V, N>>,
}

impl<K: SkipKey, V, const N: usize> Skiplist<K, V, N> {
    /// The level structure of the arena.
    pub closed spec fn tower(&self) -> Tower {
        Tower {
            ranks: Seq::new(self.nodes@.len(), |m: int| self.nodes@[m].key.rank()),
            heights: Seq::new(self.nodes@.len(), |m: int| self.nodes@[m].level as nat),
            links: Seq::new(self.nodes@.len(), |m: int| self.nodes@[m].forward@),
        }
    }

    /// Every level is sorted and complete, every node has `N` slots and stands on at most
    /// `cur_level + 1` levels, and every node but the head holds a value.
    pub closed spec fn wf(&self) -> bool {
        &&& self.tower().wf()
        &&& self.max_level == N
        &&& (self.cur_level == 0 || self.cur_level < N)
        &&& self.nodes@[0].level == N
        &&& self.nodes@[0].value is None
        &&& forall|m: int| 0 <= m < self.nodes@.len() ==> #[trigger] self.nodes@[m].forward@.len() == N
        &&& forall|m: int|
            1 <= m < self.nodes@.len() ==> #[trigger] self.nodes@[m].level <= self.cur_level + 1
                && self.nodes@[m].level <= N
        &&& forall|m: int| 1 <= m < self.nodes@.len() ==> #[trigger] self.nodes@[m].value is Some
        &&& self.nodes@.len() == 1 ==> self.cur_level == 0
        &&& self.nodes@.len() > 1 ==> exists|m: int|
            1 <= m < self.nodes@.len() && #[trigger] self.nodes@[m].level == self.cur_level + 1
    }

    /// The keys of the nodes, the head's first.
    pub closed spec fn keys(&self) -> Seq<K> {
        Seq::new(self.nodes@.len(), |m: int| self.nodes@[m].key)
    }

    /// The values of the nodes, the head's first.
    pub closed spec fn vals(&self) -> Seq<Option<V>> {
        Seq::new(self.nodes@.len(), |m: int| self.nodes@[m].value)
    }

    /// The map that the skiplist holds: each node but the head maps its key to its value.
    pub closed spec fn view(&self) -> Map<K, V> {
        key_map(self.keys(), self.vals())
    }

    pub closed spec fn spec_cur_level(&self) -> usize {
        self.cur_level
    }

    pub closed spec fn spec_max_level(&self) -> usize {
        self.max_level
    }

    /// The key that the head carries.
    pub closed spec fn spec_head_key(&self) -> K {
        self.nodes@[0].key
    }

    /// The highest level that the node of key `k` stands on.
    pub closed spec fn key_level(&self, k: K) -> int {
        self.nodes@[choose|m: int| 1 <= m < self.nodes@.len() && #[trigger] self.nodes@[m].key == k].level - 1
    }

    /// The key of the node at arena index `m`.
    pub closed spec fn key_at(&self, m: int) -> K {
        self.nodes@[m].key
    }

    /// The value of the node at arena index `m`.
    pub closed spec fn value_at(&self, m: int) -> V {
        self.nodes@[m].value->0
    }

    /// The arena indices of the first node of each level below `n` that has one, bottom up.
    pub closed spec fn firsts(&self, n: int) -> Seq<int>
        decreases n,
    {
        if n <= 0 {
            Seq::empty()
        } else {
            let rest = self.firsts(n - 1);
            match self.nodes@[0].forward@[n - 1] {
                Some(b) => rest.push(b as int),
                None => rest,
            }
        }
    }

    proof fn lemma_keys_distinct(&self)
        requires
            self.tower().wf(),
        ensures
            keys_distinct(self.keys()),
    {
        assert forall|m1: int, m2: int|
            1 <= m1 < self.keys().len() && 1 <= m2 < self.keys().len() && m1 != m2 implies #[trigger] self.keys()[m1]
            != #[trigger] self.keys()[m2] by {
            assert(self.tower().ranks[m1] != self.tower().ranks[m2]);
        }
    }

    proof fn lemma_entry(&self, m: int)
        requires
            self.wf(),
            1 <= m < self.nodes@.len(),
        ensures
            self@.contains_key(self.nodes@[m].key),
            self@[self.nodes@[m].key] == self.nodes@[m].value->0,
    {
        self.lemma_keys_distinct();
        lemma_key_map_entry(self.keys(), self.vals(), m);
    }

    /// Giving node `b` the value `value` maps its key `key` to `value`.
    proof fn lemma_replaced(&self, prior: Self, key: K, value: V, b: int)
        requires
            prior.wf(),
            self.nodes@.len() == prior.nodes@.len(),
            1 <= b < self.nodes@.len(),
            forall|m: int| 0 <= m < self.nodes@.len() ==> #[trigger] self.nodes@[m].key == prior.nodes@[m].key,
            forall|m: int|
                0 <= m < self.nodes@.len() && m != b ==> #[trigger] self.nodes@[m].value == prior.nodes@[m].value,
            self.nodes@[b].key == key,
            self.nodes@[b].value == Some(value),
        ensures
            self@ == prior@.insert(key, value),
    {
        prior.lemma_keys_distinct();
        assert(self.keys() =~= prior.keys());
        assert(self.vals() =~= prior.vals().update(b, Some(value)));
        lemma_key_map_update(prior.keys(), prior.vals(), b, value);
    }

    /// Appending a node with key `key` and value `value` maps `key` to `value`.
    proof fn lemma_appended(&self, prior: Self, key: K, value: V)
        requires
            prior.wf(),
            self.wf(),
            self.nodes@.len() == prior.nodes@.len() + 1,
            forall|m: int| 0 <= m < prior.nodes@.len() ==> #[trigger] self.nodes@[m].key == prior.nodes@[m].key,
            forall|m: int|
                0 <= m < prior.nodes@.len() ==> #[trigger] self.nodes@[m].value == prior.nodes@[m].value,
            self.nodes@[prior.nodes@.len() as int].key == key,
            self.nodes@[prior.nodes@.len() as int].value == Some(value),
        ensures
            self@ == prior@.insert(key, value),
    {
        let n = prior.nodes@.len() as int;
        prior.lemma_keys_distinct();
        self.lemma_keys_distinct();
        assert(self.keys() =~= prior.keys().push(key));
        assert(self.vals() =~= prior.vals().push(Some(value)));
        assert forall|m: int| 1 <= m < prior.keys().len() implies #[trigger] prior.keys()[m] != key by {
            assert(self.keys()[m] != self.keys()[n]);
        }
        lemma_key_map_push(prior.keys(), prior.vals(), key, value);
    }

    proof fn lemma_key_level(&self, m: int)
        requires
            self.wf(),
            1 <= m < self.nodes@.len(),
        ensures
            self.key_level(self.nodes@[m].key) == self.nodes@[m].level - 1,
    {
        let k = self.nodes@[m].key;
        assert(self.nodes@[m].key == k);
        let c = choose|c: int| 1 <= c < self.nodes@.len() && #[trigger] self.nodes@[c].key == k;
        self.lemma_keys_distinct();
        assert(self.keys()[c] == self.keys()[m]);
    }

    proof fn lemma_absent(&self, k: K)
        requires
            self.wf(),
            !self.tower().holds_rank(k.rank()),
        ensures
            !self@.contains_key(k),
    {
        assert forall|m: int| 1 <= m < self.keys().len() implies #[trigger] self.keys()[m] != k by {
            assert(self.tower().ranks[m] == self.keys()[m].rank());
        }
        lemma_key_map_absent(self.keys(), self.vals(), k);
    }

    proof fn lemma_same_rank(&self, m: int, k: K)
        requires
            self.wf(),
            1 <= m < self.nodes@.len(),
            self.nodes@[m].key.rank() == k.rank(),
        ensures
            self.nodes@[m].key == k,
            self@.contains_key(k),
            self@[k] == self.nodes@[m].value->0,
    {
        K::lemma_rank_injective(self.nodes@[m].key, k);
        self.lemma_entry(m);
    }

    proof fn lemma_firsts(&self, n: int)
        requires
            self.wf(),
            0 <= n <= N,
        ensures
            forall|j: int|
                0 <= j < self.firsts(n).len() ==> 1 <= #[trigger] self.firsts(n)[j] < self.nodes@.len(),
        decreases n,
    {
        if n > 0 {
            self.lemma_firsts(n - 1);
            let t = self.tower();
            assert(t.links[0] == self.nodes@[0].forward@);
            assert(t.succ_ok(0, n - 1));
            let rest = self.firsts(n - 1);
            match self.nodes@[0].forward@[n - 1] {
                Some(b) => {
                    assert(self.firsts(n) == rest.push(b as int));
                    assert(t.on_level(b as int, n - 1));
                    assert forall|j: int| 0 <= j < self.firsts(n).len() implies 1 <= #[trigger] self.firsts(n)[j] < self.nodes@.len() by {
                        if j < rest.len() {
                            assert(self.firsts(n)[j] == rest[j]);
                        }
                    }
                },
                None => {
                    assert(self.firsts(n) == rest);
                },
            }
        }
    }

    /// An empty skiplist.
    pub fn new() -> (r: Self)
        where
            K: Min<K>,
        ensures
            r.wf(),
            r@ == Map::<K, V>::empty(),
            r.spec_cur_level() == 0,
            r.spec_max_level() == N,
            r.spec_head_key() == K::least(),
    {
        let head = Node::<K, V, N>::new(<K as Min<K>>::min(), None, N);
        let mut nodes: Vec<Node<K, V, N>> = Vec::new();
        nodes.push(head);
        let r = Self { cur_level: 0, max_level: N, nodes };
        proof {
            let t = r.tower();
            assert(t.links[0] == r.nodes@[0].forward@);
            assert forall|a: int, i: int| 0 <= a < t.len() && 0 <= i < t.heights[a] implies #[trigger] t.succ_ok(a, i) by {
                assert(t.links[0][i] == None::<usize>);
            }
            assert(r@ =~= Map::<K, V>::empty());
            assert(t.wf());
            assert(r.nodes@[0].forward@.len() == N);
        }
        r
    }

    /// The number of levels.
    pub fn max_level(&self) -> (r: usize)
        ensures
            r == self.spec_max_level(),
    {
        self.max_level
    }

    /// The highest level that holds a node, or 0.
    pub fn cur_level(&self) -> (r: usize)
        ensures
            r == self.spec_cur_level(),
    {
        self.cur_level
    }

    /// The key that the head carries.
    pub fn head_key(&self) -> (r: &K)
        requires
            self.wf(),
        ensures
            *r == self.spec_head_key(),
    {
        &self.nodes[0].key
    }

    /// The value that the head carries, which is always `None`.
    pub fn head_value(&self) -> (r: Option<&V>)
        requires
            self.wf(),
        ensures
            r is None,
    {
        self.nodes[0].value.as_ref()
    }

    /// There is a first node on at most one level per level; with no nodes there is none, and
    /// otherwise level 0 has one, which comes first and holds the least key.
    proof fn lemma_firsts_shape(&self, n: int)
        requires
            self.wf(),
            0 <= n <= N,
        ensures
            self.firsts(n).len() <= n,
            self.nodes@.len() == 1 ==> self.firsts(n).len() == 0,
            self.nodes@.len() > 1 && n >= 1 ==> {
                &&& self.firsts(n).len() >= 1
                &&& self.nodes@[0].forward@[0] is Some
                &&& self.firsts(n)[0] == self.nodes@[0].forward@[0]->0 as int
            },
        decreases n,
    {
        if n > 0 {
            self.lemma_firsts_shape(n - 1);
            let t = self.tower();
            assert(t.links[0] == self.nodes@[0].forward@);
            assert(t.succ_ok(0, n - 1));
            if self.nodes@.len() > 1 {
                assert(t.succ_ok(0, 0));
                assert(t.on_level(1, 0));
                assert(t.after(0, 1));
            }
            let rest = self.firsts(n - 1);
            match self.nodes@[0].forward@[n - 1] {
                Some(b) => {
                    assert(self.firsts(n) == rest.push(b as int));
                    assert(t.on_level(b as int, n - 1));
                    if n > 1 && self.nodes@.len() > 1 {
                        assert(self.firsts(n)[0] == rest[0]);
                    }
                },
                None => {
                    assert(self.firsts(n) == rest);
                },
            }
        }
    }

    /// The head's links are set on a run of levels from the bottom: the first nodes below level
    /// `n` are those of levels `0 .. firsts(n).len()`, in order.
    proof fn lemma_firsts_prefix(&self, n: int)
        requires
            self.wf(),
            0 <= n <= N,
        ensures
            self.firsts(n).len() <= n,
            forall|j: int|
                0 <= j < self.firsts(n).len() ==> self.nodes@[0].forward@[j] is Some
                    && #[trigger] self.firsts(n)[j] == self.nodes@[0].forward@[j]->0 as int,
            forall|i: int|
                0 <= i < n ==> (#[trigger] self.nodes@[0].forward@[i] is Some <==> i < self.firsts(
                    n,
                ).len()),
        decreases n,
    {
        if n > 0 {
            self.lemma_firsts_prefix(n - 1);
            let t = self.tower();
            assert(t.links[0] == self.nodes@[0].forward@);
            let rest = self.firsts(n - 1);
            match self.nodes@[0].forward@[n - 1] {
                Some(b) => {
                    assert(self.firsts(n) == rest.push(b as int));
                    assert(t.succ_ok(0, n - 1));
                    assert forall|i: int| 0 <= i < n - 1 implies #[trigger] self.nodes@[0].forward@[i] is Some by {
                        assert(t.succ_ok(0, i));
                        assert(t.on_level(b as int, i));
                        assert(t.after(0, b as int));
                    }
                    assert(rest.len() == n - 1);
                },
                None => {
                    assert(self.firsts(n) == rest);
                },
            }
        }
    }

    /// `keys` holds, bottom up, the least key of each level that holds a node, and the levels
    /// that hold a node are exactly those below `keys.len()`.
    pub open spec fn level_firsts(&self, keys: Seq<K>) -> bool {
        &&& forall|k: K| #[trigger] self@.contains_key(k) ==> self.key_level(k) < keys.len()
        &&& forall|j: int|
            0 <= j < keys.len() ==> self@.contains_key(#[trigger] keys[j]) && self.key_level(keys[j]) >= j
        &&& forall|j: int, k: K|
            0 <= j < keys.len() && #[trigger] self@.contains_key(k) && self.key_level(k) >= j
                ==> (#[trigger] keys[j]).rank() <= k.rank()
    }

    /// The keys of the first nodes of the levels, bottom up, are the least keys of the levels
    /// that hold a node.
    proof fn lemma_firsts_entries(&self, keys: Seq<K>)
        requires
            self.wf(),
            keys.len() == self.firsts(N as int).len(),
            forall|j: int| 0 <= j < keys.len() ==> #[trigger] keys[j] == self.nodes@[self.firsts(N as int)[j]].key,
        ensures
            self.level_firsts(keys),
    {
        self.lemma_firsts_prefix(N as int);
        self.lemma_firsts(N as int);
        let t = self.tower();
        assert(t.links[0] == self.nodes@[0].forward@);
        assert forall|j: int| 0 <= j < keys.len() implies self@.contains_key(#[trigger] keys[j]) && self.key_level(keys[j]) >= j by {
            let b = self.firsts(N as int)[j];
            assert(t.succ_ok(0, j));
            assert(t.on_level(b, j));
            self.lemma_entry(b);
            self.lemma_key_level(b);
        }
        assert forall|j: int, k: K|
            0 <= j < keys.len() && #[trigger] self@.contains_key(k) && self.key_level(k) >= j implies (#[trigger] keys[j]).rank() <= k.rank() by {
            let b = self.firsts(N as int)[j];
            let m = choose|m: int| 1 <= m < self.keys().len() && #[trigger] self.keys()[m] == k;
            self.lemma_key_level(m);
            assert(self.nodes@[m].key == k);
            assert(t.succ_ok(0, j));
            assert(t.on_level(m, j));
            assert(t.after(0, m));
        }
        assert forall|k: K| #[trigger] self@.contains_key(k) implies self.key_level(k) < keys.len() by {
            let m = choose|m: int| 1 <= m < self.keys().len() && #[trigger] self.keys()[m] == k;
            assert(self.nodes@[m].key == k);
            self.lemma_key_level(m);
            assert(self.nodes@[m].level <= N);
            let i = self.key_level(k);
            assert(t.heights[m] >= 1);
            assert(t.heights[m] == self.nodes@[m].level);
            assert(0 <= i < N);
            assert(t.succ_ok(0, i));
            assert(t.on_level(m, i));
            assert(t.after(0, m));
            assert(self.nodes@[0].forward@[i] is Some);
        }
    }

    /// At most one sequence lists the least keys of the levels that hold a node.
    pub proof fn law_level_firsts_unique(&self, a: Seq<K>, b: Seq<K>)
        requires
            self.wf(),
            self.level_firsts(a),
            self.level_firsts(b),
        ensures
            a == b,
    {
        if a.len() < b.len() {
            let j = a.len() as int;
            assert(self@.contains_key(b[j]) && self.key_level(b[j]) >= j);
            assert(false);
        }
        if b.len() < a.len() {
            let j = b.len() as int;
            assert(self@.contains_key(a[j]) && self.key_level(a[j]) >= j);
            assert(false);
        }
        assert forall|j: int| 0 <= j < a.len() implies a[j] == b[j] by {
            assert(self@.contains_key(a[j]) && self.key_level(a[j]) >= j);
            assert(self@.contains_key(b[j]) && self.key_level(b[j]) >= j);
            assert(a[j].rank() <= b[j].rank());
            assert(b[j].rank() <= a[j].rank());
            K::lemma_rank_injective(a[j], b[j]);
        }
        assert(a =~= b);
    }

    /// The levels that hold a node are the levels `0 ..= cur_level()`, or none when the
    /// skiplist is empty.
    pub proof fn law_level_firsts_count(&self, a: Seq<K>)
        requires
            self.wf(),
            self.level_firsts(a),
        ensures
            a.len() == (if exists|k: K| #[trigger] self@.contains_key(k) {
                self.spec_cur_level() + 1
            } else {
                0
            }),
    {
        if exists|k: K| #[trigger] self@.contains_key(k) {
            assert(self.nodes@.len() > 1) by {
                let k = choose|k: K| #[trigger] self@.contains_key(k);
                let m = choose|m: int| 1 <= m < self.keys().len() && #[trigger] self.keys()[m] == k;
            }
            let w = choose|m: int|
                1 <= m < self.nodes@.len() && #[trigger] self.nodes@[m].level == self.cur_level + 1;
            self.lemma_entry(w);
            self.lemma_key_level(w);
            assert(self.key_level(self.nodes@[w].key) < a.len());
            if a.len() > self.cur_level + 1 {
                let j = self.cur_level + 1;
                let k = a[j as int];
                assert(self@.contains_key(k) && self.key_level(k) >= j);
                let m = choose|m: int| 1 <= m < self.keys().len() && #[trigger] self.keys()[m] == k;
                assert(self.nodes@[m].key == k);
                self.lemma_key_level(m);
                assert(false);
            }
        } else {
            if a.len() > 0 {
                assert(self@.contains_key(a[0]));
            }
        }
    }

    /// For each level, bottom up, the key and value of its first node, if it has one.
    pub fn head_entries(&self) -> (r: Vec<(&K, Option<&V>)>)
        requires
            self.wf(),
        ensures
            r@.len() == self.firsts(N as int).len(),
            self.level_firsts(r@.map_values(|e: (&K, Option<&V>)| *e.0)),
            r@.len() <= N,
            r@.len() > 0 <==> exists|k: K| self@.contains_key(k),
            r@.len() > 0 ==> forall|k: K| #[trigger] self@.contains_key(k) ==> r@[0].0.rank() <= k.rank(),
            forall|j: int|
                0 <= j < r@.len() ==> {
                    let b = self.firsts(N as int)[j];
                    &&& *(#[trigger] r@[j]).0 == self.key_at(b)
                    &&& r@[j].1 is Some
                    &&& *(r@[j].1->0) == self.value_at(b)
                    &&& self@.contains_key(*r@[j].0)
                    &&& self@[*r@[j].0] == *(r@[j].1->0)
                },
    {
        let mut out: Vec<(&K, Option<&V>)> = Vec::new();
        let mut i: usize = 0;
        while i < N
            invariant
                self.wf(),
                0 <= i <= N,
                out@.len() == self.firsts(i as int).len(),
                forall|j: int|
                    0 <= j < out@.len() ==> {
                        let b = self.firsts(i as int)[j];
                        &&& *(#[trigger] out@[j]).0 == self.nodes@[b].key
                        &&& out@[j].1 is Some
                        &&& *(out@[j].1->0) == self.nodes@[b].value->0
                        &&& self@.contains_key(*out@[j].0)
                        &&& self@[*out@[j].0] == *(out@[j].1->0)
                    },
            decreases N - i,
        {
            proof {
                self.lemma_firsts((i + 1) as int);
                self.lemma_firsts(i as int);
                assert(self.firsts((i + 1) as int).len() >= self.firsts(i as int).len());
            }
            match self.nodes[0].forward[i] {
                Some(b) => {
                    proof {
                        let f = self.firsts((i + 1) as int);
                        assert(f[f.len() - 1] == b as int);
                        self.lemma_entry(b as int);
                    }
                    out.push((&self.nodes[b].key, self.nodes[b].value.as_ref()));
                },
                None => {},
            }
            i = i + 1;
        }
        proof {
            self.lemma_firsts_entries(out@.map_values(|e: (&K, Option<&V>)| *e.0));
            self.lemma_firsts_shape(N as int);
            if self.nodes@.len() > 1 {
                assert(self.nodes@[1].level <= N);
                assert(self.tower().heights[1] >= 1);
                self.lemma_entry(1);
                assert(self@.contains_key(self.nodes@[1].key));
                if N >= 1 {
                    let t = self.tower();
                    let b = self.firsts(N as int)[0];
                    assert(t.links[0] == self.nodes@[0].forward@);
                    assert(t.succ_ok(0, 0));
                    assert forall|k: K| #[trigger] self@.contains_key(k) implies out@[0].0.rank() <= k.rank() by {
                        let m = choose|m: int| 1 <= m < self.nodes@.len() && #[trigger] self.nodes@[m].key == k;
                        assert(t.on_level(m, 0));
                        assert(t.after(0, m));
                    }
                }
            } else {
                assert forall|k: K| !self@.contains_key(k) by {
                    if self@.contains_key(k) {
                        let m = choose|m: int| 1 <= m < self.nodes@.len() && #[trigger] self.nodes@[m].key == k;
                    }
                }
            }
        }
        out
    }

    /// Walks level `i` from `curr` to the last node before `key`.
    fn walk(&self, curr: usize, i: usize, key: &K) -> (c: usize)
        requires
            self.wf(),
            self.tower().before(curr as int, i as int, key.rank()),
        ensures
            self.tower().before(c as int, i as int, key.rank()),
            self.tower().gap(c as int, i as int, key.rank()),
    {
        let ghost r = key.rank();
        let mut curr = curr;
        loop
            invariant
                self.wf(),
                r == key.rank(),
                self.tower().before(curr as int, i as int, r),
            ensures
                self.tower().before(curr as int, i as int, r),
                self.tower().gap(curr as int, i as int, r),
            decreases (if curr == 0 {
                1int
            } else {
                0int
            }),
                r - self.nodes@[curr as int].key.rank(),
        {
            proof {
                lemma_step(self.tower(), curr as int, i as int, r);
            }
            match self.nodes[curr].forward[i] {
                None => break,
                Some(next) => {
                    if self.nodes[next].key.precedes(key) {
                        curr = next;
                    } else {
                        break;
                    }
                },
            }
        }
        curr
    }

    /// Maps `key` to `value`, replacing the value that `key` had.
    #[verifier::loop_isolation(false)]
    pub fn insert(&mut self, key: K, value: V)
        where
            V: Clone,
        requires
            old(self).wf(),
            N > 0,
        ensures
            final(self).wf(),
            final(self)@ == old(self)@.insert(key, value),
            final(self).spec_max_level() == old(self).spec_max_level(),
            final(self).spec_cur_level() >= old(self).spec_cur_level(),
            final(self).spec_cur_level() < N,
            old(self)@.contains_key(key) ==> final(self).spec_cur_level() == old(self).spec_cur_level(),
            !old(self)@.contains_key(key) ==> {
                &&& 0 <= final(self).key_level(key) < N
                &&& final(self).spec_cur_level() == (if final(self).key_level(key) > old(
                    self,
                ).spec_cur_level() {
                    final(self).key_level(key)
                } else {
                    old(self).spec_cur_level() as int
                })
            },
    {
        let ghost r = key.rank();
        let head_ptr: usize = 0;
        let mut curr_ptr = head_ptr;
        let mut update: Vec<Option<usize>> = vec![None; N];
        let current_height = self.cur_level;
        let mut i = current_height + 1;
        while i > 0
            invariant
                self.wf(),
                N > 0,
                r == key.rank(),
                current_height == self.cur_level,
                i <= current_height + 1,
                update@.len() == N,
                i < N ==> self.tower().before(curr_ptr as int, i as int, r),
                i == N ==> curr_ptr == 0,
                i <= current_height ==> update@[i as int] == Some(curr_ptr),
                forall|j: int|
                    i <= j <= current_height ==> #[trigger] update@[j] is Some && self.tower().before(
                        update@[j]->0 as int,
                        j,
                        r,
                    ) && self.tower().gap(update@[j]->0 as int, j, r),
            decreases i,
        {
            if i < N {
                proof {
                    lemma_descend(self.tower(), curr_ptr as int, i as int, r);
                }
            }
            i = i - 1;
            curr_ptr = self.walk(curr_ptr, i, &key);
            update.set(i, Some(curr_ptr));
        }
        proof {
            lemma_step(self.tower(), curr_ptr as int, 0, r);
            lemma_found(self.tower(), curr_ptr as int, r);
        }
        if let Some(next_ptr) = self.nodes[curr_ptr].forward[0] {
            if self.nodes[next_ptr].key.same_key(&key) {
                proof {
                    self.lemma_same_rank(next_ptr as int, key);
                }
                self.nodes[next_ptr].value = Some(value);
                proof {
                    assert(self.tower() =~= old(self).tower());
                    let w = choose|m: int|
                        1 <= m < old(self).nodes@.len() && #[trigger] old(self).nodes@[m].level
                            == old(self).cur_level + 1;
                    assert(self.nodes@[w].level == self.cur_level + 1);
                    self.lemma_replaced(*old(self), key, value, next_ptr as int);
                }
                return;
            }
        }
        proof {
            self.lemma_absent(key);
        }
        let lvl = Self::random_level(self.max_level).0;
        if lvl > current_height {
            let mut j = current_height + 1;
            while j <= lvl
                invariant
                    self.wf(),
                    r == key.rank(),
                    current_height == self.cur_level,
                    lvl < N,
                    current_height + 1 <= j <= lvl + 1,
                    update@.len() == N,
                    forall|jj: int|
                        0 <= jj < j ==> #[trigger] update@[jj] is Some && self.tower().before(
                            update@[jj]->0 as int,
                            jj,
                            r,
                        ) && self.tower().gap(update@[jj]->0 as int, jj, r),
                decreases lvl + 1 - j,
            {
                proof {
                    let t = self.tower();
                    assert forall|m: int| #[trigger] t.on_level(m, j as int) && t.after(0, m) implies t.ranks[m] >= r by {
                        assert(self.nodes@[m].level <= self.cur_level + 1);
                    }
                }
                update.set(j, Some(head_ptr));
                j = j + 1;
            }
        }
        let mut cur = self.cur_level;
        while lvl > cur
            invariant
                cur == self.cur_level,
                self.nodes == old(self).nodes,
                self.max_level == old(self).max_level,
                self.cur_level == old(self).cur_level,
            decreases lvl - cur,
        {
            if self.cur_level == cur {
                self.cur_level = lvl;
                break;
            } else {
                cur = self.cur_level;
            }
        }
        let ghost new_cur = self.cur_level;
        assert(new_cur == (if lvl > old(self).cur_level {
            lvl
        } else {
            old(self).cur_level
        }));
        let ghost t0 = self.tower();
        let ghost old_nodes = self.nodes@;
        let ghost u = Seq::new((lvl + 1) as nat, |j: int| update@[j]->0);
        let idx = self.nodes.len();
        self.nodes.push(Node::new(key, Some(value), lvl + 1));
        let mut i = lvl + 1;
        while i > 0
            invariant
                r == key.rank(),
                lvl < N,
                idx == old_nodes.len(),
                self.nodes@.len() == idx + 1,
                update@.len() == N,
                i <= lvl + 1,
                u.len() == lvl + 1,
                forall|j: int| 0 <= j <= lvl ==> #[trigger] update@[j] == Some(u[j]),
                forall|j: int| 0 <= j <= lvl ==> t0.before(#[trigger] u[j] as int, j, r),
                forall|j: int| 0 <= j <= lvl ==> t0.gap(#[trigger] u[j] as int, j, r),
                t0.wf(),
                !t0.holds_rank(r),
                self.nodes@[idx as int].key == key,
                self.nodes@[idx as int].value == Some(value),
                self.nodes@[idx as int].level == lvl + 1,
                self.nodes@[idx as int].forward@.len() == N,
                forall|j: int|
                    0 <= j < N ==> #[trigger] self.nodes@[idx as int].forward@[j] == (if i <= j
                        <= lvl {
                        t0.links[u[j] as int][j]
                    } else {
                        None
                    }),
                forall|m: int|
                    0 <= m < idx ==> (#[trigger] self.nodes@[m]).key == old_nodes[m].key
                        && self.nodes@[m].value == old_nodes[m].value && self.nodes@[m].level
                        == old_nodes[m].level && self.nodes@[m].forward@.len() == N,
                forall|m: int, j: int|
                    0 <= m < idx && 0 <= j < N ==> #[trigger] self.nodes@[m].forward@[j] == (if i
                        <= j <= lvl && m == u[j] as int {
                        Some(idx)
                    } else {
                        old_nodes[m].forward@[j]
                    }),
                t0.links.len() == idx,
                t0.ranks.len() == idx,
                t0.heights.len() == idx,
                forall|m: int| 0 <= m < idx ==> #[trigger] t0.links[m] == old_nodes[m].forward@,
                forall|m: int| 0 <= m < idx ==> #[trigger] t0.heights[m] == old_nodes[m].level,
                forall|m: int| 0 <= m < idx ==> #[trigger] t0.ranks[m] == old_nodes[m].key.rank(),
                forall|m: int| 0 <= m < idx ==> #[trigger] old_nodes[m].forward@.len() == N,
                self.max_level == N,
                lvl <= self.cur_level < N,
                self.cur_level >= old(self).cur_level,
                self.cur_level == new_cur,
                old_nodes[0].level == N,
                old_nodes[0].value is None,
                forall|m: int|
                    1 <= m < idx ==> #[trigger] old_nodes[m].level <= self.cur_level + 1
                        && old_nodes[m].level <= N,
                forall|m: int| 1 <= m < idx ==> #[trigger] old_nodes[m].value is Some,
            decreases i,
        {
            let lv = i - 1;
            let mut prev_ptr = update[lv].unwrap();
            let ghost at_level = self.nodes@;
            proof {
                assert(t0.before(u[lv as int] as int, lv as int, r));
                assert(t0.gap(u[lv as int] as int, lv as int, r));
                lemma_step(t0, u[lv as int] as int, lv as int, r);
            }
            loop
                invariant
                    self.nodes@ == at_level,
                    prev_ptr == u[lv as int],
                    lv < i,
                    self.max_level == N,
                    lvl <= self.cur_level < N,
                    self.cur_level >= old(self).cur_level,
                    self.cur_level == new_cur,
                decreases 0nat,
            {
                let next = self.nodes[prev_ptr].forward[lv];
                if let Some(nx) = next {
                    if self.nodes[nx].key.precedes(&self.nodes[idx].key) {
                        prev_ptr = nx;
                        continue;
                    }
                    if self.nodes[nx].key.same_key(&self.nodes[idx].key) && lv == 0 {
                        let v = self.nodes[idx].value.clone();
                        self.nodes[nx].value = v;
                        return;
                    }
                }
                self.nodes[idx].forward.set(lv, next);
                if same_link(self.nodes[prev_ptr].forward[lv], next) {
                    self.nodes[prev_ptr].forward.set(lv, Some(idx));
                    break;
                }
            }
            i = lv;
        }
        proof {
            let t2 = self.tower();
            assert(t2.ranks =~= t0.ranks.push(r));
            assert(t2.heights =~= t0.heights.push((lvl + 1) as nat));
            lemma_link(t0, t2, u, (lvl + 1) as nat, r);
            if self.nodes@[idx as int].level != self.cur_level + 1 {
                let w = choose|m: int|
                    1 <= m < old(self).nodes@.len() && #[trigger] old(self).nodes@[m].level
                        == old(self).cur_level + 1;
                assert(self.nodes@[w].level == self.cur_level + 1);
            }
            assert(self.wf());
            self.lemma_appended(*old(self), key, value);
            self.lemma_key_level(idx as int);
        }
    }

    /// Looks `key` up, walking down from the current top level.
    pub fn get<'a>(&'a self, key: &K) -> (r: Option<&'a V>)
        requires
            self.wf(),
        ensures
            match r {
                Some(v) => self@.contains_key(*key) && *v == self@[*key],
                None => !self@.contains_key(*key),
            },
    {
        let ghost rk = key.rank();
        if N == 0 {
            proof {
                if self.nodes@.len() > 1 {
                    assert(self.nodes@[1].level <= N);
                    assert(self.tower().heights[1] >= 1);
                }
                self.lemma_absent(*key);
            }
            return None;
        }
        let mut curr: usize = 0;
        let mut i = self.cur_level + 1;
        while i > 0
            invariant
                self.wf(),
                N > 0,
                rk == key.rank(),
                i <= self.cur_level + 1,
                i < N ==> self.tower().before(curr as int, i as int, rk),
                i == N ==> curr == 0,
                i <= self.cur_level ==> self.tower().gap(curr as int, i as int, rk),
                i <= self.cur_level ==> (self.tower().links[curr as int][i as int] is Some
                    ==> self.tower().ranks[self.tower().links[curr as int][i as int]->0 as int]
                    != rk),
            decreases i,
        {
            if i < N {
                proof {
                    lemma_descend(self.tower(), curr as int, i as int, rk);
                }
            }
            i = i - 1;
            loop
                invariant
                    self.wf(),
                    rk == key.rank(),
                    i <= self.cur_level,
                    self.tower().before(curr as int, i as int, rk),
                ensures
                    self.tower().before(curr as int, i as int, rk),
                    self.tower().gap(curr as int, i as int, rk),
                    self.tower().links[curr as int][i as int] is Some
                        ==> self.tower().ranks[self.tower().links[curr as int][i as int]->0 as int]
                        != rk,
                decreases (if curr == 0 {
                    1int
                } else {
                    0int
                }),
                    rk - self.nodes@[curr as int].key.rank(),
            {
                proof {
                    lemma_step(self.tower(), curr as int, i as int, rk);
                }
                match self.nodes[curr].forward[i] {
                    None => break,
                    Some(next) => {
                        if self.nodes[next].key.precedes(key) {
                            curr = next;
                        } else if self.nodes[next].key.same_key(key) {
                            proof {
                                self.lemma_same_rank(next as int, *key);
                            }
                            return self.nodes[next].value.as_ref();
                        } else {
                            break;
                        }
                    },
                }
            }
        }
        proof {
            lemma_found(self.tower(), curr as int, rk);
            self.lemma_absent(*key);
        }
        None
    }

    /// A level from `0 .. max_level`: starting from 0, each drawn `true` climbs one level (see
    /// [`next_level`]) and the first `false`, or the top level, ends the climb. The draws, in
    /// order, come back beside the level.
    fn random_level(max_level: usize) -> (r: (usize, Ghost<Seq<bool>>))
        requires
            max_level > 0,
        ensures
            climbs_to(r.1@, max_level as int, r.0 as int),
    {
        let mut level: usize = 0;
        let ghost mut draws: Seq<bool> = Seq::empty();
        while level < max_level - 1
            invariant_except_break
                draws.len() == level,
            invariant
                level < max_level,
                forall|j: int| 0 <= j < level ==> #[trigger] draws[j],
            ensures
                climbs_to(draws, max_level as int, level as int),
            decreases max_level - level,
        {
            let coin = crate::random::random_ratio(1, 2);
            proof {
                draws = draws.push(coin);
            }
            let next = next_level(level, max_level, coin);
            if next == level {
                break;
            }
            level = next;
        }
        (level, Ghost(draws))
    }
}

} // verus!
