use vstd::prelude::*;

use crate::array::LockFreeArray;
use crate::key::SkipKey;
use crate::levels::{
    key_map, keys_distinct, lemma_descend, lemma_found, lemma_key_map_absent, lemma_key_map_entry,
    lemma_key_map_push, lemma_key_map_update, lemma_link, lemma_step, Tower,
};
use crate::Min;

verus! {

/// The successor that a slot of a forward array names, if any.
pub open spec fn link_of(slot: Option<Option<usize>>) -> Option<usize> {
    match slot {
        Some(Some(b)) => Some(b),
        _ => None,
    }
}

/// A node of [`SkipListNoLock`]: slot `i` of `forward` names its successor on level `i`.
#[derive(Debug)]
pub(crate) struct NodeNoLock<K, V, const N: usize> {
    pub(crate) key: K,
    pub(crate) value: Option<V>,
    pub(crate) height: usize,
    pub(crate) forward: LockFreeArray<Option<usize>, N>,
}

impl<K, V, const N: usize> NodeNoLock<K, V, N> {
    /// A node of the given height whose forward slots are all empty.
    pub(crate) fn new(key: K, value: Option<V>, height: usize) -> (r: Self)
        requires
            N < 0x1_0000_0000,
        ensures
            r.key == key,
            r.value == value,
            r.height == height,
            r.forward.wf(),
            r.forward@ == Seq::new(N as nat, |i: int| None::<Option<usize>>),
    {
        let lfa: LockFreeArray<Option<usize>, N> = LockFreeArray::new();
        Self { key, value, height, forward: lfa }
    }
}

/// An ordered map from keys to values, kept as a skiplist of `N` levels whose forward links
/// are held in [`LockFreeArray`]s.
///
/// The nodes live in an arena; node 0 is the head, which holds no value.
pub struct SkipListNoLock<K, V, const N: usize> {
    max_level: usize,
    cur_level: usize,
    nodes: Vec<NodeNoLock<K, V, N>>,
}

impl<K: SkipKey, V, const N: usize> SkipListNoLock<K, V, N> {
    /// The successor of node `m` on level `i`.
    pub closed spec fn link(&self, m: int, i: int) -> Option<usize> {
        link_of(self.nodes@[m].forward@[i])
    }

    pub closed spec fn rank_at(&self, m: int) -> int {
        self.nodes@[m].key.rank()
    }

    /// The level structure of the arena.
    pub closed spec fn tower(&self) -> Tower {
        Tower {
            ranks: Seq::new(self.nodes@.len(), |m: int| self.nodes@[m].key.rank()),
            heights: Seq::new(self.nodes@.len(), |m: int| self.nodes@[m].height as nat),
            links: Seq::new(
                self.nodes@.len(),
                |m: int| Seq::new(N as nat, |i: int| link_of(self.nodes@[m].forward@[i])),
            ),
        }
    }

    /// Every link points at a node that stands on its level and comes later in key order; no
    /// link lies above the current level.
    pub closed spec fn edge_ok(&self, a: int, i: int, b: int) -> bool {
        &&& 1 <= b < self.nodes@.len()
        &&& i < self.nodes@[b].height
        &&& i <= self.cur_level
        &&& (a == 0 || self.rank_at(a) < self.rank_at(b))
    }

    pub closed spec fn ranks_distinct(&self) -> bool {
        forall|m1: int, m2: int|
            1 <= m1 < self.nodes@.len() && 1 <= m2 < self.nodes@.len() && m1 != m2
                ==> #[trigger] self.rank_at(m1) != #[trigger] self.rank_at(m2)
    }

    pub closed spec fn wf(&self) -> bool {
        &&& 0 < N < 0x1_0000_0000
        &&& self.max_level == N
        &&& self.cur_level < N
        &&& self.nodes@.len() >= 1
        &&& self.nodes@[0].height == N
        &&& self.nodes@[0].value is None
        &&& forall|m: int| 0 <= m < self.nodes@.len() ==> (#[trigger] self.nodes@[m]).forward.wf()
        &&& forall|m: int|
            1 <= m < self.nodes@.len() ==> 1 <= (#[trigger] self.nodes@[m]).height <= N
                && self.nodes@[m].value is Some
        &&& forall|a: int, i: int|
            0 <= a < self.nodes@.len() && 0 <= i < N && #[trigger] self.link(a, i) is Some
                ==> self.edge_ok(a, i, self.link(a, i)->0 as int)
        &&& self.ranks_distinct()
        &&& self.tower().wf()
        &&& forall|m: int|
            1 <= m < self.nodes@.len() ==> #[trigger] self.nodes@[m].height <= self.cur_level + 1
    }

    /// The keys of the nodes, the head's first.
    pub closed spec fn keys(&self) -> Seq<K> {
        Seq::new(self.nodes@.len(), |m: int| self.nodes@[m].key)
    }

    /// The values of the nodes, the head's first.
    pub closed spec fn vals(&self) -> Seq<Option<V>> {
        Seq::new(self.nodes@.len(), |m: int| self.nodes@[m].value)
    }

    /// The map that the skiplist holds: each node but the head maps its key to its value.
    pub closed spec fn view(&self) -> Map<K, V> {
        key_map(self.keys(), self.vals())
    }

    pub closed spec fn spec_max_level(&self) -> usize {
        self.max_level
    }

    /// The highest level that holds a node, or 0.
    pub closed spec fn spec_cur_level(&self) -> usize {
        self.cur_level
    }

    /// The key that the head carries.
    pub closed spec fn spec_head_key(&self) -> K {
        self.nodes@[0].key
    }

    /// The highest level that the node of key `k` stands on.
    pub closed spec fn key_level(&self, k: K) -> int {
        self.nodes@[choose|m: int| 1 <= m < self.nodes@.len() && #[trigger] self.nodes@[m].key == k].height - 1
    }

    /// The value that the head carries.
    pub closed spec fn spec_head_value(&self) -> Option<V> {
        self.nodes@[0].value
    }

    /// The number of levels the head stands on.
    pub closed spec fn spec_head_height(&self) -> usize {
        self.nodes@[0].height
    }

    proof fn lemma_keys_distinct(&self)
        requires
            self.tower().wf(),
        ensures
            keys_distinct(self.keys()),
    {
        assert forall|m1: int, m2: int|
            1 <= m1 < self.keys().len() && 1 <= m2 < self.keys().len() && m1 != m2 implies #[trigger] self.keys()[m1]
            != #[trigger] self.keys()[m2] by {
            assert(self.tower().ranks[m1] != self.tower().ranks[m2]);
        }
    }

    proof fn lemma_entry(&self, m: int)
        requires
            self.wf(),
            1 <= m < self.nodes@.len(),
        ensures
            self@.contains_key(self.nodes@[m].key),
            self@[self.nodes@[m].key] == self.nodes@[m].value->0,
    {
        self.lemma_keys_distinct();
        lemma_key_map_entry(self.keys(), self.vals(), m);
    }

    proof fn lemma_key_level(&self, m: int)
        requires
            self.wf(),
            1 <= m < self.nodes@.len(),
        ensures
            self.key_level(self.nodes@[m].key) == self.nodes@[m].height - 1,
    {
        let k = self.nodes@[m].key;
        assert(self.nodes@[m].key == k);
        let c = choose|c: int| 1 <= c < self.nodes@.len() && #[trigger] self.nodes@[c].key == k;
        self.lemma_keys_distinct();
        assert(self.keys()[c] == self.keys()[m]);
    }

    proof fn lemma_absent(&self, k: K)
        requires
            self.wf(),
            !self.tower().holds_rank(k.rank()),
        ensures
            !self@.contains_key(k),
    {
        assert forall|m: int| 1 <= m < self.keys().len() implies #[trigger] self.keys()[m] != k by {
            assert(self.tower().ranks[m] == self.keys()[m].rank());
        }
        lemma_key_map_absent(self.keys(), self.vals(), k);
    }

    /// An empty skiplist.
    pub fn new() -> (r: Self)
        where
            K: Min<K>,
        requires
            0 < N < 0x1_0000_0000,
        ensures
            r.wf(),
            r@ == Map::<K, V>::empty(),
            r.spec_max_level() == N,
            r.spec_cur_level() == 0,
            r.spec_head_key() == K::least(),
            r.spec_head_height() == N,
            r.spec_head_value() is None,
    {
        let new_node = NodeNoLock::<K, V, N>::new(<K as Min<K>>::min(), None, N);
        let mut nodes: Vec<NodeNoLock<K, V, N>> = Vec::new();
        nodes.push(new_node);
        let r = Self { max_level: N, cur_level: 0, nodes };
        proof {
            let t = r.tower();
            assert forall|a: int, i: int| 0 <= a < t.len() && 0 <= i < t.heights[a] implies #[trigger] t.succ_ok(a, i) by {
                assert(t.links[0][i] == link_of(r.nodes@[0].forward@[i]));
            }
            assert forall|a: int, i: int|
                0 <= a < r.nodes@.len() && 0 <= i < N && #[trigger] r.link(a, i) is Some implies r.edge_ok(a, i, r.link(a, i)->0 as int) by {
                assert(r.nodes@[0].forward@[i] == None::<Option<usize>>);
            }
            assert(r@ =~= Map::<K, V>::empty());
        }
        r
    }

    /// The number of levels.
    pub fn max_level(&self) -> (r: usize)
        ensures
            r == self.spec_max_level(),
    {
        self.max_level
    }

    /// Looks `key` up, walking down from the current top level.
    #[verifier::loop_isolation(false)]
    pub fn get(&self, key: &K) -> (r: Option<V>)
        where
            V: Clone,
        requires
            self.wf(),
        ensures
            match r {
                Some(v) => self@.contains_key(*key) && cloned(self@[*key], v),
                None => !self@.contains_key(*key),
            },
    {
        let ghost rk = key.rank();
        let ghost t = self.tower();
        let mut curr: usize = 0;
        let mut i = self.cur_level + 1;
        while i > 0
            invariant
                i <= self.cur_level + 1,
                0 <= curr < self.nodes@.len(),
                curr == 0 || self.rank_at(curr as int) < rk,
                curr == 0 || i <= self.nodes@[curr as int].height,
                i < N ==> t.before(curr as int, i as int, rk),
                i == N ==> curr == 0,
                i <= self.cur_level ==> t.gap(curr as int, i as int, rk),
                i <= self.cur_level ==> (t.links[curr as int][i as int] is Some
                    ==> t.ranks[t.links[curr as int][i as int]->0 as int] != rk),
            decreases i,
        {
            proof {
                if i < N {
                    lemma_descend(t, curr as int, i as int, rk);
                }
            }
            i = i - 1;
            if i < self.nodes[curr].height {
                loop
                    invariant
                        0 <= curr < self.nodes@.len(),
                        curr == 0 || self.rank_at(curr as int) < rk,
                        curr == 0 || i < self.nodes@[curr as int].height,
                        t.before(curr as int, i as int, rk),
                    decreases (if curr == 0 {
                        1int
                    } else {
                        0int
                    }),
                        rk - self.rank_at(curr as int),
                {
                    proof {
                        lemma_step(t, curr as int, i as int, rk);
                        assert(self.nodes@[curr as int].forward.wf());
                        self.nodes@[curr as int].forward.lemma_len();
                    }
                    match self.nodes[curr].forward.ptr_at(i) {
                        Some(Some(next)) => {
                            let next = *next;
                            proof {
                                assert(self.link(curr as int, i as int) == Some(next));
                                assert(self.edge_ok(curr as int, i as int, next as int));
                                assert(t.links[curr as int][i as int] == Some(next));
                            }
                            if self.nodes[next].key.precedes(key) {
                                curr = next;
                            } else if self.nodes[next].key.same_key(key) {
                                proof {
                                    K::lemma_rank_injective(self.nodes@[next as int].key, *key);
                                    self.lemma_entry(next as int);
                                }
                                return self.nodes[next].value.clone();
                            } else {
                                break;
                            }
                        },
                        _ => {
                            proof {
                                assert(self.link(curr as int, i as int) is None);
                                assert(t.links[curr as int][i as int] is None);
                            }
                            break;
                        },
                    }
                }
            }
        }
        proof {
            lemma_found(t, curr as int, rk);
            self.lemma_absent(*key);
        }
        None
    }

    /// Node `c` is where the search for rank `r` leaves level `j`: the head or a node of level
    /// `j` before `r`, whose successor there, if any, is not before `r`.
    pub closed spec fn stop_ok(&self, j: int, c: int, r: int) -> bool {
        &&& 0 <= c < self.nodes@.len()
        &&& (c == 0 || self.rank_at(c) < r)
        &&& (c == 0 || j < self.nodes@[c].height)
        &&& (self.link(c, j) is Some ==> self.rank_at(self.link(c, j)->0 as int) >= r)
        &&& self.tower().before(c, j, r)
        &&& self.tower().gap(c, j, r)
    }

    /// Appending a node with key `key` and value `value` maps `key` to `value`.
    proof fn lemma_appended(&self, prior: Self, key: K, value: V)
        requires
            prior.wf(),
            self.wf(),
            self.nodes@.len() == prior.nodes@.len() + 1,
            forall|m: int| 0 <= m < prior.nodes@.len() ==> #[trigger] self.nodes@[m].key == prior.nodes@[m].key,
            forall|m: int|
                0 <= m < prior.nodes@.len() ==> #[trigger] self.nodes@[m].value == prior.nodes@[m].value,
            self.nodes@[prior.nodes@.len() as int].key == key,
            self.nodes@[prior.nodes@.len() as int].value == Some(value),
        ensures
            self@ == prior@.insert(key, value),
    {
        let n = prior.nodes@.len() as int;
        prior.lemma_keys_distinct();
        self.lemma_keys_distinct();
        assert(self.keys() =~= prior.keys().push(key));
        assert(self.vals() =~= prior.vals().push(Some(value)));
        assert forall|m: int| 1 <= m < prior.keys().len() implies #[trigger] prior.keys()[m] != key by {
            assert(self.keys()[m] != self.keys()[n]);
        }
        lemma_key_map_push(prior.keys(), prior.vals(), key, value);
    }

    /// Giving node `b` the value `value` maps its key `key` to `value` and keeps the skiplist
    /// well formed.
    proof fn lemma_replaced(&self, prior: Self, key: K, value: V, b: int)
        requires
            prior.wf(),
            self.nodes@.len() == prior.nodes@.len(),
            1 <= b < self.nodes@.len(),
            forall|m: int| 0 <= m < self.nodes@.len() && m != b ==> #[trigger] self.nodes@[m] == prior.nodes@[m],
            self.nodes@[b].key == prior.nodes@[b].key,
            self.nodes@[b].height == prior.nodes@[b].height,
            self.nodes@[b].forward == prior.nodes@[b].forward,
            self.nodes@[b].key == key,
            self.nodes@[b].value == Some(value),
            self.max_level == prior.max_level,
            self.cur_level == prior.cur_level,
        ensures
            self.wf(),
            self@ == prior@.insert(key, value),
    {
        assert forall|m: int| 0 <= m < self.nodes@.len() implies #[trigger] self.rank_at(m) == prior.rank_at(m)
            && self.nodes@[m].height == prior.nodes@[m].height && self.nodes@[m].forward == prior.nodes@[m].forward by {
            if m != b {
                assert(self.nodes@[m] == prior.nodes@[m]);
            }
        }
        assert(self.tower() =~= prior.tower()) by {
            assert(self.tower().ranks =~= prior.tower().ranks);
            assert(self.tower().heights =~= prior.tower().heights);
            assert forall|m: int| 0 <= m < self.nodes@.len() implies #[trigger] self.tower().links[m] == prior.tower().links[m] by {
                assert(self.tower().links[m] =~= prior.tower().links[m]);
            }
            assert(self.tower().links =~= prior.tower().links);
        }
        assert forall|m: int| 0 <= m < self.nodes@.len() implies (#[trigger] self.nodes@[m]).forward.wf() by {
            assert(prior.nodes@[m].forward.wf());
        }
        assert forall|m: int| 1 <= m < self.nodes@.len() implies 1 <= (#[trigger] self.nodes@[m]).height <= N
            && self.nodes@[m].value is Some by {
            assert(1 <= prior.nodes@[m].height <= N);
        }
        assert forall|m: int| 1 <= m < self.nodes@.len() implies #[trigger] self.nodes@[m].height <= self.cur_level + 1 by {
            assert(prior.nodes@[m].height <= prior.cur_level + 1);
        }
        assert forall|a: int, i: int|
            0 <= a < self.nodes@.len() && 0 <= i < N && #[trigger] self.link(a, i) is Some implies self.edge_ok(a, i, self.link(a, i)->0 as int) by {
            assert(self.link(a, i) == prior.link(a, i));
            assert(prior.edge_ok(a, i, prior.link(a, i)->0 as int));
        }
        assert(self.ranks_distinct()) by {
            assert forall|m1: int, m2: int|
                1 <= m1 < self.nodes@.len() && 1 <= m2 < self.nodes@.len() && m1 != m2 implies #[trigger] self.rank_at(m1)
                != #[trigger] self.rank_at(m2) by {
                assert(prior.rank_at(m1) != prior.rank_at(m2));
            }
        }
        assert(self.nodes@[0].height == prior.nodes@[0].height);
        assert(self.nodes@[0].value == prior.nodes@[0].value);
        prior.lemma_keys_distinct();
        assert(self.keys() =~= prior.keys());
        assert(self.vals() =~= prior.vals().update(b, Some(value)));
        lemma_key_map_update(prior.keys(), prior.vals(), b, value);
    }

    /// The state after linking a node for a new key at the levels `0 ..= lvl`, after the nodes
    /// `u[j]` where the search left each level.
    proof fn lemma_linked(&self, prior: Self, u: Seq<usize>, lvl: int, key: K, value: V)
        requires
            prior.wf(),
            !prior.tower().holds_rank(key.rank()),
            0 <= lvl < N,
            u.len() == N,
            forall|j: int| 0 <= j < N ==> prior.stop_ok(j, #[trigger] u[j] as int, key.rank()),
            lvl <= self.cur_level < N,
            self.cur_level >= prior.cur_level,
            self.max_level == prior.max_level,
            self.nodes@.len() == prior.nodes@.len() + 1,
            self.nodes@.len() <= usize::MAX,
            forall|m: int|
                0 <= m < prior.nodes@.len() ==> (#[trigger] self.nodes@[m]).key == prior.nodes@[m].key
                    && self.nodes@[m].value == prior.nodes@[m].value && self.nodes@[m].height
                    == prior.nodes@[m].height && self.nodes@[m].forward.wf(),
            forall|m: int, j: int|
                0 <= m < prior.nodes@.len() && 0 <= j < N ==> #[trigger] link_of(self.nodes@[m].forward@[j]) == (
                if j <= lvl && m == u[j] as int {
                    Some(prior.nodes@.len() as usize)
                } else {
                    prior.link(m, j)
                }),
            self.nodes@[prior.nodes@.len() as int].key == key,
            self.nodes@[prior.nodes@.len() as int].value == Some(value),
            self.nodes@[prior.nodes@.len() as int].height == lvl + 1,
            self.nodes@[prior.nodes@.len() as int].forward.wf(),
            forall|j: int|
                0 <= j < N ==> #[trigger] link_of(self.nodes@[prior.nodes@.len() as int].forward@[j]) == (if j <= lvl {
                    prior.link(u[j] as int, j)
                } else {
                    None
                }),
        ensures
            self.wf(),
            self@ == prior@.insert(key, value),
    {
        let idx = prior.nodes@.len() as int;
        let r = key.rank();
        assert forall|m: int| 0 <= m < self.nodes@.len() implies (#[trigger] self.nodes@[m]).forward.wf() by {}
        assert forall|m: int| 1 <= m < self.nodes@.len() implies 1 <= (#[trigger] self.nodes@[m]).height <= N
            && self.nodes@[m].value is Some by {
            if m < idx {
                assert(1 <= prior.nodes@[m].height <= N);
            }
        }
        assert forall|m: int| 0 <= m < idx implies #[trigger] self.rank_at(m) == prior.rank_at(m) by {
            assert(self.nodes@[m].key == prior.nodes@[m].key);
        }
        assert forall|a: int, i: int|
            0 <= a < self.nodes@.len() && 0 <= i < N && #[trigger] self.link(a, i) is Some implies self.edge_ok(a, i, self.link(a, i)->0 as int) by {
            let b = self.link(a, i)->0 as int;
            if a == idx {
                assert(i <= lvl);
                let c = u[i] as int;
                assert(prior.stop_ok(i, c, r));
                assert(prior.link(c, i) is Some);
                assert(prior.edge_ok(c, i, b));
                assert(self.nodes@[b].height == prior.nodes@[b].height);
                assert(self.rank_at(b) == prior.rank_at(b));
                assert(prior.tower().ranks[b] == prior.rank_at(b));
                assert(prior.rank_at(b) != r);
            } else if i <= lvl && a == u[i] as int {
                assert(prior.stop_ok(i, a, r));
                assert(b == idx);
                assert(self.rank_at(a) == prior.rank_at(a));
            } else {
                assert(self.link(a, i) == prior.link(a, i));
                assert(prior.edge_ok(a, i, b));
                assert(self.nodes@[b].height == prior.nodes@[b].height);
                assert(self.rank_at(a) == prior.rank_at(a));
                assert(self.rank_at(b) == prior.rank_at(b));
            }
        }
        assert(self.ranks_distinct()) by {
            assert forall|m1: int, m2: int|
                1 <= m1 < self.nodes@.len() && 1 <= m2 < self.nodes@.len() && m1 != m2 implies #[trigger] self.rank_at(m1)
                != #[trigger] self.rank_at(m2) by {
                if m1 == idx && m2 < idx {
                    assert(prior.tower().ranks[m2] == prior.rank_at(m2));
                } else if m2 == idx && m1 < idx {
                    assert(prior.tower().ranks[m1] == prior.rank_at(m1));
                } else {
                    assert(prior.rank_at(m1) != prior.rank_at(m2));
                }
            }
        }
        self.lemma_linked_tower(prior, u, lvl, key);
        self.lemma_appended(prior, key, value);
    }

    /// Linking the new node keeps the levels sorted and complete.
    proof fn lemma_linked_tower(&self, prior: Self, u: Seq<usize>, lvl: int, key: K)
        requires
            prior.wf(),
            prior.ranks_distinct(),
            !prior.tower().holds_rank(key.rank()),
            0 <= lvl < N,
            u.len() == N,
            forall|j: int| 0 <= j < N ==> prior.stop_ok(j, #[trigger] u[j] as int, key.rank()),
            lvl <= self.cur_level < N,
            self.cur_level >= prior.cur_level,
            self.nodes@.len() == prior.nodes@.len() + 1,
            self.nodes@.len() <= usize::MAX,
            forall|m: int|
                0 <= m < prior.nodes@.len() ==> (#[trigger] self.nodes@[m]).key == prior.nodes@[m].key
                    && self.nodes@[m].height == prior.nodes@[m].height,
            forall|m: int, j: int|
                0 <= m < prior.nodes@.len() && 0 <= j < N ==> #[trigger] link_of(self.nodes@[m].forward@[j]) == (
                if j <= lvl && m == u[j] as int {
                    Some(prior.nodes@.len() as usize)
                } else {
                    prior.link(m, j)
                }),
            self.nodes@[prior.nodes@.len() as int].key == key,
            self.nodes@[prior.nodes@.len() as int].height == lvl + 1,
            forall|j: int|
                0 <= j < N ==> #[trigger] link_of(self.nodes@[prior.nodes@.len() as int].forward@[j]) == (if j <= lvl {
                    prior.link(u[j] as int, j)
                } else {
                    None
                }),
        ensures
            self.tower().wf(),
            forall|m: int| 1 <= m < self.nodes@.len() ==> #[trigger] self.nodes@[m].height <= self.cur_level + 1,
    {
        let idx = prior.nodes@.len() as int;
        let r = key.rank();
        let t0 = prior.tower();
        let t2 = self.tower();
        let h = (lvl + 1) as nat;
        let us = Seq::new(h, |j: int| u[j]);
        assert(t2.ranks =~= t0.ranks.push(r)) by {
            assert forall|m: int| 0 <= m < idx implies #[trigger] t2.ranks[m] == t0.ranks[m] by {
                assert(self.nodes@[m].key == prior.nodes@[m].key);
            }
        }
        assert(t2.heights =~= t0.heights.push(h)) by {
            assert forall|m: int| 0 <= m < idx implies #[trigger] t2.heights[m] == t0.heights[m] by {
                assert(self.nodes@[m].height == prior.nodes@[m].height);
            }
        }
        assert forall|i: int| 0 <= i < h implies #[trigger] t0.before(us[i] as int, i, r) && t0.gap(us[i] as int, i, r) by {
            assert(prior.stop_ok(i, u[i] as int, r));
        }
        assert forall|i: int| 0 <= i < h implies #[trigger] t2.links[idx][i] == t0.links[us[i] as int][i] by {
            assert(link_of(self.nodes@[idx].forward@[i]) == prior.link(u[i] as int, i));
            assert(prior.stop_ok(i, u[i] as int, r));
        }
        assert forall|a: int, i: int| 0 <= a < idx && 0 <= i < t0.links[a].len() implies #[trigger] t2.links[a][i]
            == (if i < h && a == us[i] as int {
            Some(idx as usize)
        } else {
            t0.links[a][i]
        }) by {
            assert(link_of(self.nodes@[a].forward@[i]) == (if i <= lvl && a == u[i] as int {
                Some(idx as usize)
            } else {
                prior.link(a, i)
            }));
        }
        assert(t0.heights[0] == N);
        lemma_link(t0, t2, us, h, r);
        assert forall|m: int| 1 <= m < self.nodes@.len() implies #[trigger] self.nodes@[m].height <= self.cur_level + 1 by {
            if m < idx {
                assert(prior.nodes@[m].height <= prior.cur_level + 1);
            }
        }
    }

    /// Maps `key` to `value`: a key already present gets the new value in its node, and a new
    /// key gets a node of a randomly drawn height, linked in on each of its levels.
    #[verifier::loop_isolation(false)]
    pub fn insert(&mut self, key: K, value: V)
        requires
            old(self).wf(),
        ensures
            final(self).wf(),
            final(self)@ == old(self)@.insert(key, value),
            final(self).spec_max_level() == old(self).spec_max_level(),
            final(self).spec_cur_level() < N,
            old(self)@.contains_key(key) ==> final(self).spec_cur_level() == old(self).spec_cur_level(),
            !old(self)@.contains_key(key) ==> {
                &&& 0 <= final(self).key_level(key) < N
                &&& final(self).spec_cur_level() == (if final(self).key_level(key) > old(
                    self,
                ).spec_cur_level() {
                    final(self).key_level(key)
                } else {
                    old(self).spec_cur_level() as int
                })
            },
    {
        let ghost r = key.rank();
        let ghost t0 = self.tower();
        let mut curr: usize = 0;
        let mut update: LockFreeArray<Option<usize>, N> = LockFreeArray::new();
        update.fill(Some(0));
        proof {
            update.lemma_len();
            assert forall|j: int| 0 <= j < N implies #[trigger] update@[j] == Some(Some(0usize)) by {
                assert(cloned(Some(0usize), update@[j]->0));
            }
        }
        let mut i = self.max_level;
        while i > 0
            invariant
                update.wf(),
                update@.len() == N,
                i <= N,
                0 <= curr < self.nodes@.len(),
                curr == 0 || self.rank_at(curr as int) < r,
                curr == 0 || i <= self.nodes@[curr as int].height,
                i < N ==> t0.before(curr as int, i as int, r),
                i == N ==> curr == 0,
                i < N ==> update@[i as int] == Some(Some(curr)),
                forall|j: int|
                    i <= j < N ==> (#[trigger] update@[j]) is Some && update@[j]->0 is Some
                        && self.stop_ok(j, update@[j]->0->0 as int, r),
            decreases i,
        {
            proof {
                if i < N {
                    lemma_descend(t0, curr as int, i as int, r);
                }
            }
            i = i - 1;
            if i < self.nodes[curr].height {
                loop
                    invariant
                        0 <= curr < self.nodes@.len(),
                        curr == 0 || self.rank_at(curr as int) < r,
                        curr == 0 || i < self.nodes@[curr as int].height,
                        t0.before(curr as int, i as int, r),
                    decreases (if curr == 0 {
                        1int
                    } else {
                        0int
                    }),
                        r - self.rank_at(curr as int),
                {
                    proof {
                        lemma_step(t0, curr as int, i as int, r);
                        self.nodes@[curr as int].forward.lemma_len();
                    }
                    let forward_ptr = self.nodes[curr].forward.ptr_at(i);
                    if let Some(Some(node)) = forward_ptr {
                        let node = *node;
                        proof {
                            assert(self.link(curr as int, i as int) == Some(node));
                            assert(self.edge_ok(curr as int, i as int, node as int));
                            assert(t0.links[curr as int][i as int] == Some(node));
                        }
                        if self.nodes[node].key.precedes(&key) {
                            curr = node;
                        } else {
                            break;
                        }
                    } else {
                        proof {
                            assert(self.link(curr as int, i as int) is None);
                            assert(t0.links[curr as int][i as int] is None);
                        }
                        break;
                    }
                }
                update.try_insert_at(i, Some(curr)).expect("Failed to insert node");
            }
        }
        proof {
            assert(self.stop_ok(0, curr as int, r));
            lemma_found(t0, curr as int, r);
            self.nodes@[curr as int].forward.lemma_len();
        }
        let next_ref = self.nodes[curr].forward.ptr_at(0);
        if let Some(Some(n)) = next_ref {
            let n = *n;
            if self.nodes[n].key.same_key(&key) {
                proof {
                    assert(self.link(curr as int, 0) == Some(n));
                    assert(self.edge_ok(curr as int, 0, n as int));
                    K::lemma_rank_injective(self.nodes@[n as int].key, key);
                    self.lemma_entry(n as int);
                }
                self.nodes[n].value = Some(value);
                proof {
                    self.lemma_replaced(*old(self), key, value, n as int);
                }
                return;
            }
        }
        proof {
            assert(!t0.holds_rank(r));
            self.lemma_absent(key);
        }
        let lvl = Self::random_level(self.max_level);
        if lvl > self.cur_level {
            let mut j = self.cur_level + 1;
            while j <= lvl
                invariant
                    update.wf(),
                    update@.len() == N,
                    lvl < N,
                    self.cur_level + 1 <= j <= lvl + 1,
                    forall|jj: int|
                        0 <= jj < N ==> (#[trigger] update@[jj]) is Some && update@[jj]->0 is Some
                            && self.stop_ok(jj, update@[jj]->0->0 as int, r),
                decreases lvl + 1 - j,
            {
                proof {
                    self.nodes@[0].forward.lemma_len();
                    if self.link(0, j as int) is Some {
                        assert(self.edge_ok(0, j as int, self.link(0, j as int)->0 as int));
                    }
                    let t = self.tower();
                    assert forall|m: int| #[trigger] t.on_level(m, j as int) && t.after(0, m) implies t.ranks[m] >= r by {
                        assert(self.nodes@[m].height <= self.cur_level + 1);
                    }
                    assert(self.stop_ok(j as int, 0, r));
                }
                update.try_insert_at(j, Some(0)).expect("Failed to insert node");
                j = j + 1;
            }
            self.cur_level = lvl;
        }
        let ghost new_cur = self.cur_level;
        assert(new_cur == (if lvl > old(self).cur_level {
            lvl
        } else {
            old(self).cur_level
        }));
        let ghost old_nodes = self.nodes@;
        let ghost u = Seq::new(N as nat, |j: int| update@[j]->0->0);
        proof {
            assert forall|j: int| 0 <= j < N implies old(self).stop_ok(j, #[trigger] u[j] as int, r) by {
                assert(update@[j] is Some);
                assert(self.stop_ok(j, u[j] as int, r));
            }
        }
        let idx = self.nodes.len();
        self.nodes.push(NodeNoLock::<K, V, N>::new(key, Some(value), lvl + 1));
        let mut i: usize = 0;
        while i <= lvl
            invariant
                update.wf(),
                update@.len() == N,
                forall|j: int| 0 <= j < N ==> #[trigger] update@[j] == Some(Some(u[j])),
                forall|j: int| 0 <= j < N ==> old(self).stop_ok(j, #[trigger] u[j] as int, r),
                lvl < N,
                lvl <= self.cur_level < N,
                self.cur_level == new_cur,
                self.cur_level >= old(self).cur_level,
                self.max_level == N,
                idx == old_nodes.len(),
                old_nodes == old(self).nodes@,
                self.nodes@.len() == idx + 1,
                i <= lvl + 1,
                forall|m: int|
                    0 <= m < idx ==> (#[trigger] self.nodes@[m]).key == old_nodes[m].key
                        && self.nodes@[m].value == old_nodes[m].value && self.nodes@[m].height
                        == old_nodes[m].height && self.nodes@[m].forward.wf(),
                forall|m: int, j: int|
                    0 <= m < idx && 0 <= j < N ==> #[trigger] link_of(self.nodes@[m].forward@[j]) == (
                    if j < i && m == u[j] as int {
                        Some(idx)
                    } else {
                        link_of(old_nodes[m].forward@[j])
                    }),
                self.nodes@[idx as int].key == key,
                self.nodes@[idx as int].value == Some(value),
                self.nodes@[idx as int].height == lvl + 1,
                self.nodes@[idx as int].forward.wf(),
                forall|j: int|
                    0 <= j < N ==> #[trigger] link_of(self.nodes@[idx as int].forward@[j]) == (if j
                        < i {
                        link_of(old_nodes[u[j] as int].forward@[j])
                    } else {
                        None
                    }),
            decreases lvl + 1 - i,
        {
            proof {
                update.lemma_len();
            }
            let update_node = update.ptr_at(i);
            if let Some(Some(u_i)) = update_node {
                let u_i = *u_i;
                proof {
                    assert(u_i == u[i as int]);
                    assert(old(self).stop_ok(i as int, u_i as int, r));
                    self.nodes@[u_i as int].forward.lemma_len();
                    self.nodes@[idx as int].forward.lemma_len();
                }
                let next_ptr = self.nodes[u_i].forward.ptr_at(i);
                let next = match next_ptr {
                    None => None,
                    Some(v) => *v,
                };
                proof {
                    assert(next == link_of(self.nodes@[u_i as int].forward@[i as int]));
                }
                self.nodes[idx].forward.try_insert_at(i, next).expect("Failed to insert node");
                self.nodes[u_i].forward.try_insert_at(i, Some(idx)).expect("Failed to insert node");
            }
            i = i + 1;
        }
        let count = self.nodes.len();
        proof {
            assert(count == self.nodes@.len());
            self.lemma_linked(*old(self), u, lvl as int, key, value);
            self.lemma_key_level(idx as int);
        }
    }

    /// A level drawn uniformly from `0 .. max_level`.
    fn random_level(max_level: usize) -> (r: usize)
        requires
            max_level > 0,
        ensures
            r < max_level,
    {
        crate::random::random_below(max_level)
    }
}

} // verus!
