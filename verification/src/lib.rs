use vstd::prelude::*;

pub mod adaptive_swap;
pub mod array;
pub mod key;
pub mod laws;
pub mod levels;
mod random;
pub mod skiplist;
pub mod sl_lock_free;

use crate::key::SkipKey;
use crate::levels::{
    key_map, keys_distinct, lemma_descend, lemma_found, lemma_key_map_absent, lemma_key_map_entry,
    lemma_key_map_push, lemma_key_map_update, lemma_link, lemma_step, Tower,
};

verus! {

/// A type with a least value, which the head of a skiplist carries as its key.
pub trait Min<T> {
    /// The least value.
    spec fn least() -> T;

    fn min() -> (r: T)
        ensures
            r == Self::least(),
    ;
}

impl Min<i32> for i32 {
    open spec fn least() -> i32 {
        i32::MIN
    }

    fn min() -> i32 {
        i32::MIN
    }
}

impl Min<u64> for u64 {
    open spec fn least() -> u64 {
        u64::MIN
    }

    fn min() -> u64 {
        u64::MIN
    }
}

/// A node of [`SkipList`]: its successor on level `i` is the arena index `forward[i]`.
pub(crate) struct Node<K, V> {
    pub(crate) height: usize,
    pub(crate) key: K,
    pub(crate) value: Option<V>,
    pub(crate) forward: Vec<Option<usize>>,
}

impl<K, V> Node<K, V> {
    /// A node of the given height with no successors.
    pub(crate) fn new(key: K, value: Option<V>, height: usize) -> (r: Self)
        ensures
            r.key == key,
            r.value == value,
            r.height == height,
            r.forward@ == Seq::new(height as nat, |i: int| None::<usize>),
    {
        let forward: Vec<Option<usize>> = vec![None; height];
        proof {
            assert forall|i: int| 0 <= i < height implies forward@[i] == None::<usize> by {
                assert(cloned(None::<usize>, forward@[i]));
            }
            assert(forward@ =~= Seq::new(height as nat, |i: int| None::<usize>));
        }
        Self { key, value, height, forward }
    }
}

/// An ordered map from keys to values, kept as a skiplist of at most `max_level + 1` levels.
///
/// The nodes live in an arena; node 0 is the head, which holds no value.
pub struct SkipList<K, V> {
    max_level: usize,
    cur_level: usize,
    nodes: Vec<Node<K, V>>,
}

impl<K: SkipKey, V> SkipList<K, V> {
    /// The level structure of the arena.
    pub closed spec fn tower(&self) -> Tower {
        Tower {
            ranks: Seq::new(self.nodes@.len(), |m: int| self.nodes@[m].key.rank()),
            heights: Seq::new(self.nodes@.len(), |m: int| self.nodes@[m].height as nat),
            links: Seq::new(self.nodes@.len(), |m: int| self.nodes@[m].forward@),
        }
    }

    /// The skiplist is well formed: every level is sorted and complete, the head is tall enough,
    /// no node stands above the current level, and every node but the head holds a value.
    pub closed spec fn wf(&self) -> bool {
        &&& self.tower().wf()
        &&& 1 <= self.max_level < usize::MAX
        &&& self.cur_level < self.max_level
        &&& self.nodes@[0].height == self.max_level + 1
        &&& forall|m: int|
            0 <= m < self.nodes@.len() ==> #[trigger] self.nodes@[m].forward@.len()
                == self.nodes@[m].height
        &&& forall|m: int|
            1 <= m < self.nodes@.len() ==> #[trigger] self.nodes@[m].height <= self.cur_level + 1
        &&& forall|m: int| 1 <= m < self.nodes@.len() ==> #[trigger] self.nodes@[m].value is Some
    }

    /// The keys of the nodes, the head's first.
    pub closed spec fn keys(&self) -> Seq<K> {
        Seq::new(self.nodes@.len(), |m: int| self.nodes@[m].key)
    }

    /// The values of the nodes, the head's first.
    pub closed spec fn vals(&self) -> Seq<Option<V>> {
        Seq::new(self.nodes@.len(), |m: int| self.nodes@[m].value)
    }

    /// The map that the skiplist holds: each node but the head maps its key to its value.
    pub closed spec fn view(&self) -> Map<K, V> {
        key_map(self.keys(), self.vals())
    }

    pub closed spec fn spec_max_level(&self) -> usize {
        self.max_level
    }

    proof fn lemma_keys_distinct(&self)
        requires
            self.tower().wf(),
        ensures
            keys_distinct(self.keys()),
    {
        assert forall|m1: int, m2: int|
            1 <= m1 < self.keys().len() && 1 <= m2 < self.keys().len() && m1 != m2 implies #[trigger] self.keys()[m1]
            != #[trigger] self.keys()[m2] by {
            assert(self.tower().ranks[m1] != self.tower().ranks[m2]);
        }
    }

    proof fn lemma_entry(&self, m: int)
        requires
            self.wf(),
            1 <= m < self.nodes@.len(),
        ensures
            self@.contains_key(self.nodes@[m].key),
            self@[self.nodes@[m].key] == self.nodes@[m].value->0,
    {
        self.lemma_keys_distinct();
        lemma_key_map_entry(self.keys(), self.vals(), m);
    }

    /// Giving node `b` the value `value` maps its key `key` to `value`.
    proof fn lemma_replaced(&self, prior: Self, key: K, value: V, b: int)
        requires
            prior.wf(),
            self.nodes@.len() == prior.nodes@.len(),
            1 <= b < self.nodes@.len(),
            forall|m: int| 0 <= m < self.nodes@.len() ==> #[trigger] self.nodes@[m].key == prior.nodes@[m].key,
            forall|m: int|
                0 <= m < self.nodes@.len() && m != b ==> #[trigger] self.nodes@[m].value == prior.nodes@[m].value,
            self.nodes@[b].key == key,
            self.nodes@[b].value == Some(value),
        ensures
            self@ == prior@.insert(key, value),
    {
        prior.lemma_keys_distinct();
        assert(self.keys() =~= prior.keys());
        assert(self.vals() =~= prior.vals().update(b, Some(value)));
        lemma_key_map_update(prior.keys(), prior.vals(), b, value);
    }

    /// Appending a node with key `key` and value `value` maps `key` to `value`.
    proof fn lemma_appended(&self, prior: Self, key: K, value: V)
        requires
            prior.wf(),
            self.wf(),
            self.nodes@.len() == prior.nodes@.len() + 1,
            forall|m: int| 0 <= m < prior.nodes@.len() ==> #[trigger] self.nodes@[m].key == prior.nodes@[m].key,
            forall|m: int|
                0 <= m < prior.nodes@.len() ==> #[trigger] self.nodes@[m].value == prior.nodes@[m].value,
            self.nodes@[prior.nodes@.len() as int].key == key,
            self.nodes@[prior.nodes@.len() as int].value == Some(value),
        ensures
            self@ == prior@.insert(key, value),
    {
        let n = prior.nodes@.len() as int;
        prior.lemma_keys_distinct();
        self.lemma_keys_distinct();
        assert(self.keys() =~= prior.keys().push(key));
        assert(self.vals() =~= prior.vals().push(Some(value)));
        assert forall|m: int| 1 <= m < prior.keys().len() implies #[trigger] prior.keys()[m] != key by {
            assert(self.keys()[m] != self.keys()[n]);
        }
        lemma_key_map_push(prior.keys(), prior.vals(), key, value);
    }

    proof fn lemma_absent(&self, k: K)
        requires
            self.wf(),
            !self.tower().holds_rank(k.rank()),
        ensures
            !self@.contains_key(k),
    {
        assert forall|m: int| 1 <= m < self.keys().len() implies #[trigger] self.keys()[m] != k by {
            assert(self.tower().ranks[m] == self.keys()[m].rank());
        }
        lemma_key_map_absent(self.keys(), self.vals(), k);
    }

    proof fn lemma_same_rank(&self, m: int, k: K)
        requires
            self.wf(),
            1 <= m < self.nodes@.len(),
            self.nodes@[m].key.rank() == k.rank(),
        ensures
            self.nodes@[m].key == k,
            self@.contains_key(k),
            self@[k] == self.nodes@[m].value->0,
    {
        K::lemma_rank_injective(self.nodes@[m].key, k);
        self.lemma_entry(m);
    }

    /// An empty skiplist with levels `0 ..= max_level` in its head.
    pub fn new(max_level: usize) -> (r: Self)
        where
            K: Min<K>,
        requires
            max_level > 0,
            max_level < usize::MAX,
        ensures
            r.wf(),
            r@ == Map::<K, V>::empty(),
            r.spec_max_level() == max_level,
    {
        let new_node: Node<K, V> = Node::new(<K as Min<K>>::min(), None, max_level + 1);
        let mut nodes: Vec<Node<K, V>> = Vec::new();
        nodes.push(new_node);
        let r = Self { max_level, cur_level: 0, nodes };
        proof {
            let t = r.tower();
            assert(t.links[0] == r.nodes@[0].forward@);
            assert forall|a: int, i: int| 0 <= a < t.len() && 0 <= i < t.heights[a] implies #[trigger] t.succ_ok(a, i) by {
                assert(t.links[0][i] == None::<usize>);
            }
            assert(r@ =~= Map::<K, V>::empty());
        }
        r
    }

    /// The highest level that a node can reach.
    pub fn max_level(&self) -> (r: usize)
        ensures
            r == self.spec_max_level(),
    {
        self.max_level
    }

    /// Walks level `i` from `curr` to the last node before `key`.
    fn walk(&self, curr: usize, i: usize, key: &K) -> (c: usize)
        requires
            self.wf(),
            self.tower().before(curr as int, i as int, key.rank()),
        ensures
            self.tower().before(c as int, i as int, key.rank()),
            self.tower().gap(c as int, i as int, key.rank()),
    {
        let ghost r = key.rank();
        let mut curr = curr;
        loop
            invariant
                self.wf(),
                r == key.rank(),
                self.tower().before(curr as int, i as int, r),
            ensures
                self.tower().before(curr as int, i as int, r),
                self.tower().gap(curr as int, i as int, r),
            decreases (if curr == 0 {
                1int
            } else {
                0int
            }),
                r - self.nodes@[curr as int].key.rank(),
        {
            proof {
                lemma_step(self.tower(), curr as int, i as int, r);
            }
            match self.nodes[curr].forward[i] {
                None => break,
                Some(val) => {
                    if self.nodes[val].key.precedes(key) {
                        curr = val;
                    } else {
                        break;
                    }
                },
            }
        }
        curr
    }

    /// Maps `key` to `value`, replacing the value that `key` had.
    pub fn insert(&mut self, key: K, value: V)
        requires
            old(self).wf(),
        ensures
            final(self).wf(),
            final(self)@ == old(self)@.insert(key, value),
            final(self).spec_max_level() == old(self).spec_max_level(),
    {
        let ghost r = key.rank();
        let mut curr: usize = 0;
        let mut update: Vec<Option<usize>> = vec![None; self.max_level + 1];
        let mut i = self.max_level;
        while i > 0
            invariant
                self.wf(),
                r == key.rank(),
                i <= self.max_level,
                update@.len() == self.max_level + 1,
                self.tower().before(curr as int, i as int, r),
                i < self.max_level ==> update@[i as int] == Some(curr),
                forall|j: int|
                    i <= j < self.max_level ==> #[trigger] update@[j] is Some && self.tower().before(
                        update@[j]->0 as int,
                        j,
                        r,
                    ) && self.tower().gap(update@[j]->0 as int, j, r),
            decreases i,
        {
            proof {
                lemma_descend(self.tower(), curr as int, i as int, r);
            }
            i = i - 1;
            curr = self.walk(curr, i, &key);
            update.set(i, Some(curr));
        }
        proof {
            lemma_step(self.tower(), curr as int, 0, r);
            lemma_found(self.tower(), curr as int, r);
        }
        if let Some(next) = self.nodes[curr].forward[0] {
            if self.nodes[next].key.same_key(&key) {
                proof {
                    self.lemma_same_rank(next as int, key);
                }
                self.nodes[next].value = Some(value);
                proof {
                    assert(self.tower() =~= old(self).tower());
                    self.lemma_replaced(*old(self), key, value, next as int);
                }
                return;
            }
        }
        proof {
            self.lemma_absent(key);
        }
        let lvl = Self::random_level(self.max_level);
        if lvl > self.cur_level {
            let mut j = self.cur_level + 1;
            while j <= lvl
                invariant
                    self.wf(),
                    r == key.rank(),
                    lvl < self.max_level,
                    self.cur_level + 1 <= j <= lvl + 1,
                    update@.len() == self.max_level + 1,
                    forall|jj: int|
                        0 <= jj < self.max_level ==> #[trigger] update@[jj] is Some && self.tower().before(
                            update@[jj]->0 as int,
                            jj,
                            r,
                        ) && self.tower().gap(update@[jj]->0 as int, jj, r),
                decreases lvl + 1 - j,
            {
                proof {
                    let t = self.tower();
                    assert forall|m: int| #[trigger] t.on_level(m, j as int) && t.after(0, m) implies t.ranks[m] >= r by {
                        assert(self.nodes@[m].height <= self.cur_level + 1);
                    }
                }
                update.set(j, Some(0));
                j = j + 1;
            }
            self.cur_level = lvl;
        }
        let ghost t0 = self.tower();
        let ghost old_nodes = self.nodes@;

        let ghost u = Seq::new((lvl + 1) as nat, |j: int| update@[j]->0);
        let idx = self.nodes.len();
        self.nodes.push(Node::new(key, Some(value), lvl + 1));
        let mut i: usize = 0;
        while i <= lvl
            invariant
                r == key.rank(),
                lvl < self.max_level,
                idx == old_nodes.len(),
                self.nodes@.len() == idx + 1,
                update@.len() == self.max_level + 1,
                0 <= i <= lvl + 1,
                u.len() == lvl + 1,
                forall|j: int| 0 <= j <= lvl ==> #[trigger] update@[j] == Some(u[j]),
                forall|j: int| 0 <= j <= lvl ==> (#[trigger] u[j]) < idx,
                forall|j: int| 0 <= j <= lvl ==> t0.before(#[trigger] u[j] as int, j, r),
                self.nodes@[idx as int].key == key,
                self.nodes@[idx as int].value == Some(value),
                self.nodes@[idx as int].height == lvl + 1,
                self.nodes@[idx as int].forward@.len() == lvl + 1,
                forall|j: int|
                    0 <= j <= lvl ==> #[trigger] self.nodes@[idx as int].forward@[j] == (if j < i {
                        t0.links[u[j] as int][j]
                    } else {
                        None
                    }),
                forall|m: int|
                    0 <= m < idx ==> (#[trigger] self.nodes@[m]).key == old_nodes[m].key
                        && self.nodes@[m].value == old_nodes[m].value && self.nodes@[m].height
                        == old_nodes[m].height && self.nodes@[m].forward@.len()
                        == old_nodes[m].forward@.len(),
                forall|m: int, j: int|
                    0 <= m < idx && 0 <= j < old_nodes[m].forward@.len() ==> #[trigger] self.nodes@[m].forward@[j]
                        == (if j < i && m == u[j] as int {
                        Some(idx)
                    } else {
                        old_nodes[m].forward@[j]
                    }),
                t0.links.len() == idx,
                t0.ranks.len() == idx,
                t0.heights.len() == idx,
                forall|m: int| 0 <= m < idx ==> #[trigger] t0.links[m] == old_nodes[m].forward@,
                forall|m: int| 0 <= m < idx ==> #[trigger] t0.heights[m] == old_nodes[m].height,
                forall|m: int| 0 <= m < idx ==> #[trigger] old_nodes[m].forward@.len() == old_nodes[m].height,
                self.max_level == old(self).max_level,
                lvl <= self.cur_level < self.max_level,
                old_nodes[0].height == self.max_level + 1,
                forall|m: int| 1 <= m < idx ==> #[trigger] old_nodes[m].height <= self.cur_level + 1,
                forall|m: int| 1 <= m < idx ==> #[trigger] old_nodes[m].value is Some,
            decreases lvl + 1 - i,
        {
            let up = update[i].unwrap();
            proof {
                assert(t0.before(u[i as int] as int, i as int, r));
            }
            let nf = self.nodes[up].forward[i];
            self.nodes[idx].forward.set(i, nf);
            self.nodes[up].forward.set(i, Some(idx));
            i = i + 1;
        }
        proof {
            let t2 = self.tower();
            assert(t2.ranks =~= t0.ranks.push(r));
            assert(t2.heights =~= t0.heights.push((lvl + 1) as nat));
            lemma_link(t0, t2, u, (lvl + 1) as nat, r);
            assert(self.wf());
            self.lemma_appended(*old(self), key, value);
        }
    }

    /// Looks `key` up, walking down from the current top level.
    pub fn get(&self, key: &K) -> (r: Option<V>)
        where
            V: Clone,
        requires
            self.wf(),
        ensures
            match r {
                Some(v) => self@.contains_key(*key) && cloned(self@[*key], v),
                None => !self@.contains_key(*key),
            },
    {
        let ghost rk = key.rank();
        let mut curr: usize = 0;
        let mut i = self.cur_level + 1;
        while i > 0
            invariant
                self.wf(),
                rk == key.rank(),
                i <= self.cur_level + 1,
                self.tower().before(curr as int, i as int, rk),
                i <= self.cur_level ==> self.tower().gap(curr as int, i as int, rk),
                i <= self.cur_level ==> (self.tower().links[curr as int][i as int] is Some
                    ==> self.tower().ranks[self.tower().links[curr as int][i as int]->0 as int] != rk),
            decreases i,
        {
            proof {
                lemma_descend(self.tower(), curr as int, i as int, rk);
            }
            i = i - 1;
            loop
                invariant
                    self.wf(),
                    rk == key.rank(),
                    i <= self.cur_level,
                    self.tower().before(curr as int, i as int, rk),
                ensures
                    self.tower().before(curr as int, i as int, rk),
                    self.tower().gap(curr as int, i as int, rk),
                    self.tower().links[curr as int][i as int] is Some
                        ==> self.tower().ranks[self.tower().links[curr as int][i as int]->0 as int] != rk,
                decreases (if curr == 0 {
                    1int
                } else {
                    0int
                }),
                    rk - self.nodes@[curr as int].key.rank(),
            {
                proof {
                    lemma_step(self.tower(), curr as int, i as int, rk);
                }
                match self.nodes[curr].forward[i] {
                    None => break,
                    Some(next) => {
                        if self.nodes[next].key.precedes(key) {
                            curr = next;
                        } else if self.nodes[next].key.same_key(key) {
                            proof {
                                self.lemma_same_rank(next as int, *key);
                            }
                            return self.nodes[next].value.clone();
                        } else {
                            break;
                        }
                    },
                }
            }
        }
        proof {
            lemma_found(self.tower(), curr as int, rk);
            self.lemma_absent(*key);
        }
        None
    }

    /// A level drawn uniformly from `0 .. max_level`.
    fn random_level(max_level: usize) -> (r: usize)
        requires
            max_level > 0,
        ensures
            r < max_level,
    {
        crate::random::random_below(max_level)
    }
}

} // verus!
