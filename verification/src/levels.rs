use vstd::prelude::*;

verus! {

/// The abstract shape of a skiplist whose nodes live in an arena.
///
/// Node 0 is the head. Every other node `m` has a key of rank `ranks[m]`,
/// stands on the levels `0 .. heights[m]`, and `links[m][i]` is its successor
/// on level `i` (an arena index), if it has one.
#[verifier::ext_equal]
pub ghost struct Tower {
    pub ranks: Seq<int>,
    pub heights: Seq<nat>,
    pub links: Seq<Seq<Option<usize>>>,
}

impl Tower {
    pub open spec fn len(self) -> nat {
        self.ranks.len()
    }

    /// `m` is a node (not the head) that stands on level `i`.
    pub open spec fn on_level(self, m: int, i: int) -> bool {
        1 <= m < self.len() && 0 <= i < self.heights[m]
    }

    /// Node `m` comes after `a` in key order; every node comes after the head.
    pub open spec fn after(self, a: int, m: int) -> bool {
        a == 0 || self.ranks[a] < self.ranks[m]
    }

    /// The link of `a` on level `i` points at the first node of that level after `a`.
    pub open spec fn succ_ok(self, a: int, i: int) -> bool {
        match self.links[a][i] {
            None => forall|m: int| #[trigger] self.on_level(m, i) ==> !self.after(a, m),
            Some(b) => {
                &&& self.on_level(b as int, i)
                &&& self.after(a, b as int)
                &&& forall|m: int|
                    #[trigger] self.on_level(m, i) && self.after(a, m) ==> self.ranks[b as int]
                        <= self.ranks[m]
            },
        }
    }

    /// Every level is a list of the nodes that stand on it, in strictly increasing key order.
    pub open spec fn wf(self) -> bool {
        &&& self.len() >= 1
        &&& self.heights.len() == self.len()
        &&& self.links.len() == self.len()
        &&& forall|a: int| 0 <= a < self.len() ==> #[trigger] self.links[a].len() >= self.heights[a]
        &&& forall|m: int| 1 <= m < self.len() ==> #[trigger] self.heights[m] >= 1
        &&& forall|m1: int, m2: int|
            1 <= m1 < self.len() && 1 <= m2 < self.len() && m1 != m2 ==> #[trigger] self.ranks[m1]
                != #[trigger] self.ranks[m2]
        &&& forall|a: int, i: int|
            0 <= a < self.len() && 0 <= i < self.heights[a] ==> #[trigger] self.succ_ok(a, i)
    }

    /// `a` is the head, or a node on level `i` whose key comes before rank `r`.
    pub open spec fn before(self, a: int, i: int, r: int) -> bool {
        &&& 0 <= a < self.len()
        &&& i < self.heights[a]
        &&& (a == 0 || self.ranks[a] < r)
    }

    /// No node on level `i` lies after `a` and before rank `r`.
    pub open spec fn gap(self, a: int, i: int, r: int) -> bool {
        forall|m: int| #[trigger] self.on_level(m, i) && self.after(a, m) ==> self.ranks[m] >= r
    }

    /// Some node holds a key of rank `r`.
    pub open spec fn holds_rank(self, r: int) -> bool {
        exists|m: int| 1 <= m < self.len() && #[trigger] self.ranks[m] == r
    }
}

/// One step along level `i` from a node that lies before rank `r`.
pub proof fn lemma_step(t: Tower, a: int, i: int, r: int)
    requires
        t.wf(),
        0 <= i,
        t.before(a, i, r),
    ensures
        i < t.links[a].len(),
        match t.links[a][i] {
            None => t.gap(a, i, r),
            Some(b) => {
                &&& t.on_level(b as int, i)
                &&& t.after(a, b as int)
                &&& t.ranks[b as int] < r ==> t.before(b as int, i, r)
                &&& t.ranks[b as int] >= r ==> t.gap(a, i, r)
            },
        },
{
    assert(t.succ_ok(a, i));
    assert(t.links[a].len() >= t.heights[a]);
}

/// Going down a level, a node that lies before rank `r` still does.
pub proof fn lemma_descend(t: Tower, a: int, i: int, r: int)
    requires
        t.wf(),
        1 <= i,
        t.before(a, i, r),
    ensures
        t.before(a, i - 1, r),
{
}

/// At the bottom level, the node after the search position holds rank `r` exactly when some node does.
pub proof fn lemma_found(t: Tower, a: int, r: int)
    requires
        t.wf(),
        t.before(a, 0, r),
        t.gap(a, 0, r),
    ensures
        t.holds_rank(r) <==> (match t.links[a][0] {
            Some(b) => t.ranks[b as int] == r,
            None => false,
        }),
{
    assert(t.succ_ok(a, 0));
    if t.holds_rank(r) {
        let m = choose|m: int| 1 <= m < t.len() && #[trigger] t.ranks[m] == r;
        assert(t.on_level(m, 0));
        assert(t.after(a, m));
    }
    match t.links[a][0] {
        Some(b) => {
            if t.ranks[b as int] == r {
                assert(t.on_level(b as int, 0));
                assert(t.holds_rank(r));
            }
        },
        None => {},
    }
}

/// Linking a node of a fresh rank `r` and height `h` after the nodes `u[i]` found by a
/// search keeps every level sorted and complete.
pub proof fn lemma_link(t: Tower, t2: Tower, u: Seq<usize>, h: nat, r: int)
    requires
        t.wf(),
        t.len() <= usize::MAX,
        !t.holds_rank(r),
        1 <= h <= t.heights[0],
        u.len() >= h,
        forall|i: int| 0 <= i < h ==> #[trigger] t.before(u[i] as int, i, r) && t.gap(u[i] as int, i, r),
        t2.ranks == t.ranks.push(r),
        t2.heights == t.heights.push(h),
        t2.links.len() == t.len() + 1,
        t2.links[t.len() as int].len() >= h,
        forall|i: int| 0 <= i < h ==> #[trigger] t2.links[t.len() as int][i] == t.links[u[i] as int][i],
        forall|a: int| 0 <= a < t.len() ==> #[trigger] t2.links[a].len() == t.links[a].len(),
        forall|a: int, i: int|
            0 <= a < t.len() && 0 <= i < t.links[a].len() ==> #[trigger] t2.links[a][i] == (if i < h
                && a == u[i] as int {
                Some(t.len() as usize)
            } else {
                t.links[a][i]
            }),
    ensures
        t2.wf(),
{
    let n = t.len() as int;
    assert(t2.len() == n + 1);
    assert forall|m: int| 0 <= m < n implies #[trigger] t2.ranks[m] == t.ranks[m] && t2.heights[m]
        == t.heights[m] by {}
    assert(t2.ranks[n] == r && t2.heights[n] == h);
    assert forall|m: int, i: int| 0 <= m < n implies #[trigger] t2.on_level(m, i) == t.on_level(m, i) by {}
    assert forall|a: int, m: int| 0 <= a < n && 0 <= m < n implies #[trigger] t2.after(a, m) == t.after(a, m) by {}
    assert forall|m: int| 1 <= m < n implies #[trigger] t.ranks[m] != r by {
        if t.ranks[m] == r {
            assert(t.holds_rank(r));
        }
    }
    assert forall|a: int| 0 <= a < t2.len() implies #[trigger] t2.links[a].len() >= t2.heights[a] by {
        if a < n {
            assert(t.links[a].len() >= t.heights[a]);
        }
    }
    assert forall|m: int| 1 <= m < t2.len() implies #[trigger] t2.heights[m] >= 1 by {
        if m < n {
            assert(t.heights[m] >= 1);
        }
    }
    assert forall|m1: int, m2: int|
        1 <= m1 < t2.len() && 1 <= m2 < t2.len() && m1 != m2 implies #[trigger] t2.ranks[m1]
        != #[trigger] t2.ranks[m2] by {
        if m1 < n && m2 < n {
            assert(t.ranks[m1] != t.ranks[m2]);
        }
    }
    assert forall|a: int, i: int| 0 <= a < t2.len() && 0 <= i < t2.heights[a] implies #[trigger] t2.succ_ok(a, i) by {
        if a == n {
            lemma_link_new_node(t, t2, u, h, r, i);
        } else {
            lemma_link_old_node(t, t2, u, h, r, a, i);
        }
    }
}

proof fn lemma_link_new_node(t: Tower, t2: Tower, u: Seq<usize>, h: nat, r: int, i: int)
    requires
        t.wf(),
        1 <= h <= t.heights[0],
        u.len() >= h,
        0 <= i < h,
        t.before(u[i] as int, i, r),
        t.gap(u[i] as int, i, r),
        t2.ranks == t.ranks.push(r),
        t2.heights == t.heights.push(h),
        t2.links.len() == t.len() + 1,
        t2.links[t.len() as int][i] == t.links[u[i] as int][i],
        forall|m: int| 1 <= m < t.len() ==> #[trigger] t.ranks[m] != r,
    ensures
        t2.succ_ok(t.len() as int, i),
{
    let n = t.len() as int;
    let c = u[i] as int;
    assert(t.succ_ok(c, i));
    assert forall|m: int| 0 <= m < n implies #[trigger] t2.on_level(m, i) == t.on_level(m, i) by {}
    match t.links[c][i] {
        None => {
            assert forall|m: int| #[trigger] t2.on_level(m, i) implies !t2.after(n, m) by {
                if m < n {
                    assert(t.on_level(m, i));
                    assert(!t.after(c, m));
                }
            }
        },
        Some(b) => {
            let b = b as int;
            assert(t.on_level(b, i));
            assert(t.ranks[b] >= r);
            assert(t.ranks[b] != r);
            assert(t2.on_level(b, i));
            assert(t2.after(n, b));
            assert forall|m: int| #[trigger] t2.on_level(m, i) && t2.after(n, m) implies t2.ranks[b]
                <= t2.ranks[m] by {
                if m < n {
                    assert(t.on_level(m, i));
                    assert(t.after(c, m));
                }
            }
        },
    }
}

proof fn lemma_link_old_node(t: Tower, t2: Tower, u: Seq<usize>, h: nat, r: int, a: int, i: int)
    requires
        t.wf(),
        t.len() <= usize::MAX,
        1 <= h <= t.heights[0],
        u.len() >= h,
        forall|j: int| 0 <= j < h ==> #[trigger] t.before(u[j] as int, j, r) && t.gap(u[j] as int, j, r),
        0 <= a < t.len(),
        0 <= i < t.heights[a],
        t2.ranks == t.ranks.push(r),
        t2.heights == t.heights.push(h),
        t2.links.len() == t.len() + 1,
        t2.links[a][i] == (if i < h && a == u[i] as int {
            Some(t.len() as usize)
        } else {
            t.links[a][i]
        }),
        forall|m: int| 1 <= m < t.len() ==> #[trigger] t.ranks[m] != r,
    ensures
        t2.succ_ok(a, i),
{
    let n = t.len() as int;
    assert(t.succ_ok(a, i));
    assert forall|m: int| 0 <= m < n implies #[trigger] t2.on_level(m, i) == t.on_level(m, i) by {}
    if i < h && a == u[i] as int {
        assert(t.before(u[i] as int, i, r) && t.gap(u[i] as int, i, r));
        assert(t2.on_level(n, i));
        assert(t2.after(a, n));
        assert forall|m: int| #[trigger] t2.on_level(m, i) && t2.after(a, m) implies t2.ranks[n]
            <= t2.ranks[m] by {
            if m < n {
                assert(t.on_level(m, i));
                assert(t.after(a, m));
                assert(t.ranks[m] >= r);
            }
        }
    } else if i < h {
        // the new node stands on level i, but another node precedes it there
        let c = u[i] as int;
        assert(t.before(c, i, r) && t.gap(c, i, r));
        if t2.after(a, n) {
            // `a` lies before r on level i, so its successor does too
            if a == 0 {
                assert(c != 0);
                assert(t.on_level(c, i));
                assert(t.after(a, c));
            } else {
                assert(t.on_level(a, i));
                if c == 0 {
                    assert(t.after(c, a));
                    assert(false);
                } else if t.ranks[c] < t.ranks[a] {
                    assert(t.after(c, a));
                    assert(false);
                } else {
                    assert(t.ranks[a] != t.ranks[c]);
                    assert(t.on_level(c, i));
                    assert(t.after(a, c));
                }
            }
            match t.links[a][i] {
                None => {
                    assert(false);
                },
                Some(b) => {
                    assert(t.ranks[b as int] < r);
                },
            }
        }
        match t.links[a][i] {
            None => {
                assert forall|m: int| #[trigger] t2.on_level(m, i) implies !t2.after(a, m) by {
                    if m < n {
                        assert(t.on_level(m, i));
                    }
                }
            },
            Some(b) => {
                let b = b as int;
                assert(t2.on_level(b, i));
                assert forall|m: int| #[trigger] t2.on_level(m, i) && t2.after(a, m) implies t2.ranks[b]
                    <= t2.ranks[m] by {
                    if m < n {
                        assert(t.on_level(m, i));
                    }
                }
            },
        }
    } else {
        match t.links[a][i] {
            None => {
                assert forall|m: int| #[trigger] t2.on_level(m, i) implies !t2.after(a, m) by {
                    assert(m < n);
                    assert(t.on_level(m, i));
                }
            },
            Some(b) => {
                let b = b as int;
                assert(t2.on_level(b, i));
                assert forall|m: int| #[trigger] t2.on_level(m, i) && t2.after(a, m) implies t2.ranks[b]
                    <= t2.ranks[m] by {
                    assert(m < n);
                    assert(t.on_level(m, i));
                }
            },
        }
    }
}


/// The map that an arena of nodes holds: the key of each node but the head (index 0) maps to
/// that node's value.
pub open spec fn key_map<K, V>(keys: Seq<K>, vals: Seq<Option<V>>) -> Map<K, V> {
    Map::new(
        |k: K| exists|m: int| 1 <= m < keys.len() && #[trigger] keys[m] == k,
        |k: K| vals[choose|m: int| 1 <= m < keys.len() && #[trigger] keys[m] == k]->0,
    )
}

/// No key occurs at two nodes past the head.
pub open spec fn keys_distinct<K>(keys: Seq<K>) -> bool {
    forall|m1: int, m2: int|
        1 <= m1 < keys.len() && 1 <= m2 < keys.len() && m1 != m2 ==> #[trigger] keys[m1]
            != #[trigger] keys[m2]
}

/// A node's key maps to the node's value.
pub proof fn lemma_key_map_entry<K, V>(keys: Seq<K>, vals: Seq<Option<V>>, m: int)
    requires
        keys_distinct(keys),
        1 <= m < keys.len(),
    ensures
        key_map(keys, vals).contains_key(keys[m]),
        key_map(keys, vals)[keys[m]] == vals[m]->0,
{
    let k = keys[m];
    assert(keys[m] == k);
    let c = choose|c: int| 1 <= c < keys.len() && #[trigger] keys[c] == k;
    assert(c == m);
}

/// Giving node `b` a new value maps its key to that value.
pub proof fn lemma_key_map_update<K, V>(keys: Seq<K>, vals: Seq<Option<V>>, b: int, v: V)
    requires
        keys_distinct(keys),
        1 <= b < keys.len(),
        vals.len() == keys.len(),
    ensures
        key_map(keys, vals.update(b, Some(v))) == key_map(keys, vals).insert(keys[b], v),
{
    let vals2 = vals.update(b, Some(v));
    let target = key_map(keys, vals).insert(keys[b], v);
    assert forall|k: K| #[trigger] key_map(keys, vals2).contains_key(k) implies key_map(keys, vals2)[k] == target[k] by {
        let m = choose|m: int| 1 <= m < keys.len() && #[trigger] keys[m] == k;
        lemma_key_map_entry(keys, vals2, m);
        if m != b {
            lemma_key_map_entry(keys, vals, m);
        }
    }
    assert forall|k: K| #[trigger] target.contains_key(k) implies key_map(keys, vals2).contains_key(k) by {
        if k == keys[b] {
            lemma_key_map_entry(keys, vals2, b);
        }
    }
    assert(key_map(keys, vals2) =~= target);
}

/// Appending a node with a key that no node holds maps that key to the node's value.
pub proof fn lemma_key_map_push<K, V>(keys: Seq<K>, vals: Seq<Option<V>>, k: K, v: V)
    requires
        keys_distinct(keys),
        keys.len() >= 1,
        vals.len() == keys.len(),
        forall|m: int| 1 <= m < keys.len() ==> #[trigger] keys[m] != k,
    ensures
        keys_distinct(keys.push(k)),
        key_map(keys.push(k), vals.push(Some(v))) == key_map(keys, vals).insert(k, v),
{
    let keys2 = keys.push(k);
    let vals2 = vals.push(Some(v));
    let n = keys.len() as int;
    let target = key_map(keys, vals).insert(k, v);
    assert forall|m1: int, m2: int|
        1 <= m1 < keys2.len() && 1 <= m2 < keys2.len() && m1 != m2 implies #[trigger] keys2[m1]
        != #[trigger] keys2[m2] by {
        if m1 < n && m2 < n {
            assert(keys[m1] != keys[m2]);
        } else if m1 < n {
            assert(keys[m1] != k);
        } else {
            assert(keys[m2] != k);
        }
    }
    assert forall|k2: K| #[trigger] key_map(keys2, vals2).contains_key(k2) implies target.contains_key(k2)
        && key_map(keys2, vals2)[k2] == target[k2] by {
        let m = choose|m: int| 1 <= m < keys2.len() && #[trigger] keys2[m] == k2;
        lemma_key_map_entry(keys2, vals2, m);
        if m < n {
            assert(keys2[m] == keys[m]);
            lemma_key_map_entry(keys, vals, m);
        }
    }
    assert forall|k2: K| #[trigger] target.contains_key(k2) implies key_map(keys2, vals2).contains_key(k2) by {
        if k2 == k {
            lemma_key_map_entry(keys2, vals2, n);
        } else {
            let m = choose|m: int| 1 <= m < keys.len() && #[trigger] keys[m] == k2;
            assert(keys2[m] == k2);
        }
    }
    assert(key_map(keys2, vals2) =~= target);
}

/// A key that no node holds is not in the map.
pub proof fn lemma_key_map_absent<K, V>(keys: Seq<K>, vals: Seq<Option<V>>, k: K)
    requires
        forall|m: int| 1 <= m < keys.len() ==> #[trigger] keys[m] != k,
    ensures
        !key_map(keys, vals).contains_key(k),
{
}

} // verus!
