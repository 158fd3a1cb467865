use vstd::prelude::*;

verus! {

/// The value that `pack(index, tag)` produces: the tag (modulo 2^32) in the high 32 bits,
/// the index in the low 32 bits.
pub open spec fn packed(index: int, tag: int) -> int {
    (tag % 0x1_0000_0000) * 0x1_0000_0000 + index
}

/// Index tagging to solve the ABA problem.
fn pack(index: usize, tag: usize) -> (r: u64)
    requires
        index < 0x1_0000_0000,
    ensures
        r == packed(index as int, tag as int),
{
    let t = tag as u64;
    let i = index as u64;
    proof {
        assert(t as int % 0x1_0000_0000 == tag as int % 0x1_0000_0000);
        assert(((t << 32u64) | i) == (t % 0x1_0000_0000) * 0x1_0000_0000 + i) by (bit_vector)
            requires
                i < 0x1_0000_0000,
        ;
    }
    (t << 32) | i
}

/// Index tagging to solve the ABA problem.
fn unpack(value: u64) -> (r: (usize, usize))
    ensures
        r.0 == value % 0x1_0000_0000,
        r.1 == value / 0x1_0000_0000,
{
    proof {
        assert((value & 0xFFFF_FFFFu64) == value % 0x1_0000_0000) by (bit_vector);
        assert((value >> 32u64) == value / 0x1_0000_0000) by (bit_vector);
    }
    let index = (value & 0xFFFF_FFFF) as usize;
    let tag = (value >> 32) as usize;
    (index, tag)
}

/// Unpacking a packed word gives back its index, and its tag modulo 2^32.
pub proof fn lemma_unpack_pack(index: int, tag: int)
    requires
        0 <= index < 0x1_0000_0000,
        0 <= tag,
    ensures
        packed(index, tag) % 0x1_0000_0000 == index,
        packed(index, tag) / 0x1_0000_0000 == tag % 0x1_0000_0000,
        0 <= packed(index, tag) < 0x1_0000_0000_0000_0000,
{
    let t = tag % 0x1_0000_0000;
    assert(0 <= t < 0x1_0000_0000);
    assert(packed(index, tag) == t * 0x1_0000_0000 + index);
    assert((t * 0x1_0000_0000 + index) % 0x1_0000_0000 == index) by (nonlinear_arith)
        requires
            0 <= index < 0x1_0000_0000,
            0 <= t,
    ;
    assert((t * 0x1_0000_0000 + index) / 0x1_0000_0000 == t) by (nonlinear_arith)
        requires
            0 <= index < 0x1_0000_0000,
            0 <= t,
    ;
    assert(t * 0x1_0000_0000 + index < 0x1_0000_0000_0000_0000) by (nonlinear_arith)
        requires
            0 <= index < 0x1_0000_0000,
            0 <= t < 0x1_0000_0000,
    ;
}

/// Packing the two halves of a word that `unpack` splits gives the word back.
pub proof fn lemma_pack_unpack(value: int)
    requires
        0 <= value < 0x1_0000_0000_0000_0000,
    ensures
        packed(value % 0x1_0000_0000, value / 0x1_0000_0000) == value,
{
    let t = value / 0x1_0000_0000;
    assert(0 <= t < 0x1_0000_0000) by (nonlinear_arith)
        requires
            0 <= value < 0x1_0000_0000_0000_0000,
            t == value / 0x1_0000_0000,
    ;
    assert(t % 0x1_0000_0000 == t);
}

/// An array of `N` slots, each empty or holding a value, with a free list threaded through
/// the slots that `try_insert` hands out and `take` gives back.
///
/// The head of the free list is kept as a tagged word, `(tag << 32) | index`; an index of `N`
/// means that the free list is empty.
#[derive(Debug)]
pub struct LockFreeArray<T, const N: usize> {
    slots: Vec<Option<T>>,
    freelist_head: u64,
    next: Vec<usize>,
}

impl<T, const N: usize> LockFreeArray<T, N> {
    /// The contents of the slots.
    pub closed spec fn view(&self) -> Seq<Option<T>> {
        self.slots@
    }

    /// The slot at the head of the free list, or `N` when the free list is empty.
    pub closed spec fn free_head(&self) -> int {
        (self.freelist_head as int) % 0x1_0000_0000
    }

    /// The tag of the free list head, which every change of the head increments modulo 2^32.
    pub closed spec fn tag(&self) -> int {
        (self.freelist_head as int) / 0x1_0000_0000
    }

    /// The slot that follows slot `i` on the free list (`N` for none).
    pub closed spec fn next_free(&self, i: int) -> int {
        self.next@[i] as int
    }

    /// Both arrays have the same free list.
    pub open spec fn same_free_list(&self, other: &Self) -> bool {
        &&& self.free_head() == other.free_head()
        &&& self.tag() == other.tag()
        &&& forall|i: int| 0 <= i < N ==> #[trigger] self.next_free(i) == other.next_free(i)
    }

    /// `list` is the free list in order: it starts at the head, each slot on it links to the
    /// next, the last links to `N`, no slot occurs twice, and its slots are exactly the empty
    /// ones.
    pub open spec fn free_list_is(&self, list: Seq<int>) -> bool {
        &&& list.no_duplicates()
        &&& forall|j: int| 0 <= j < list.len() ==> 0 <= #[trigger] list[j] < N
        &&& self.free_head() == (if list.len() == 0 {
            N as int
        } else {
            list[0]
        })
        &&& forall|j: int| 0 <= j < list.len() - 1 ==> #[trigger] self.next_free(list[j]) == list[j + 1]
        &&& list.len() > 0 ==> self.next_free(list[list.len() - 1]) == N
        &&& forall|i: int| 0 <= i < N ==> ((#[trigger] self@[i]) is None <==> list.contains(i))
    }

    /// The free list runs through exactly the empty slots, as it does while slots are filled
    /// only by `try_insert` and `fill` and emptied only by `take`.
    pub open spec fn free_list_exact(&self) -> bool {
        exists|list: Seq<int>| self.free_list_is(list)
    }

    pub closed spec fn wf(&self) -> bool {
        &&& N < 0x1_0000_0000
        &&& self.slots@.len() == N
        &&& self.next@.len() == N
        &&& self.free_head() <= N
        &&& forall|i: int| 0 <= i < N ==> #[trigger] self.next@[i] <= N
    }

    /// A well-formed array has `N` slots.
    pub proof fn lemma_len(&self)
        requires
            self.wf(),
        ensures
            self@.len() == N,
    {
    }

    /// The free-list head and every free-list link lie in `0 ..= N`.
    pub proof fn lemma_free_list_range(&self)
        requires
            self.wf(),
        ensures
            0 <= self.free_head() <= N,
            forall|i: int| 0 <= i < N ==> 0 <= #[trigger] self.next_free(i) <= N,
    {
    }

    /// Handing out the head of the free list `list` leaves the rest of `list` as the free list.
    proof fn lemma_popped(&self, prior: Self, list: Seq<int>)
        requires
            prior.wf(),
            prior.free_list_is(list),
            prior.free_head() != N,
            self@ == prior@.update(prior.free_head(), Some(self@[prior.free_head()]->0)),
            self@[prior.free_head()] is Some,
            self.free_head() == prior.next_free(prior.free_head()),
            forall|i: int| 0 <= i < N ==> #[trigger] self.next_free(i) == prior.next_free(i),
        ensures
            self.free_list_exact(),
            prior@[prior.free_head()] is None,
    {
        let rest = list.drop_first();
        assert(list.len() > 0);
        assert(list.contains(list[0]));
        assert forall|j: int| 0 <= j < rest.len() - 1 implies #[trigger] self.next_free(rest[j]) == rest[j + 1] by {
            assert(prior.next_free(list[j + 1]) == list[j + 2]);
        }
        if rest.len() > 0 {
            assert(prior.next_free(list[0]) == list[1]);
        }
        assert forall|i: int| 0 <= i < N implies ((#[trigger] self@[i]) is None <==> rest.contains(i)) by {
            if i == list[0] {
                if rest.contains(i) {
                    let j = choose|j: int| 0 <= j < rest.len() && rest[j] == i;
                    assert(list[j + 1] == list[0]);
                }
            } else {
                assert(self@[i] == prior@[i]);
                if list.contains(i) {
                    let j = choose|j: int| 0 <= j < list.len() && list[j] == i;
                    assert(rest[j - 1] == i);
                }
                if rest.contains(i) {
                    let j = choose|j: int| 0 <= j < rest.len() && rest[j] == i;
                    assert(list[j + 1] == i);
                }
            }
        }
        assert(self.free_list_is(rest));
    }

    /// Giving slot `index` back puts it in front of the free list `list`.
    proof fn lemma_pushed(&self, prior: Self, list: Seq<int>, index: int)
        requires
            prior.wf(),
            prior.free_list_is(list),
            0 <= index < N,
            prior@[index] is Some,
            self@ == prior@.update(index, None),
            self.free_head() == index,
            self.next_free(index) == prior.free_head(),
            forall|i: int| 0 <= i < N && i != index ==> #[trigger] self.next_free(i) == prior.next_free(i),
        ensures
            self.free_list_exact(),
    {
        let l2 = seq![index].add(list);
        assert(!list.contains(index));
        assert forall|j1: int, j2: int| 0 <= j1 < l2.len() && 0 <= j2 < l2.len() && j1 != j2 implies l2[j1] != l2[j2] by {
            if j1 == 0 && j2 > 0 {
                assert(l2[j2] == list[j2 - 1]);
            } else if j2 == 0 && j1 > 0 {
                assert(l2[j1] == list[j1 - 1]);
            } else if j1 > 0 && j2 > 0 {
                assert(list[j1 - 1] != list[j2 - 1]);
            }
        }
        assert forall|j: int| 0 <= j < l2.len() implies 0 <= #[trigger] l2[j] < N by {
            if j > 0 {
                assert(l2[j] == list[j - 1]);
            }
        }
        assert forall|j: int| 0 <= j < l2.len() - 1 implies #[trigger] self.next_free(l2[j]) == l2[j + 1] by {
            if j > 0 {
                assert(l2[j] == list[j - 1]);
                assert(l2[j + 1] == list[j]);
                assert(list.contains(list[j - 1]));
            }
        }
        if list.len() > 0 {
            assert(l2[l2.len() - 1] == list[list.len() - 1]);
            assert(list.contains(list[list.len() - 1]));
        }
        assert forall|i: int| 0 <= i < N implies ((#[trigger] self@[i]) is None <==> l2.contains(i)) by {
            if i == index {
                assert(l2[0] == index);
            } else {
                assert(self@[i] == prior@[i]);
                if list.contains(i) {
                    let j = choose|j: int| 0 <= j < list.len() && list[j] == i;
                    assert(l2[j + 1] == i);
                }
                if l2.contains(i) {
                    let j = choose|j: int| 0 <= j < l2.len() && l2[j] == i;
                    assert(list[j - 1] == i);
                }
            }
        }
        assert(self.free_list_is(l2));
    }

    /// The head word advances only if it still holds `current`.
    fn compare_exchange_head(&mut self, current: u64, new: u64) -> (r: Result<u64, u64>)
        ensures
            final(self).slots == old(self).slots,
            final(self).next == old(self).next,
            old(self).freelist_head == current ==> r == Ok::<u64, u64>(current)
                && final(self).freelist_head == new,
            old(self).freelist_head != current ==> r == Err::<u64, u64>(old(self).freelist_head)
                && final(self).freelist_head == old(self).freelist_head,
    {
        if self.freelist_head == current {
            self.freelist_head = new;
            Ok(current)
        } else {
            Err(self.freelist_head)
        }
    }

    /// An array of empty slots whose free list runs through every slot in order.
    pub fn new() -> (r: Self)
        requires
            N < 0x1_0000_0000,
        ensures
            r.wf(),
            r@ == Seq::new(N as nat, |i: int| None::<T>),
            r.free_head() == 0,
            r.tag() == 0,
            forall|i: int| 0 <= i < N ==> #[trigger] r.next_free(i) == i + 1,
            r.free_list_exact(),
    {
        let mut slots: Vec<Option<T>> = Vec::new();
        let mut next: Vec<usize> = Vec::new();
        let mut i: usize = 0;
        while i < N
            invariant
                0 <= i <= N,
                slots@.len() == i,
                next@.len() == i,
                forall|j: int| 0 <= j < i ==> #[trigger] slots@[j] is None,
                forall|j: int| 0 <= j < i ==> #[trigger] next@[j] == j + 1,
            decreases N - i,
        {
            slots.push(None);
            next.push(if i + 1 < N {
                i + 1
            } else {
                N
            });
            i = i + 1;
        }
        let head = pack(0, 0);
        proof {
            lemma_unpack_pack(0, 0);
        }
        let r = Self { slots, freelist_head: head, next };
        assert(r@ =~= Seq::new(N as nat, |i: int| None::<T>));
        proof {
            let list = Seq::new(N as nat, |i: int| i);
            assert forall|i: int| 0 <= i < N implies ((#[trigger] r@[i]) is None <==> list.contains(i)) by {
                assert(list[i] == i);
            }
            assert(r.free_list_is(list));
        }
        r
    }

    /// The contents of slot `index`.
    pub fn ptr_at(&self, index: usize) -> (r: Option<&T>)
        requires
            self.wf(),
            index < N,
        ensures
            r is Some <==> self@[index as int] is Some,
            r is Some ==> *(r->0) == self@[index as int]->0,
    {
        self.slots[index].as_ref()
    }

    /// Puts a clone of `value` in every slot and empties the free list.
    pub fn fill(&mut self, value: T)
        where
            T: Clone,
        requires
            old(self).wf(),
        ensures
            final(self).wf(),
            final(self)@.len() == N,
            forall|i: int| 0 <= i < N ==> (#[trigger] final(self)@[i]) is Some && cloned(value, final(self)@[i]->0),
            final(self).free_head() == N,
            final(self).tag() == (old(self).tag() + 1) % 0x1_0000_0000,
            forall|i: int| 0 <= i < N ==> #[trigger] final(self).next_free(i) == old(self).next_free(i),
            final(self).free_list_exact(),
    {
        let mut i: usize = 0;
        while i < N
            invariant
                old(self).wf(),
                0 <= i <= N,
                self.slots@.len() == N,
                self.next == old(self).next,
                self.freelist_head == old(self).freelist_head,
                forall|j: int| 0 <= j < i ==> (#[trigger] self.slots@[j]) is Some && cloned(value, self.slots@[j]->0),
            decreases N - i,
        {
            let boxed = value.clone();
            self.slots.set(i, Some(boxed));
            i = i + 1;
        }
        let current = self.freelist_head;
        let (_, tag) = unpack(current);
        let new_head = pack(N, tag.wrapping_add(1));
        proof {
            assert(tag < 0x1_0000_0000);
            lemma_unpack_pack(N as int, tag.wrapping_add(1) as int);
        }
        self.freelist_head = new_head;
        proof {
            assert(self.free_list_is(Seq::empty()));
        }
    }

    /// Stores `value` in the slot at the head of the free list and hands out its index, or hands
    /// `value` back when the free list is empty.
    pub fn try_insert(&mut self, value: T) -> (r: Result<usize, T>)
        requires
            old(self).wf(),
        ensures
            final(self).wf(),
            r matches Ok(i) ==> i < N,
            old(self).free_list_exact() ==> {
                &&& final(self).free_list_exact()
                &&& r is Err <==> forall|i: int| 0 <= i < N ==> (#[trigger] old(self)@[i]) is Some
                &&& r matches Ok(i) ==> old(self)@[i as int] is None
            },
            old(self).free_head() == N ==> r == Err::<usize, T>(value) && *final(self) == *old(self),
            old(self).free_head() != N ==> {
                &&& r == Ok::<usize, T>(old(self).free_head() as usize)
                &&& final(self)@ == old(self)@.update(old(self).free_head(), Some(value))
                &&& final(self).free_head() == old(self).next_free(old(self).free_head())
                &&& final(self).tag() == (old(self).tag() + 1) % 0x1_0000_0000
                &&& forall|i: int| 0 <= i < N ==> #[trigger] final(self).next_free(i) == old(self).next_free(i)
            },
    {
        let boxed = value;
        loop
            invariant
                *self == *old(self),
                self.wf(),
                boxed == value,
            decreases 0nat,
        {
            let current = self.freelist_head;
            let (head, tag) = unpack(current);
            if head == N {
                proof {
                    if self.free_list_exact() {
                        let list = choose|list: Seq<int>| self.free_list_is(list);
                        assert forall|i: int| 0 <= i < N implies (#[trigger] self@[i]) is Some by {
                            if list.contains(i) {
                                let j = choose|j: int| 0 <= j < list.len() && list[j] == i;
                                assert(0 <= list[0] < N);
                            }
                        }
                    }
                }
                return Err(boxed);
            }
            let next_index = self.next[head];
            let new = pack(next_index, tag.wrapping_add(1));
            if self.compare_exchange_head(current, new).is_ok() {
                proof {
                    assert(tag < 0x1_0000_0000);
                    lemma_unpack_pack(next_index as int, tag.wrapping_add(1) as int);
                }
                self.slots.set(head, Some(boxed));
                proof {
                    if old(self).free_list_exact() {
                        let list = choose|list: Seq<int>| old(self).free_list_is(list);
                        self.lemma_popped(*old(self), list);
                    }
                }
                return Ok(head);
            }
        }
    }

    /// Empties slot `index` and puts it at the head of the free list, handing out what it held.
    pub fn take(&mut self, index: usize) -> (r: Option<T>)
        requires
            old(self).wf(),
        ensures
            final(self).wf(),
            index >= N ==> r is None && *final(self) == *old(self),
            index < N && old(self)@[index as int] is None ==> r is None && final(self)@ == old(self)@
                && final(self).same_free_list(&*old(self)),
            old(self).free_list_exact() ==> final(self).free_list_exact(),
            index < N && old(self)@[index as int] is Some ==> {
                &&& r == old(self)@[index as int]
                &&& final(self)@ == old(self)@.update(index as int, None)
                &&& final(self).free_head() == index
                &&& final(self).tag() == (old(self).tag() + 1) % 0x1_0000_0000
                &&& final(self).next_free(index as int) == old(self).free_head()
                &&& forall|i: int| 0 <= i < N && i != index ==> #[trigger] final(self).next_free(i) == old(self).next_free(i)
            },
    {
        if index >= N {
            return None;
        }
        let ptr = self.slots[index].take();
        if ptr.is_none() {
            proof {
                assert(self.slots@ =~= old(self).slots@);
                if old(self).free_list_exact() {
                    let list = choose|list: Seq<int>| old(self).free_list_is(list);
                    assert(self.next == old(self).next);
                    assert(self.freelist_head == old(self).freelist_head);
                    assert(forall|i: int| #[trigger] self.next_free(i) == old(self).next_free(i));
                    assert(self.free_list_is(list));
                }
            }
            return None;
        }
        let ghost taken = self.slots@;
        loop
            invariant_except_break
                self.freelist_head == old(self).freelist_head,
            invariant
                self.slots@ == taken,
                self.next@.len() == N,
                forall|i: int| 0 <= i < N && i != index ==> #[trigger] self.next@[i] == old(self).next@[i],
                old(self).wf(),
                index < N,
            ensures
                self.free_head() == index,
                self.tag() == (old(self).tag() + 1) % 0x1_0000_0000,
                self.next@[index as int] == old(self).free_head(),
            decreases 0nat,
        {
            let current = self.freelist_head;
            let (head, tag) = unpack(current);
            self.next.set(index, head);
            let new = pack(index, tag.wrapping_add(1));
            if self.compare_exchange_head(current, new).is_ok() {
                proof {
                    assert(tag < 0x1_0000_0000);
                    lemma_unpack_pack(index as int, tag.wrapping_add(1) as int);
                }
                break;
            }
        }
        proof {
            if old(self).free_list_exact() {
                let list = choose|list: Seq<int>| old(self).free_list_is(list);
                self.lemma_pushed(*old(self), list, index as int);
            }
        }
        ptr
    }

    /// Stores `value` in slot `index`, dropping what the slot held; the free list is left as it
    /// is. Hands `value` back when `index` is out of range.
    pub fn try_insert_at(&mut self, index: usize, value: T) -> (r: Result<usize, T>)
        requires
            old(self).wf(),
        ensures
            final(self).wf(),
            index >= N ==> r == Err::<usize, T>(value) && *final(self) == *old(self),
            index < N ==> {
                &&& r == Ok::<usize, T>(index)
                &&& final(self)@ == old(self)@.update(index as int, Some(value))
                &&& final(self).same_free_list(&*old(self))
            },
    {
        if index >= N {
            return Err(value);
        }
        self.slots.set(index, Some(value));
        Ok(index)
    }
}

} // verus!
