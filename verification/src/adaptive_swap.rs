use vstd::prelude::*;

verus! {

/// The low bit of the word that names the current value: set while a swap holds the lock.
const LOCK_BIT: usize = 1;

/// The alignment of a cell's address, which leaves the low bit free for the lock.
const ALIGN: usize = 8;

/// The address of cell `c`.
pub open spec fn address(c: int) -> int {
    (c + 1) * 8
}

/// The word `pack(ptr, locked)`: `ptr` with the lock bit set when `locked`.
pub open spec fn packed_word(ptr: int, locked: bool) -> int {
    if locked {
        ptr - ptr % 2 + 1
    } else {
        ptr
    }
}

/// Spins while another swap holds the lock, with `std::hint::spin_loop`.
///
/// It only hints the processor; it has no effect that the contract could state.
#[verifier::external_body]
fn spin_loop() {
    std::hint::spin_loop()
}

/// A cell whose value is replaced by `swap`, which hands the previous value back.
///
/// The current value lives in one of two cells; `inner` is the address of that cell, with the
/// low bit used as a lock by the slow path of `swap`.
pub struct AdaptiveSwap<T> {
    inner: usize,
    cells: Vec<Option<T>>,
}

impl<T> AdaptiveSwap<T> {
    /// The cell that holds the current value.
    pub closed spec fn current(&self) -> int {
        self.inner as int / 8 - 1
    }

    /// The current value.
    pub closed spec fn value(&self) -> T {
        self.cells@[self.current()]->0
    }

    /// The word that names the current value.
    pub closed spec fn word(&self) -> usize {
        self.inner
    }

    /// The value at address `ptr`, if a cell there holds one.
    pub closed spec fn at(&self, ptr: int) -> Option<T> {
        if ptr == address(0) {
            self.cells@[0]
        } else if ptr == address(1) {
            self.cells@[1]
        } else {
            None
        }
    }

    /// The word names an occupied cell, unlocked, and the other cell is free.
    pub closed spec fn wf(&self) -> bool {
        &&& self.cells@.len() == 2
        &&& (self.inner == address(0) || self.inner == address(1))
        &&& self.cells@[self.current()] is Some
        &&& self.cells@[1 - self.current()] is None
    }

    /// A cell holding `value`.
    pub fn new(value: T) -> (r: AdaptiveSwap<T>)
        ensures
            r.wf(),
            r.value() == value,
    {
        let mut cells: Vec<Option<T>> = Vec::new();
        cells.push(Some(value));
        cells.push(None);
        AdaptiveSwap { inner: ALIGN, cells }
    }

    /// Tags the address `ptr` with the lock bit when `locked`.
    pub fn pack(ptr: usize, locked: bool) -> (r: usize)
        ensures
            r == packed_word(ptr as int, locked),
    {
        let addr = ptr;
        proof {
            assert((addr | 1usize) == addr - addr % 2 + 1) by (bit_vector);
        }
        if locked {
            addr | LOCK_BIT
        } else {
            addr
        }
    }

    /// Splits a word into the address it names and its lock bit.
    pub fn unpack(ptr: usize) -> (r: (usize, bool))
        ensures
            r.0 == ptr - ptr % 2,
            r.1 == (ptr % 2 == 1),
    {
        let addr = ptr;
        proof {
            assert((addr & !1usize) == addr - addr % 2) by (bit_vector);
            assert(((addr & 1usize) != 0) == (addr % 2 == 1)) by (bit_vector);
        }
        (addr & !LOCK_BIT, addr & LOCK_BIT != 0)
    }

    /// The word moves to `new` only if it still holds `current`.
    fn compare_exchange(&mut self, current: usize, new: usize) -> (r: Result<usize, usize>)
        ensures
            final(self).cells == old(self).cells,
            old(self).inner == current ==> r == Ok::<usize, usize>(current) && final(self).inner == new,
            old(self).inner != current ==> r == Err::<usize, usize>(old(self).inner) && final(self).inner
                == old(self).inner,
    {
        if self.inner == current {
            self.inner = new;
            Ok(current)
        } else {
            Err(self.inner)
        }
    }

    /// Puts `value` in the free cell and hands out its address.
    fn place(&mut self, value: T) -> (ptr: usize)
        requires
            old(self).wf(),
        ensures
            final(self).inner == old(self).inner,
            final(self).cells@ == old(self).cells@.update(1 - old(self).current(), Some(value)),
            ptr == address(1 - old(self).current()),
    {
        if self.inner == ALIGN {
            self.cells.set(1, Some(value));
            2 * ALIGN
        } else {
            self.cells.set(0, Some(value));
            ALIGN
        }
    }

    /// Takes the value out of the cell at address `ptr`.
    fn free(&mut self, ptr: usize) -> (r: T)
        requires
            ptr == address(0) || ptr == address(1),
            old(self).cells@.len() == 2,
            old(self).at(ptr as int) is Some,
        ensures
            r == old(self).at(ptr as int)->0,
            final(self).inner == old(self).inner,
            final(self).cells@ == old(self).cells@.update(ptr as int / 8 - 1, None),
    {
        let c: usize = if ptr == ALIGN {
            0
        } else {
            1
        };
        let v = self.cells[c].take();
        v.unwrap()
    }

    /// The slow path of `swap`: waits for the lock, takes it, and installs `new_ptr`.
    fn swap_locked(&mut self, new_ptr: usize) -> (r: T)
        requires
            old(self).cells@.len() == 2,
            old(self).inner == address(0) || old(self).inner == address(1),
            old(self).cells@[old(self).current()] is Some,
            new_ptr == address(1 - old(self).current()),
            old(self).cells@[1 - old(self).current()] is Some,
        ensures
            r == old(self).cells@[old(self).current()]->0,
            final(self).inner == new_ptr,
            final(self).cells@ == old(self).cells@.update(old(self).current(), None),
    {
        loop
            invariant
                *self == *old(self),
                self.cells@.len() == 2,
                self.inner == address(0) || self.inner == address(1),
                self.cells@[self.current()] is Some,
            decreases 0nat,
        {
            let current = self.inner;
            let (curr_ptr, locked) = Self::unpack(current);
            if locked {
                spin_loop();
                continue;
            }
            let locked_curr = Self::pack(curr_ptr, true);
            if self.compare_exchange(current, locked_curr).is_ok() {
                self.inner = new_ptr;
                return self.free(curr_ptr);
            }
        }
    }

    /// Installs `new_value` and hands back the value it replaces.
    ///
    /// A boxed value of a zero-sized type with alignment 1 sits at address 1, whose low bit
    /// reads as the lock, so the swap would wait for ever; such types are left out.
    pub fn swap(&mut self, new_value: T) -> (r: T)
        requires
            old(self).wf(),
            vstd::layout::size_of::<T>() > 0 || vstd::layout::align_of::<T>() > 1,
        ensures
            final(self).wf(),
            r == old(self).value(),
            final(self).value() == new_value,
    {
        let new_ptr = self.place(new_value);
        let mut current = self.inner;
        let mut attempt: usize = 0;
        while attempt < 5
            invariant
                self.cells@.len() == 2,
                self.inner == old(self).inner,
                self.cells@ == old(self).cells@.update(1 - old(self).current(), Some(new_value)),
                current == self.inner,
                old(self).wf(),
                new_ptr == address(1 - old(self).current()),
            decreases 5 - attempt,
        {
            let (curr_ptr, locked) = Self::unpack(current);
            if locked {
                break;
            }
            match self.compare_exchange(current, new_ptr) {
                Ok(_) => {
                    return self.free(curr_ptr);
                },
                Err(actual) => current = actual,
            }
            attempt = attempt + 1;
        }
        self.swap_locked(new_ptr)
    }

    /// The word that names the current value.
    pub fn data(&self) -> (r: usize)
        requires
            self.wf(),
        ensures
            r == self.word(),
            r != 0,
            r % 2 == 0,
            self.at(r as int) == Some(self.value()),
    {
        self.inner
    }

    /// The value at address `ptr`, if a cell there holds one.
    pub fn value_at(&self, ptr: usize) -> (r: Option<&T>)
        requires
            self.wf(),
        ensures
            r is Some <==> self.at(ptr as int) is Some,
            r is Some ==> *(r->0) == self.at(ptr as int)->0,
    {
        if ptr == ALIGN {
            self.cells[0].as_ref()
        } else if ptr == 2 * ALIGN {
            self.cells[1].as_ref()
        } else {
            None
        }
    }
}

/// Packing the address and the lock bit that `unpack` splits a word into gives the word back.
pub proof fn lemma_pack_unpack(word: int)
    requires
        0 <= word,
    ensures
        packed_word(word - word % 2, word % 2 == 1) == word,
{
}

/// Unpacking a packed word gives back the address and the lock bit.
pub proof fn lemma_unpack_pack(ptr: int, locked: bool)
    requires
        ptr % 2 == 0,
    ensures
        packed_word(ptr, locked) - packed_word(ptr, locked) % 2 == ptr,
        (packed_word(ptr, locked) % 2 == 1) == locked,
{
}

} // verus!
