use vstd::prelude::*;

verus! {

/// A key type whose values are totally ordered by an integer rank.
pub trait SkipKey: Sized {
    /// The position of the key in the order; distinct keys have distinct ranks.
    spec fn rank(&self) -> int;

    proof fn lemma_rank_injective(a: Self, b: Self)
        ensures
            a.rank() == b.rank() <==> a == b,
    ;

    /// Whether `self` comes strictly before `other`.
    fn precedes(&self, other: &Self) -> (r: bool)
        ensures
            r == (self.rank() < other.rank()),
    ;

    /// Whether `self` and `other` are the same key.
    fn same_key(&self, other: &Self) -> (r: bool)
        ensures
            r == (self.rank() == other.rank()),
    ;
}

impl SkipKey for i32 {
    open spec fn rank(&self) -> int {
        *self as int
    }

    proof fn lemma_rank_injective(a: Self, b: Self) {
    }

    fn precedes(&self, other: &Self) -> (r: bool) {
        *self < *other
    }

    fn same_key(&self, other: &Self) -> (r: bool) {
        *self == *other
    }
}

impl SkipKey for u64 {
    open spec fn rank(&self) -> int {
        *self as int
    }

    proof fn lemma_rank_injective(a: Self, b: Self) {
    }

    fn precedes(&self, other: &Self) -> (r: bool) {
        *self < *other
    }

    fn same_key(&self, other: &Self) -> (r: bool) {
        *self == *other
    }
}

} // verus!
