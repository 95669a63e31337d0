use vstd::prelude::*;

verus! {

/// A task position that is never zero (the library's stand-in for
/// `NonZeroUsize`).
#[derive(Clone, Copy, Debug, PartialEq, Eq, Structural)]
pub struct NonZeroIndex {
    value: usize,
}

impl NonZeroIndex {
    #[verifier::type_invariant]
    spec fn is_non_zero(self) -> bool {
        self.value >= 1
    }

    /// The position as a number.
    pub closed spec fn index(self) -> usize {
        self.value
    }

    /// The position `n`, if `n` is not zero.
    pub fn new(n: usize) -> (res: Option<NonZeroIndex>)
        ensures
            n == 0 ==> res is None,
            n != 0 ==> (res matches Some(p) && p.index() == n),
    {
        if n == 0 {
            None
        } else {
            Some(NonZeroIndex { value: n })
        }
    }

    /// The first position, 1.
    pub fn first() -> (res: NonZeroIndex)
        ensures
            res.index() == 1,
    {
        NonZeroIndex { value: 1 }
    }

    /// The position as a number, never zero.
    pub fn get(self) -> (res: usize)
        ensures
            res == self.index(),
            res >= 1,
    {
        proof {
            use_type_invariant(self);
        }
        self.value
    }

    /// The position `k` further on, or `usize::MAX` where that would overflow.
    pub fn saturating_add(self, k: usize) -> (res: NonZeroIndex)
        ensures
            res.index() == self.index().saturating_add(k),
    {
        proof {
            use_type_invariant(self);
        }
        NonZeroIndex { value: self.value.saturating_add(k) }
    }

    /// The position `k` earlier, for `k` below this position.
    pub fn back(self, k: usize) -> (res: NonZeroIndex)
        requires
            k < self.index(),
        ensures
            res.index() == self.index() - k,
    {
        NonZeroIndex { value: self.value - k }
    }

    /// Whether two positions are the same.
    pub fn same(self, other: NonZeroIndex) -> (res: bool)
        ensures
            res == (self.index() == other.index()),
    {
        self.value == other.value
    }

    /// Whether this position comes before `other`.
    pub fn before(self, other: NonZeroIndex) -> (res: bool)
        ensures
            res == (self.index() < other.index()),
    {
        self.value < other.value
    }
}

} // verus!
