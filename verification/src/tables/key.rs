use vstd::prelude::*;

verus! {

/// A handle into one arena. A key stands for the zero-based position at
/// which its value was inserted; that position is its `index`.
pub trait Key: Sized {
    /// The insertion position this key stands for.
    spec fn index(&self) -> int;

    /// The key that stands for insertion position `i`.
    spec fn at(i: int) -> Self;

    /// The key for insertion position `key`, which must lie below
    /// [`RawKey::MAX`].
    fn from_usize(key: usize) -> (k: Self)
        requires
            key < RawKey::MAX,
        ensures
            k == Self::at(key as int),
            k.index() == key,
    ;

    /// The insertion position of this key.
    fn as_usize(&self) -> (i: usize)
        ensures
            i == self.index(),
            i < RawKey::MAX,
    ;

    /// Reading the position back from the key made for it gives the
    /// position.
    proof fn lemma_round_trip(i: int)
        requires
            0 <= i < RawKey::MAX,
        ensures
            Self::at(i).index() == i,
    ;

    /// Two keys with the same position are the same key.
    proof fn lemma_index_injective(a: Self, b: Self)
        requires
            a.index() == b.index(),
        ensures
            a == b,
    ;

    /// No key lies further below the first position than the one reserved
    /// value that `from_usize` never gives.
    proof fn lemma_index_lower_bound(k: Self)
        ensures
            k.index() >= -1,
    ;
}

/// A 32-bit key. The stored number is the index plus one, so that zero never
/// occurs in a key made by `from_usize`.
#[derive(Debug, Copy, Clone, PartialEq, Eq, PartialOrd, Ord, Hash, Structural)]
pub struct RawKey {
    key: u32,
}

impl RawKey {
    /// Indices at or above this bound have no key.
    pub const MAX: u32 = 0xFFFF_FF00;

    /// The stored number is never zero and never above the bound.
    #[verifier::type_invariant]
    spec fn nonzero_below_max(self) -> bool {
        1 <= self.key <= RawKey::MAX
    }

    /// The key for position `key`.
    fn new_unchecked(key: u32) -> (k: Self)
        requires
            key < RawKey::MAX,
        ensures
            k == RawKey::at(key as int),
    {
        RawKey { key: key + 1 }
    }
}

impl Key for RawKey {
    closed spec fn index(&self) -> int {
        self.key - 1
    }

    closed spec fn at(i: int) -> RawKey {
        RawKey { key: (i + 1) as u32 }
    }

    proof fn lemma_round_trip(i: int) {
    }

    fn from_usize(key: usize) -> (k: Self) {
        RawKey::new_unchecked(key as u32)
    }

    fn as_usize(&self) -> (i: usize) {
        proof {
            use_type_invariant(self);
        }
        (self.key - 1) as usize
    }

    proof fn lemma_index_injective(a: Self, b: Self) {
    }

    proof fn lemma_index_lower_bound(k: Self) {
    }
}

} // verus!
