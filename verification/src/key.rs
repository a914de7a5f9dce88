use vstd::prelude::*;

verus! {

/// An element type that the heap and the SIMD backends can order.
///
/// Each value has an integer key; two values are equal exactly when their keys are, and
/// the comparisons below decide the order of the keys.
pub trait Key: Copy + Sized {
    /// The integer this value stands for.
    spec fn key(self) -> int;

    /// The smallest key of the type.
    spec fn key_min() -> int;

    /// The largest key of the type.
    spec fn key_max() -> int;

    /// Keys identify values and lie between `key_min()` and `key_max()`.
    proof fn lemma_key(a: Self, b: Self)
        ensures
            (a.key() == b.key()) == (a == b),
            Self::key_min() <= a.key() <= Self::key_max(),
    ;

    fn key_lt(&self, other: &Self) -> (r: bool)
        ensures
            r == (self.key() < other.key()),
    ;

    fn key_le(&self, other: &Self) -> (r: bool)
        ensures
            r == (self.key() <= other.key()),
    ;
}

impl Key for u32 {
    open spec fn key(self) -> int {
        self as int
    }

    open spec fn key_min() -> int {
        0
    }

    open spec fn key_max() -> int {
        u32::MAX as int
    }

    proof fn lemma_key(a: Self, b: Self) {
    }

    fn key_lt(&self, other: &Self) -> (r: bool) {
        *self < *other
    }

    fn key_le(&self, other: &Self) -> (r: bool) {
        *self <= *other
    }
}

impl Key for u64 {
    open spec fn key(self) -> int {
        self as int
    }

    open spec fn key_min() -> int {
        0
    }

    open spec fn key_max() -> int {
        u64::MAX as int
    }

    proof fn lemma_key(a: Self, b: Self) {
    }

    fn key_lt(&self, other: &Self) -> (r: bool) {
        *self < *other
    }

    fn key_le(&self, other: &Self) -> (r: bool) {
        *self <= *other
    }
}

impl Key for i32 {
    open spec fn key(self) -> int {
        self as int
    }

    open spec fn key_min() -> int {
        i32::MIN as int
    }

    open spec fn key_max() -> int {
        i32::MAX as int
    }

    proof fn lemma_key(a: Self, b: Self) {
    }

    fn key_lt(&self, other: &Self) -> (r: bool) {
        *self < *other
    }

    fn key_le(&self, other: &Self) -> (r: bool) {
        *self <= *other
    }
}

impl Key for i64 {
    open spec fn key(self) -> int {
        self as int
    }

    open spec fn key_min() -> int {
        i64::MIN as int
    }

    open spec fn key_max() -> int {
        i64::MAX as int
    }

    proof fn lemma_key(a: Self, b: Self) {
    }

    fn key_lt(&self, other: &Self) -> (r: bool) {
        *self < *other
    }

    fn key_le(&self, other: &Self) -> (r: bool) {
        *self <= *other
    }
}

} // verus!
