//! Keys that a skip list can order.

use vstd::prelude::*;

verus! {

/// A key type whose order is that of an integer attached to each value.
///
/// `ordinal` embeds the keys into the integers; two keys are the same
/// exactly when their ordinals are, and `is_below` decides the strict
/// order of the ordinals.
pub trait OrderedKey: Copy {
    /// The integer by which this key is ordered.
    spec fn ordinal(self) -> int;

    /// Distinct keys have distinct ordinals.
    proof fn ordinal_is_injective(a: Self, b: Self)
        requires
            a.ordinal() == b.ordinal(),
        ensures
            a == b,
    ;

    /// Whether `self` sorts strictly before `other`.
    fn is_below(&self, other: &Self) -> (b: bool)
        ensures
            b == (self.ordinal() < other.ordinal()),
    ;
}

impl OrderedKey for u8 {
    open spec fn ordinal(self) -> int {
        self as int
    }

    proof fn ordinal_is_injective(a: Self, b: Self) {
    }

    fn is_below(&self, other: &Self) -> (b: bool) {
        *self < *other
    }
}

impl OrderedKey for u16 {
    open spec fn ordinal(self) -> int {
        self as int
    }

    proof fn ordinal_is_injective(a: Self, b: Self) {
    }

    fn is_below(&self, other: &Self) -> (b: bool) {
        *self < *other
    }
}

impl OrderedKey for u32 {
    open spec fn ordinal(self) -> int {
        self as int
    }

    proof fn ordinal_is_injective(a: Self, b: Self) {
    }

    fn is_below(&self, other: &Self) -> (b: bool) {
        *self < *other
    }
}

impl OrderedKey for u64 {
    open spec fn ordinal(self) -> int {
        self as int
    }

    proof fn ordinal_is_injective(a: Self, b: Self) {
    }

    fn is_below(&self, other: &Self) -> (b: bool) {
        *self < *other
    }
}

impl OrderedKey for usize {
    open spec fn ordinal(self) -> int {
        self as int
    }

    proof fn ordinal_is_injective(a: Self, b: Self) {
    }

    fn is_below(&self, other: &Self) -> (b: bool) {
        *self < *other
    }
}

impl OrderedKey for i32 {
    open spec fn ordinal(self) -> int {
        self as int
    }

    proof fn ordinal_is_injective(a: Self, b: Self) {
    }

    fn is_below(&self, other: &Self) -> (b: bool) {
        *self < *other
    }
}

impl OrderedKey for i64 {
    open spec fn ordinal(self) -> int {
        self as int
    }

    proof fn ordinal_is_injective(a: Self, b: Self) {
    }

    fn is_below(&self, other: &Self) -> (b: bool) {
        *self < *other
    }
}

impl OrderedKey for u128 {
    open spec fn ordinal(self) -> int {
        self as int
    }

    proof fn ordinal_is_injective(a: Self, b: Self) {
    }

    fn is_below(&self, other: &Self) -> (b: bool) {
        *self < *other
    }
}

impl OrderedKey for i8 {
    open spec fn ordinal(self) -> int {
        self as int
    }

    proof fn ordinal_is_injective(a: Self, b: Self) {
    }

    fn is_below(&self, other: &Self) -> (b: bool) {
        *self < *other
    }
}

impl OrderedKey for i16 {
    open spec fn ordinal(self) -> int {
        self as int
    }

    proof fn ordinal_is_injective(a: Self, b: Self) {
    }

    fn is_below(&self, other: &Self) -> (b: bool) {
        *self < *other
    }
}

impl OrderedKey for i128 {
    open spec fn ordinal(self) -> int {
        self as int
    }

    proof fn ordinal_is_injective(a: Self, b: Self) {
    }

    fn is_below(&self, other: &Self) -> (b: bool) {
        *self < *other
    }
}

impl OrderedKey for isize {
    open spec fn ordinal(self) -> int {
        self as int
    }

    proof fn ordinal_is_injective(a: Self, b: Self) {
    }

    fn is_below(&self, other: &Self) -> (b: bool) {
        *self < *other
    }
}

} // verus!
