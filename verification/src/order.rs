//! A total preorder on keys, given by a three-way comparison.
//!
//! The container compares keys only through this trait. Two keys may compare
//! `Equal` without being the same value (the comparison may look at only part
//! of the key), so no antisymmetry is required: `Equal` means "ordered both
//! ways", nothing more.

use vstd::prelude::*;

verus! {

/// Result of a three-way comparison.
#[derive(Clone, Copy, Debug, PartialEq, Eq, Structural)]
pub enum Cmp {
    Less,
    Equal,
    Greater,
}

/// A total preorder: `le` is reflexive, transitive and total, and `compare`
/// decides it. `le(a, b) && le(b, a)` is comparison-equality; it need not
/// imply `a == b`.
pub trait TotalOrdered: Sized {
    spec fn le(self, other: Self) -> bool;

    proof fn reflexive(x: Self)
        ensures
            Self::le(x, x),
    ;

    proof fn transitive(x: Self, y: Self, z: Self)
        requires
            Self::le(x, y),
            Self::le(y, z),
        ensures
            Self::le(x, z),
    ;

    proof fn total(x: Self, y: Self)
        ensures
            Self::le(x, y) || Self::le(y, x),
    ;

    fn compare(&self, other: &Self) -> (c: Cmp)
        ensures
            (c == Cmp::Less <==> self.le(*other) && !other.le(*self)),
            (c == Cmp::Equal <==> self.le(*other) && other.le(*self)),
            (c == Cmp::Greater <==> other.le(*self) && !self.le(*other)),
    ;
}

/// `a` is strictly below `b` in the order.
pub open spec fn lt_k<K: TotalOrdered>(a: K, b: K) -> bool {
    a.le(b) && !b.le(a)
}

/// `a` and `b` are comparison-equal (ordered both ways).
pub open spec fn eq_k<K: TotalOrdered>(a: K, b: K) -> bool {
    a.le(b) && b.le(a)
}

impl TotalOrdered for i8 {
    open spec fn le(self, other: Self) -> bool {
        self <= other
    }

    proof fn reflexive(x: Self) {
    }

    proof fn transitive(x: Self, y: Self, z: Self) {
    }

    proof fn total(x: Self, y: Self) {
    }

    fn compare(&self, other: &Self) -> (c: Cmp) {
        if *self < *other {
            Cmp::Less
        } else if *self == *other {
            Cmp::Equal
        } else {
            Cmp::Greater
        }
    }
}

impl TotalOrdered for i32 {
    open spec fn le(self, other: Self) -> bool {
        self <= other
    }

    proof fn reflexive(x: Self) {
    }

    proof fn transitive(x: Self, y: Self, z: Self) {
    }

    proof fn total(x: Self, y: Self) {
    }

    fn compare(&self, other: &Self) -> (c: Cmp) {
        if *self < *other {
            Cmp::Less
        } else if *self == *other {
            Cmp::Equal
        } else {
            Cmp::Greater
        }
    }
}

impl TotalOrdered for u64 {
    open spec fn le(self, other: Self) -> bool {
        self <= other
    }

    proof fn reflexive(x: Self) {
    }

    proof fn transitive(x: Self, y: Self, z: Self) {
    }

    proof fn total(x: Self, y: Self) {
    }

    fn compare(&self, other: &Self) -> (c: Cmp) {
        if *self < *other {
            Cmp::Less
        } else if *self == *other {
            Cmp::Equal
        } else {
            Cmp::Greater
        }
    }
}

impl TotalOrdered for usize {
    open spec fn le(self, other: Self) -> bool {
        self <= other
    }

    proof fn reflexive(x: Self) {
    }

    proof fn transitive(x: Self, y: Self, z: Self) {
    }

    proof fn total(x: Self, y: Self) {
    }

    fn compare(&self, other: &Self) -> (c: Cmp) {
        if *self < *other {
            Cmp::Less
        } else if *self == *other {
            Cmp::Equal
        } else {
            Cmp::Greater
        }
    }
}

/// A sorted object: ordered by `key` alone, while equality of values looks at
/// both fields. Two `So` values with the same key but different `value` are
/// comparison-equal yet distinct.
#[derive(Clone, Copy, Debug, PartialEq, Eq, Structural)]
pub struct So {
    pub key: i32,
    pub value: i32,
}

impl So {
    pub fn new(key: i32, value: i32) -> (r: Self)
        ensures
            r == (So { key, value }),
    {
        Self { key, value }
    }
}

impl TotalOrdered for So {
    open spec fn le(self, other: Self) -> bool {
        self.key <= other.key
    }

    proof fn reflexive(x: Self) {
    }

    proof fn transitive(x: Self, y: Self, z: Self) {
    }

    proof fn total(x: Self, y: Self) {
    }

    fn compare(&self, other: &Self) -> (c: Cmp) {
        if self.key < other.key {
            Cmp::Less
        } else if self.key == other.key {
            Cmp::Equal
        } else {
            Cmp::Greater
        }
    }
}

} // verus!
