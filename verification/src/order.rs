//! Partial and total order capabilities for timestamp types.

use vstd::prelude::*;

verus! {

/// A partial order capability on timestamp values.
///
/// `le_spec` is the mathematical relation; implementations prove it
/// reflexive, antisymmetric and transitive, and provide executable
/// `less_equal` / `less_than` tests that agree with it.
pub trait PartialOrder: Sized {
    /// The mathematical less-or-equal relation.
    spec fn le_spec(self, other: Self) -> bool;

    /// `le_spec` is reflexive.
    proof fn le_refl(x: Self)
        ensures
            x.le_spec(x),
    ;

    /// `le_spec` is antisymmetric.
    proof fn le_antisym(x: Self, y: Self)
        requires
            x.le_spec(y),
            y.le_spec(x),
        ensures
            x == y,
    ;

    /// `le_spec` is transitive.
    proof fn le_trans(x: Self, y: Self, z: Self)
        requires
            x.le_spec(y),
            y.le_spec(z),
        ensures
            x.le_spec(z),
    ;

    /// Executable test for `le_spec`.
    fn less_equal(&self, other: &Self) -> (r: bool)
        ensures
            r == self.le_spec(*other),
    ;

    /// Executable test for the strict order: `a < b` iff `a <= b` and not `b <= a`.
    fn less_than(&self, other: &Self) -> (r: bool)
        ensures
            r == (self.le_spec(*other) && !other.le_spec(*self)),
    ;
}

/// The strict order derived from a partial order.
pub open spec fn strictly_less<T: PartialOrder>(a: T, b: T) -> bool {
    a.le_spec(b) && !b.le_spec(a)
}

/// A total order refining the partial order of the same type.
///
/// `MutableAntichain` uses it to organize updates for consolidation; it must
/// not contradict `PartialOrder`: whenever `a.le_spec(b)` then `a.tle_spec(b)`.
pub trait TotalOrder: PartialOrder {
    /// The mathematical total less-or-equal relation.
    spec fn tle_spec(self, other: Self) -> bool;

    /// Any two elements are comparable.
    proof fn tle_total(x: Self, y: Self)
        ensures
            x.tle_spec(y) || y.tle_spec(x),
    ;

    /// `tle_spec` is antisymmetric.
    proof fn tle_antisym(x: Self, y: Self)
        requires
            x.tle_spec(y),
            y.tle_spec(x),
        ensures
            x == y,
    ;

    /// `tle_spec` is transitive.
    proof fn tle_trans(x: Self, y: Self, z: Self)
        requires
            x.tle_spec(y),
            y.tle_spec(z),
        ensures
            x.tle_spec(z),
    ;

    /// The total order refines the partial order.
    proof fn tle_refines(x: Self, y: Self)
        requires
            x.le_spec(y),
        ensures
            x.tle_spec(y),
    ;

    /// Executable test for `tle_spec`.
    fn total_less_equal(&self, other: &Self) -> (r: bool)
        ensures
            r == self.tle_spec(*other),
    ;
}

/// Executable equality test derived from the order: under antisymmetry and
/// reflexivity, `a == b` iff `a <= b` and `b <= a`.
pub fn order_equal<T: PartialOrder>(a: &T, b: &T) -> (r: bool)
    ensures
        r == (*a == *b),
{
    proof {
        if *a == *b {
            T::le_refl(*a);
        }
        if a.le_spec(*b) && b.le_spec(*a) {
            T::le_antisym(*a, *b);
        }
    }
    a.less_equal(b) && b.less_equal(a)
}

impl PartialOrder for u64 {
    open spec fn le_spec(self, other: Self) -> bool {
        self <= other
    }

    proof fn le_refl(x: Self) {
    }

    proof fn le_antisym(x: Self, y: Self) {
    }

    proof fn le_trans(x: Self, y: Self, z: Self) {
    }

    fn less_equal(&self, other: &Self) -> (r: bool) {
        *self <= *other
    }

    fn less_than(&self, other: &Self) -> (r: bool) {
        *self < *other
    }
}

impl TotalOrder for u64 {
    open spec fn tle_spec(self, other: Self) -> bool {
        self <= other
    }

    proof fn tle_total(x: Self, y: Self) {
    }

    proof fn tle_antisym(x: Self, y: Self) {
    }

    proof fn tle_trans(x: Self, y: Self, z: Self) {
    }

    proof fn tle_refines(x: Self, y: Self) {
    }

    fn total_less_equal(&self, other: &Self) -> (r: bool) {
        *self <= *other
    }
}

impl PartialOrder for usize {
    open spec fn le_spec(self, other: Self) -> bool {
        self <= other
    }

    proof fn le_refl(x: Self) {
    }

    proof fn le_antisym(x: Self, y: Self) {
    }

    proof fn le_trans(x: Self, y: Self, z: Self) {
    }

    fn less_equal(&self, other: &Self) -> (r: bool) {
        *self <= *other
    }

    fn less_than(&self, other: &Self) -> (r: bool) {
        *self < *other
    }
}

impl TotalOrder for usize {
    open spec fn tle_spec(self, other: Self) -> bool {
        self <= other
    }

    proof fn tle_total(x: Self, y: Self) {
    }

    proof fn tle_antisym(x: Self, y: Self) {
    }

    proof fn tle_trans(x: Self, y: Self, z: Self) {
    }

    proof fn tle_refines(x: Self, y: Self) {
    }

    fn total_less_equal(&self, other: &Self) -> (r: bool) {
        *self <= *other
    }
}

/// The product (component-wise) partial order on pairs: two pairs may be
/// incomparable, as in `(1, 5)` against `(5, 1)`.
impl PartialOrder for (u64, u64) {
    open spec fn le_spec(self, other: Self) -> bool {
        self.0 <= other.0 && self.1 <= other.1
    }

    proof fn le_refl(x: Self) {
    }

    proof fn le_antisym(x: Self, y: Self) {
    }

    proof fn le_trans(x: Self, y: Self, z: Self) {
    }

    fn less_equal(&self, other: &Self) -> (r: bool) {
        self.0 <= other.0 && self.1 <= other.1
    }

    fn less_than(&self, other: &Self) -> (r: bool) {
        self.0 <= other.0 && self.1 <= other.1 && !(other.0 <= self.0 && other.1 <= self.1)
    }
}

/// The lexicographic total order on pairs, which refines the product order.
impl TotalOrder for (u64, u64) {
    open spec fn tle_spec(self, other: Self) -> bool {
        self.0 < other.0 || (self.0 == other.0 && self.1 <= other.1)
    }

    proof fn tle_total(x: Self, y: Self) {
    }

    proof fn tle_antisym(x: Self, y: Self) {
    }

    proof fn tle_trans(x: Self, y: Self, z: Self) {
    }

    proof fn tle_refines(x: Self, y: Self) {
    }

    fn total_less_equal(&self, other: &Self) -> (r: bool) {
        self.0 < other.0 || (self.0 == other.0 && self.1 <= other.1)
    }
}

} // verus!
