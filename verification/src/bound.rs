//! Totally ordered bound values, and the order-reversing wrapper that turns
//! a maximization objective into the minimization form the engine expects.

use vstd::prelude::*;

verus! {

/// A total order on bound values, with an executable comparison that agrees
/// with its specification.  The search engine is generic over this order.
pub trait BoundOrd: Sized + Copy {
    /// The order itself: `self` comes no later than `other`.
    spec fn le_spec(self, other: Self) -> bool;

    /// The order is total.
    proof fn lemma_total(a: Self, b: Self)
        ensures
            a.le_spec(b) || b.le_spec(a),
    ;

    /// The order is transitive.
    proof fn lemma_trans(a: Self, b: Self, c: Self)
        requires
            a.le_spec(b),
            b.le_spec(c),
        ensures
            a.le_spec(c),
    ;

    /// Executable comparison.
    fn le(self, other: Self) -> (r: bool)
        ensures
            r == self.le_spec(other),
    ;
}

impl BoundOrd for u32 {
    open spec fn le_spec(self, other: Self) -> bool {
        self <= other
    }

    proof fn lemma_total(a: Self, b: Self) {
    }

    proof fn lemma_trans(a: Self, b: Self, c: Self) {
    }

    fn le(self, other: Self) -> (r: bool) {
        self <= other
    }
}

/// Reverses the order of the wrapped value: `Rev(a) <= Rev(b)` exactly when
/// `b <= a`.  A pure ordering inversion, not a value transform.
#[derive(Clone, Copy)]
pub struct Rev<T>(pub T);

impl<T: BoundOrd> BoundOrd for Rev<T> {
    open spec fn le_spec(self, other: Self) -> bool {
        other.0.le_spec(self.0)
    }

    proof fn lemma_total(a: Self, b: Self) {
        T::lemma_total(b.0, a.0);
    }

    proof fn lemma_trans(a: Self, b: Self, c: Self) {
        T::lemma_trans(c.0, b.0, a.0);
    }

    fn le(self, other: Self) -> (r: bool) {
        other.0.le(self.0)
    }
}

/// Strict order derived from `le_spec`.
pub open spec fn lt_spec<T: BoundOrd>(a: T, b: T) -> bool {
    a.le_spec(b) && !b.le_spec(a)
}

/// Executable strict comparison.
pub fn lt<T: BoundOrd>(a: T, b: T) -> (r: bool)
    ensures
        r == lt_spec(a, b),
{
    a.le(b) && !b.le(a)
}

/// The larger of two bound values under `le_spec`.
pub open spec fn max_spec<T: BoundOrd>(a: T, b: T) -> T {
    if a.le_spec(b) {
        b
    } else {
        a
    }
}

/// Executable maximum.
pub fn max_val<T: BoundOrd>(a: T, b: T) -> (r: T)
    ensures
        r == max_spec(a, b),
{
    if a.le(b) {
        b
    } else {
        a
    }
}

/// Wrapping two values in `Rev` inverts their order exactly: comparing the
/// wrapped values is the same as comparing the originals the other way round.
pub proof fn lemma_rev_inverts<T: BoundOrd>(a: T, b: T)
    ensures
        Rev(a).le_spec(Rev(b)) <==> b.le_spec(a),
{
}

} // verus!
