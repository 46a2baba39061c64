//! Arithmetic on refinement domains.
use vstd::prelude::*;

use crate::type_system::Domain;

verus! {

/// The interval of sums of a value from `a` and a value from `b`.
pub open spec fn interval_add(a: (int, int), b: (int, int)) -> (int, int) {
    (a.0 + b.0, a.1 + b.1)
}

impl Domain<i64> {
    /// The domain of `x + y` for `x` in `self` and `y` in `rhs`, or `None`
    /// when an end does not fit in `i64`. Two values add to a value, anything
    /// else to a range.
    pub fn add(self, rhs: Domain<i64>) -> (r: Option<Domain<i64>>)
        ensures
            r is Some <==> (i64::MIN <= interval_add(self@, rhs@).0 <= i64::MAX && i64::MIN
                <= interval_add(self@, rhs@).1 <= i64::MAX),
            r is Some ==> r->0@ == interval_add(self@, rhs@),
            r is Some ==> (r->0 is Value <==> (self is Value && rhs is Value)),
    {
        match (self, rhs) {
            (Domain::Value(v1), Domain::Value(v2)) => match v1.checked_add(v2) {
                Some(v) => Some(Domain::Value(v)),
                None => None,
            },
            _ => {
                let (l1, h1) = self.bounds();
                let (l2, h2) = rhs.bounds();
                match (l1.checked_add(l2), h1.checked_add(h2)) {
                    (Some(l), Some(h)) => Some(Domain::Range(l, h)),
                    _ => None,
                }
            },
        }
    }
}

impl Domain<u64> {
    /// The domain of `x + y` for `x` in `self` and `y` in `rhs`, or `None`
    /// when an end does not fit in `u64`. Two values add to a value, anything
    /// else to a range.
    pub fn add(self, rhs: Domain<u64>) -> (r: Option<Domain<u64>>)
        ensures
            r is Some <==> (interval_add(self@, rhs@).0 <= u64::MAX && interval_add(
                self@,
                rhs@,
            ).1 <= u64::MAX),
            r is Some ==> r->0@ == interval_add(self@, rhs@),
            r is Some ==> (r->0 is Value <==> (self is Value && rhs is Value)),
    {
        match (self, rhs) {
            (Domain::Value(v1), Domain::Value(v2)) => match v1.checked_add(v2) {
                Some(v) => Some(Domain::Value(v)),
                None => None,
            },
            _ => {
                let (l1, h1) = self.bounds();
                let (l2, h2) = rhs.bounds();
                match (l1.checked_add(l2), h1.checked_add(h2)) {
                    (Some(l), Some(h)) => Some(Domain::Range(l, h)),
                    _ => None,
                }
            },
        }
    }
}

} // verus!
