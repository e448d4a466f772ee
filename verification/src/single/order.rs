//! The order of binary32 numbers.

use vstd::prelude::*;

use super::nearest::lemma_units_order;
use super::Single;

verus! {

impl Single {
    /// The place of a number in the order: the magnitude bits with the sign.
    pub open spec fn rank(self) -> int {
        if self.negative() {
            -(self.magnitude() as int)
        } else {
            self.magnitude() as int
        }
    }
}

/// `a < b`, false where either is not a number.
pub open spec fn below(a: Single, b: Single) -> bool {
    !a.nan() && !b.nan() && a.rank() < b.rank()
}

/// `a <= b`, false where either is not a number.
pub open spec fn at_most(a: Single, b: Single) -> bool {
    !a.nan() && !b.nan() && a.rank() <= b.rank()
}

/// `a == b` by value: both zeros are equal, and what is not a number equals
/// nothing.
pub open spec fn same(a: Single, b: Single) -> bool {
    !a.nan() && !b.nan() && a.rank() == b.rank()
}

/// `x` drawn into `low..=high`. What is not a number stays so.
pub open spec fn confined(x: Single, low: Single, high: Single) -> Single {
    if below(x, low) {
        low
    } else if below(high, x) {
        high
    } else {
        x
    }
}

/// The greater of the two, the other one where one is not a number.
pub open spec fn greater(a: Single, b: Single) -> Single {
    if a.nan() || below(a, b) {
        b
    } else {
        a
    }
}

/// The order of finite numbers is that of their values.
pub proof fn law_order_is_by_value(a: Single, b: Single)
    requires
        a.finite(),
        b.finite(),
    ensures
        below(a, b) <==> a.units() < b.units(),
        at_most(a, b) <==> a.units() <= b.units(),
        same(a, b) <==> a.units() == b.units(),
{
    lemma_units_order(a.magnitude(), b.magnitude());
    lemma_units_order(0, a.magnitude());
    lemma_units_order(0, b.magnitude());
}

impl Single {
    /// The place in the order.
    fn rank_of(self) -> (r: i64)
        ensures
            r == self.rank(),
    {
        let m = self.magnitude_bits();
        if self.is_negative() {
            -(m as i64)
        } else {
            m as i64
        }
    }

    /// `self < other`.
    pub fn less_than(self, other: Single) -> (r: bool)
        ensures
            r == below(self, other),
    {
        !self.is_nan() && !other.is_nan() && self.rank_of() < other.rank_of()
    }

    /// `self <= other`.
    pub fn no_more_than(self, other: Single) -> (r: bool)
        ensures
            r == at_most(self, other),
    {
        !self.is_nan() && !other.is_nan() && self.rank_of() <= other.rank_of()
    }

    /// `self` drawn into `low..=high`.
    pub fn clamp(self, low: Single, high: Single) -> (r: Single)
        ensures
            r == confined(self, low, high),
    {
        if self.less_than(low) {
            low
        } else if high.less_than(self) {
            high
        } else {
            self
        }
    }

    /// The greater of `self` and `other`.
    pub fn max(self, other: Single) -> (r: Single)
        ensures
            r == greater(self, other),
    {
        if self.is_nan() || self.less_than(other) {
            other
        } else {
            self
        }
    }
}

impl PartialEq for Single {
    fn eq(&self, other: &Single) -> (r: bool) {
        !self.is_nan() && !other.is_nan() && self.rank_of() == other.rank_of()
    }
}

impl vstd::std_specs::cmp::PartialEqSpecImpl for Single {
    open spec fn obeys_eq_spec() -> bool {
        true
    }

    open spec fn eq_spec(&self, other: &Single) -> bool {
        same(*self, *other)
    }
}

} // verus!
