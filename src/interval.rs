use crate::ray::T_MAX;
use vstd::prelude::*;

verus! {

/// A range of ray parameters. `contains` is closed, `surrounds` is open.
#[derive(Clone, Copy, Debug, PartialEq, Eq, Structural)]
pub struct Interval {
    pub max: i64,
    pub min: i64,
}

impl Interval {
    /// `x` lies in the closed range `[min, max]`.
    pub open spec fn admits(self, x: int) -> bool {
        self.min <= x <= self.max
    }

    /// Both ends lie within `[-T_MAX, T_MAX]`.
    pub open spec fn in_range(self) -> bool {
        -T_MAX <= self.min && self.max <= T_MAX
    }

    /// Built from its upper end first, then its lower end.
    pub fn new_from_values(max: i64, min: i64) -> (r: Interval)
        ensures
            r.max == max,
            r.min == min,
    {
        Interval { max, min }
    }

    /// The range that admits every value: `[i64::MIN, i64::MAX]`.
    pub fn universe() -> (r: Interval)
        ensures
            r.min == i64::MIN,
            r.max == i64::MAX,
            forall|x: int| i64::MIN <= x <= i64::MAX ==> #[trigger] r.admits(x),
    {
        Interval { max: i64::MAX, min: i64::MIN }
    }

    /// The inverted range that admits no value.
    pub fn empty() -> (r: Interval)
        ensures
            r.min == i64::MAX,
            r.max == i64::MIN,
            forall|x: int| !(#[trigger] r.admits(x)),
    {
        Interval { max: i64::MIN, min: i64::MAX }
    }

    /// The widest range of ray parameters the intersection code accepts:
    /// `[-T_MAX, T_MAX]`, a limit of the fixed-point range.
    pub fn ray_range() -> (r: Interval)
        ensures
            r.min == -T_MAX,
            r.max == T_MAX,
            r.in_range(),
    {
        Interval { max: T_MAX, min: -T_MAX }
    }

    pub fn size(&self) -> (r: i128)
        ensures
            r == self.max - self.min,
    {
        self.max as i128 - self.min as i128
    }

    pub fn contains(&self, x: i64) -> (r: bool)
        ensures
            r == (self.min <= x && x <= self.max),
            r == self.admits(x as int),
    {
        self.min <= x && x <= self.max
    }

    pub fn surrounds(&self, x: i64) -> (r: bool)
        ensures
            r == (self.min < x && x < self.max),
    {
        self.min < x && x < self.max
    }
}

} // verus!
