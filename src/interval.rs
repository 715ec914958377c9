use vstd::prelude::*;

verus! {

/// A closed interval `[min, max]` of order keys (see `crate::key`): the keys of
/// the interval's real end points, so that the order of keys is the order of
/// the real numbers they stand for.
#[derive(Debug, Clone, Copy, PartialEq, Eq, Structural)]
pub struct Interval {
    pub min: u64,
    pub max: u64,
}

impl Interval {
    /// The bounds are in order.
    pub open spec fn wf(self) -> bool {
        self.min <= self.max
    }

    pub open spec fn spec_contains(self, t: u64) -> bool {
        self.min <= t <= self.max
    }

    pub open spec fn spec_union(i0: Interval, i1: Interval) -> Interval {
        Interval {
            min: if i0.min <= i1.min { i0.min } else { i1.min },
            max: if i0.max >= i1.max { i0.max } else { i1.max },
        }
    }

    /// The interval `[min, max]`; the bounds must be in order.
    pub fn new(min: u64, max: u64) -> (r: Interval)
        requires
            min <= max,
        ensures
            r == (Interval { min, max }),
            r.wf(),
    {
        Interval { min, max }
    }

    /// The smallest interval that holds both.
    pub fn union(i0: Interval, i1: Interval) -> (r: Interval)
        ensures
            r == Interval::spec_union(i0, i1),
            i0.wf() && i1.wf() ==> r.wf(),
    {
        let min = if i0.min <= i1.min { i0.min } else { i1.min };
        let max = if i0.max >= i1.max { i0.max } else { i1.max };
        Interval { min, max }
    }

    /// Whether `t` lies in the interval, bounds included.
    pub fn contains(&self, t: u64) -> (r: bool)
        ensures
            r == self.spec_contains(t),
    {
        self.min <= t && t <= self.max
    }
}

} // verus!
