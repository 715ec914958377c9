use vstd::prelude::*;
use crate::axis::Axis;
use crate::interval::Interval;

verus! {

/// A point, as the order keys of its three coordinates.
pub type Point = (u64, u64, u64);

/// An axis-aligned bounding box: the interval of order keys that it covers on
/// each axis.
#[derive(Debug, Clone, Copy, PartialEq, Eq, Structural)]
pub struct AABB {
    pub x: Interval,
    pub y: Interval,
    pub z: Interval,
}

impl AABB {
    /// Each axis interval has its bounds in order.
    pub open spec fn wf(self) -> bool {
        self.x.wf() && self.y.wf() && self.z.wf()
    }

    pub open spec fn spec_axis(self, a: Axis) -> Interval {
        match a {
            Axis::X => self.x,
            Axis::Y => self.y,
            Axis::Z => self.z,
        }
    }

    pub open spec fn spec_contains(self, p: Point) -> bool {
        self.x.spec_contains(p.0) && self.y.spec_contains(p.1) && self.z.spec_contains(p.2)
    }

    /// Every point of `self` lies in `other`.
    pub open spec fn within(self, other: AABB) -> bool {
        forall|p: Point| #[trigger] self.spec_contains(p) ==> other.spec_contains(p)
    }

    pub open spec fn spec_union(bb1: AABB, bb2: AABB) -> AABB {
        AABB {
            x: Interval::spec_union(bb1.x, bb2.x),
            y: Interval::spec_union(bb1.y, bb2.y),
            z: Interval::spec_union(bb1.z, bb2.z),
        }
    }

    pub open spec fn spec_union_all(bbs: Seq<AABB>) -> AABB
        decreases bbs.len(),
    {
        if bbs.len() <= 1 {
            bbs[0]
        } else {
            AABB::spec_union(AABB::spec_union_all(bbs.drop_last()), bbs.last())
        }
    }

    pub open spec fn spec_from_points(v1: Point, v2: Point) -> AABB {
        AABB {
            x: Interval::spec_union(Interval { min: v1.0, max: v1.0 }, Interval { min: v2.0, max: v2.0 }),
            y: Interval::spec_union(Interval { min: v1.1, max: v1.1 }, Interval { min: v2.1, max: v2.1 }),
            z: Interval::spec_union(Interval { min: v1.2, max: v1.2 }, Interval { min: v2.2, max: v2.2 }),
        }
    }

    /// The interval that the box covers on axis `a`.
    pub fn axis(&self, a: Axis) -> (r: Interval)
        ensures
            r == self.spec_axis(a),
    {
        match a {
            Axis::X => self.x,
            Axis::Y => self.y,
            Axis::Z => self.z,
        }
    }

    /// The low end of the box on axis `a`: the key by which boxes are ordered
    /// along that axis.
    pub fn axis_min(&self, a: Axis) -> (r: u64)
        ensures
            r == self.spec_axis(a).min,
    {
        self.axis(a).min
    }

    /// The low corner.
    pub fn min(&self) -> (r: Point)
        ensures
            r == (self.x.min, self.y.min, self.z.min),
    {
        (self.x.min, self.y.min, self.z.min)
    }

    /// The high corner.
    pub fn max(&self) -> (r: Point)
        ensures
            r == (self.x.max, self.y.max, self.z.max),
    {
        (self.x.max, self.y.max, self.z.max)
    }

    /// Whether the box holds `p`, faces included.
    pub fn contains(&self, p: Point) -> (r: bool)
        ensures
            r == self.spec_contains(p),
    {
        self.x.contains(p.0) && self.y.contains(p.1) && self.z.contains(p.2)
    }

    /// The smallest box that holds both corners, in either order.
    pub fn from_points(v1: Point, v2: Point) -> (r: AABB)
        ensures
            r == AABB::spec_from_points(v1, v2),
            r.wf(),
            r.spec_contains(v1),
            r.spec_contains(v2),
    {
        let x = if v1.0 <= v2.0 { Interval::new(v1.0, v2.0) } else { Interval::new(v2.0, v1.0) };
        let y = if v1.1 <= v2.1 { Interval::new(v1.1, v2.1) } else { Interval::new(v2.1, v1.1) };
        let z = if v1.2 <= v2.2 { Interval::new(v1.2, v2.2) } else { Interval::new(v2.2, v1.2) };
        AABB { x, y, z }
    }

    /// The smallest box that holds both boxes.
    pub fn union(bb1: &AABB, bb2: &AABB) -> (r: AABB)
        ensures
            r == AABB::spec_union(*bb1, *bb2),
            bb1.wf() && bb2.wf() ==> r.wf(),
    {
        AABB {
            x: Interval::union(bb1.x, bb2.x),
            y: Interval::union(bb1.y, bb2.y),
            z: Interval::union(bb1.z, bb2.z),
        }
    }

    /// The smallest box that holds every box of a non-empty list.
    pub fn union_all(bbs: &Vec<AABB>) -> (r: AABB)
        requires
            bbs.len() >= 1,
        ensures
            r == AABB::spec_union_all(bbs@),
    {
        let mut bb = bbs[0];
        let mut i: usize = 1;
        while i < bbs.len()
            invariant
                1 <= i <= bbs.len(),
                bb == AABB::spec_union_all(bbs@.subrange(0, i as int)),
            decreases bbs.len() - i,
        {
            proof {
                let s = bbs@.subrange(0, i as int + 1);
                assert(s.drop_last() =~= bbs@.subrange(0, i as int));
            }
            bb = AABB::union(&bb, &bbs[i]);
            i = i + 1;
        }
        assert(bbs@.subrange(0, bbs.len() as int) =~= bbs@);
        bb
    }
}

/// The union of two boxes is the smallest box that holds both: it holds every
/// point of either, and any box that holds every point of both holds all of it.
pub proof fn lemma_union_smallest(a: AABB, b: AABB)
    requires
        a.wf(),
        b.wf(),
    ensures
        a.within(AABB::spec_union(a, b)),
        b.within(AABB::spec_union(a, b)),
        forall|c: AABB| a.within(c) && b.within(c) ==> #[trigger] AABB::spec_union(a, b).within(c),
{
    let u = AABB::spec_union(a, b);
    assert forall|c: AABB| a.within(c) && b.within(c) implies #[trigger] AABB::spec_union(a, b).within(c) by {
        assert(a.spec_contains((a.x.min, a.y.min, a.z.min)));
        assert(a.spec_contains((a.x.max, a.y.max, a.z.max)));
        assert(b.spec_contains((b.x.min, b.y.min, b.z.min)));
        assert(b.spec_contains((b.x.max, b.y.max, b.z.max)));
    }
}

/// Every box of a non-empty list lies in their union, and any box that holds
/// all of them holds the union.
pub proof fn lemma_union_all_smallest(bbs: Seq<AABB>)
    requires
        bbs.len() >= 1,
        forall|k: int| 0 <= k < bbs.len() ==> (#[trigger] bbs[k]).wf(),
    ensures
        AABB::spec_union_all(bbs).wf(),
        forall|k: int| 0 <= k < bbs.len() ==> (#[trigger] bbs[k]).within(AABB::spec_union_all(bbs)),
        forall|c: AABB|
            (forall|k: int| 0 <= k < bbs.len() ==> (#[trigger] bbs[k]).within(c)) ==> #[trigger] AABB::spec_union_all(bbs).within(c),
    decreases bbs.len(),
{
    if bbs.len() > 1 {
        let init = bbs.drop_last();
        lemma_union_all_smallest(init);
        let u0 = AABB::spec_union_all(init);
        lemma_union_smallest(u0, bbs.last());
        assert forall|k: int| 0 <= k < bbs.len() implies (#[trigger] bbs[k]).within(AABB::spec_union_all(bbs)) by {
            if k < bbs.len() - 1 {
                assert(init[k] == bbs[k]);
            }
        }
        assert forall|c: AABB|
            (forall|k: int| 0 <= k < bbs.len() ==> (#[trigger] bbs[k]).within(c)) implies #[trigger] AABB::spec_union_all(bbs).within(c) by {
            assert forall|k: int| 0 <= k < init.len() implies (#[trigger] init[k]).within(c) by {
                assert(init[k] == bbs[k]);
            }
            assert(bbs[bbs.len() - 1].within(c));
        }
    }
}

} // verus!
