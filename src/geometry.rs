use vstd::prelude::*;

verus! {

/// Largest magnitude a coordinate may have. Keeping coordinates on this grid
/// lets every area and cost of the builder be computed exactly in `u128`.
pub const COORD_LIMIT: i32 = 1048576;

pub open spec fn in_range(c: int) -> bool {
    -COORD_LIMIT <= c <= COORD_LIMIT
}

/// An axis-aligned box given by its two corners; axis 0, 1, 2 is x, y, z.
#[derive(Clone, Copy, Debug)]
pub struct Bounds3i {
    pub p_min: [i32; 3],
    pub p_max: [i32; 3],
}

pub open spec fn min_int(a: int, b: int) -> int {
    if a <= b { a } else { b }
}

pub open spec fn max_int(a: int, b: int) -> int {
    if a >= b { a } else { b }
}

/// Lower corner on `axis` of the smallest box holding all of `s`; the empty
/// box's where `s` is empty.
pub open spec fn union_lo(s: Seq<Bounds3i>, axis: int) -> int
    decreases s.len(),
{
    if s.len() == 0 {
        i32::MAX as int
    } else {
        min_int(union_lo(s.drop_last(), axis), s.last().lo(axis))
    }
}

/// Upper corner on `axis` of the smallest box holding all of `s`; the empty
/// box's where `s` is empty.
pub open spec fn union_hi(s: Seq<Bounds3i>, axis: int) -> int
    decreases s.len(),
{
    if s.len() == 0 {
        i32::MIN as int
    } else {
        max_int(union_hi(s.drop_last(), axis), s.last().hi(axis))
    }
}

impl Bounds3i {
    /// Lower corner on `axis`.
    pub open spec fn lo(&self, axis: int) -> int {
        self.p_min@[axis] as int
    }

    /// Upper corner on `axis`.
    pub open spec fn hi(&self, axis: int) -> int {
        self.p_max@[axis] as int
    }

    /// Extent on `axis`.
    pub open spec fn extent(&self, axis: int) -> int {
        self.hi(axis) - self.lo(axis)
    }

    /// Both corners in order on every axis.
    pub open spec fn is_valid(&self) -> bool {
        &&& self.lo(0) <= self.hi(0)
        &&& self.lo(1) <= self.hi(1)
        &&& self.lo(2) <= self.hi(2)
    }

    /// Every coordinate lies on the grid.
    pub open spec fn in_grid(&self) -> bool {
        &&& in_range(self.lo(0)) && in_range(self.lo(1)) && in_range(self.lo(2))
        &&& in_range(self.hi(0)) && in_range(self.hi(1)) && in_range(self.hi(2))
    }

    /// A valid box on the grid.
    pub open spec fn well_formed(&self) -> bool {
        self.is_valid() && self.in_grid()
    }

    /// `self` is the smallest box holding both `a` and `b`.
    pub open spec fn is_union_of(&self, a: Bounds3i, b: Bounds3i) -> bool {
        forall|axis: int|
            0 <= axis < 3 ==> #[trigger] self.lo(axis) == min_int(a.lo(axis), b.lo(axis))
                && self.hi(axis) == max_int(a.hi(axis), b.hi(axis))
    }

    /// `self` and `o` have the same corners.
    pub open spec fn same_box(&self, o: Bounds3i) -> bool {
        forall|axis: int|
            0 <= axis < 3 ==> #[trigger] self.lo(axis) == o.lo(axis) && self.hi(axis) == o.hi(axis)
    }

    /// Twice the sum of the face areas.
    pub open spec fn surface_area(&self) -> int {
        2 * (self.extent(0) * self.extent(1) + self.extent(1) * self.extent(2) + self.extent(2)
            * self.extent(0))
    }

    /// The box that holds nothing: its lower corner is above every coordinate
    /// and its upper corner below, so that a union with it changes nothing.
    pub fn empty() -> (r: Bounds3i)
        ensures
            forall|axis: int|
                0 <= axis < 3 ==> #[trigger] r.lo(axis) == i32::MAX && r.hi(axis) == i32::MIN,
    {
        Bounds3i { p_min: [i32::MAX, i32::MAX, i32::MAX], p_max: [i32::MIN, i32::MIN, i32::MIN] }
    }

    /// The smallest box holding `self` and `o`.
    pub fn union(&self, o: &Bounds3i) -> (r: Bounds3i)
        ensures
            r.is_union_of(*self, *o),
    {
        let r = Bounds3i {
            p_min: [
                if self.p_min[0] <= o.p_min[0] { self.p_min[0] } else { o.p_min[0] },
                if self.p_min[1] <= o.p_min[1] { self.p_min[1] } else { o.p_min[1] },
                if self.p_min[2] <= o.p_min[2] { self.p_min[2] } else { o.p_min[2] },
            ],
            p_max: [
                if self.p_max[0] >= o.p_max[0] { self.p_max[0] } else { o.p_max[0] },
                if self.p_max[1] >= o.p_max[1] { self.p_max[1] } else { o.p_max[1] },
                if self.p_max[2] >= o.p_max[2] { self.p_max[2] } else { o.p_max[2] },
            ],
        };
        assert(r.is_union_of(*self, *o)) by {
            assert forall|axis: int| 0 <= axis < 3 implies #[trigger] r.lo(axis) == min_int(
                self.lo(axis),
                o.lo(axis),
            ) && r.hi(axis) == max_int(self.hi(axis), o.hi(axis)) by {
                if axis == 0 {
                } else if axis == 1 {
                } else {
                }
            }
        }
        r
    }

    /// The axis of greatest extent; ties go to the later axis.
    pub open spec fn spec_maximum_extent(&self) -> int {
        if self.extent(0) > self.extent(1) && self.extent(0) > self.extent(2) {
            0
        } else if self.extent(1) > self.extent(2) {
            1
        } else {
            2
        }
    }

    pub fn maximum_extent(&self) -> (r: usize)
        requires
            self.in_grid(),
        ensures
            r as int == self.spec_maximum_extent(),
    {
        let dx = self.p_max[0] as i64 - self.p_min[0] as i64;
        let dy = self.p_max[1] as i64 - self.p_min[1] as i64;
        let dz = self.p_max[2] as i64 - self.p_min[2] as i64;
        if dx > dy && dx > dz {
            0
        } else if dy > dz {
            1
        } else {
            2
        }
    }

    /// `self` with its upper corner on `axis` moved to `t`.
    pub open spec fn cut_hi(&self, axis: int, t: i32) -> Bounds3i {
        Bounds3i {
            p_min: self.p_min,
            p_max: [
                if axis == 0 { t } else { self.p_max[0] },
                if axis == 1 { t } else { self.p_max[1] },
                if axis == 2 { t } else { self.p_max[2] },
            ],
        }
    }

    /// `self` with its lower corner on `axis` moved to `t`.
    pub open spec fn cut_lo(&self, axis: int, t: i32) -> Bounds3i {
        Bounds3i {
            p_min: [
                if axis == 0 { t } else { self.p_min[0] },
                if axis == 1 { t } else { self.p_min[1] },
                if axis == 2 { t } else { self.p_min[2] },
            ],
            p_max: self.p_max,
        }
    }

    /// `self` with its upper corner on `axis` moved to `t`.
    pub fn with_hi(&self, axis: usize, t: i32) -> (r: Bounds3i)
        requires
            axis < 3,
        ensures
            r == self.cut_hi(axis as int, t),
            forall|a: int| 0 <= a < 3 ==> #[trigger] r.lo(a) == self.lo(a),
            forall|a: int|
                0 <= a < 3 ==> #[trigger] r.hi(a) == (if a == axis {
                    t as int
                } else {
                    self.hi(a)
                }),
    {
        Bounds3i {
            p_min: self.p_min,
            p_max: [
                if axis == 0 { t } else { self.p_max[0] },
                if axis == 1 { t } else { self.p_max[1] },
                if axis == 2 { t } else { self.p_max[2] },
            ],
        }
    }

    /// `self` with its lower corner on `axis` moved to `t`.
    pub fn with_lo(&self, axis: usize, t: i32) -> (r: Bounds3i)
        requires
            axis < 3,
        ensures
            r == self.cut_lo(axis as int, t),
            forall|a: int| 0 <= a < 3 ==> #[trigger] r.hi(a) == self.hi(a),
            forall|a: int|
                0 <= a < 3 ==> #[trigger] r.lo(a) == (if a == axis {
                    t as int
                } else {
                    self.lo(a)
                }),
    {
        Bounds3i {
            p_min: [
                if axis == 0 { t } else { self.p_min[0] },
                if axis == 1 { t } else { self.p_min[1] },
                if axis == 2 { t } else { self.p_min[2] },
            ],
            p_max: self.p_max,
        }
    }
}

} // verus!
