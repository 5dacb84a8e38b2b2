use crate::scale::rank;
use crate::scale::rank_of;
use vstd::prelude::*;

verus! {

/// A position in the plane.
#[derive(Clone, Copy, Debug, PartialEq, Eq, Structural)]
pub struct Point {
    pub x: i64,
    pub y: i64,
}

/// An axis-aligned box, given by its extreme coordinates on each axis.
#[derive(Clone, Copy, Debug, PartialEq, Eq, Structural)]
pub struct BoundingBox {
    pub min_x: i64,
    pub max_x: i64,
    pub min_y: i64,
    pub max_y: i64,
}

/// The smaller of two coordinates; the first where they have one place.
pub open spec fn lesser(a: i64, b: i64) -> i64 {
    if rank(b) < rank(a) {
        b
    } else {
        a
    }
}

/// The larger of two coordinates; the first where they have one place.
pub open spec fn greater(a: i64, b: i64) -> i64 {
    if rank(b) > rank(a) {
        b
    } else {
        a
    }
}

impl BoundingBox {
    /// The box that holds exactly one point.
    pub open spec fn around(p: Point) -> BoundingBox {
        BoundingBox { min_x: p.x, max_x: p.x, min_y: p.y, max_y: p.y }
    }

    /// This box grown just enough to hold `p`.
    pub open spec fn extended(self, p: Point) -> BoundingBox {
        BoundingBox {
            min_x: lesser(self.min_x, p.x),
            max_x: greater(self.max_x, p.x),
            min_y: lesser(self.min_y, p.y),
            max_y: greater(self.max_y, p.y),
        }
    }

    /// Whether `p` lies inside the box, borders included.
    pub open spec fn holds(self, p: Point) -> bool {
        &&& rank(self.min_x) <= rank(p.x) <= rank(self.max_x)
        &&& rank(self.min_y) <= rank(p.y) <= rank(self.max_y)
    }

    /// The box of the non-empty run of points `points`.
    pub open spec fn of(points: Seq<Point>) -> BoundingBox
        decreases points.len(),
    {
        if points.len() <= 1 {
            BoundingBox::around(points[0])
        } else {
            BoundingBox::of(points.drop_last()).extended(points.last())
        }
    }

    /// Builds the box around a single point.
    pub fn from_point(p: Point) -> (b: BoundingBox)
        ensures
            b == BoundingBox::around(p),
    {
        BoundingBox { min_x: p.x, max_x: p.x, min_y: p.y, max_y: p.y }
    }

    /// Grows the box in place so that it holds `p`.
    pub fn absorb(&mut self, p: Point)
        ensures
            *final(self) == old(self).extended(p),
    {
        if rank_of(p.x) < rank_of(self.min_x) {
            self.min_x = p.x;
        }
        if rank_of(p.x) > rank_of(self.max_x) {
            self.max_x = p.x;
        }
        if rank_of(p.y) < rank_of(self.min_y) {
            self.min_y = p.y;
        }
        if rank_of(p.y) > rank_of(self.max_y) {
            self.max_y = p.y;
        }
    }
}

/// The box of a run of points holds each of them, and each of its borders
/// runs through one of them.
pub proof fn lemma_box_is_tight(points: Seq<Point>)
    requires
        points.len() > 0,
    ensures
        forall|i: int| 0 <= i < points.len() ==> BoundingBox::of(points).holds(#[trigger] points[i]),
        exists|i: int| 0 <= i < points.len() && (#[trigger] points[i]).x == BoundingBox::of(points).min_x,
        exists|i: int| 0 <= i < points.len() && (#[trigger] points[i]).x == BoundingBox::of(points).max_x,
        exists|i: int| 0 <= i < points.len() && (#[trigger] points[i]).y == BoundingBox::of(points).min_y,
        exists|i: int| 0 <= i < points.len() && (#[trigger] points[i]).y == BoundingBox::of(points).max_y,
    decreases points.len(),
{
    let whole = BoundingBox::of(points);
    if points.len() == 1 {
        assert(points[0].x == whole.min_x && points[0].x == whole.max_x);
        assert(points[0].y == whole.min_y && points[0].y == whole.max_y);
    } else {
        let front = points.drop_last();
        let last = points.len() - 1;
        lemma_box_is_tight(front);
        let inner = BoundingBox::of(front);
        assert forall|i: int| 0 <= i < points.len() implies whole.holds(#[trigger] points[i]) by {
            if i < last {
                assert(inner.holds(front[i]));
            }
        }
        let at_min_x = choose|i: int| 0 <= i < front.len() && (#[trigger] front[i]).x == inner.min_x;
        let at_max_x = choose|i: int| 0 <= i < front.len() && (#[trigger] front[i]).x == inner.max_x;
        let at_min_y = choose|i: int| 0 <= i < front.len() && (#[trigger] front[i]).y == inner.min_y;
        let at_max_y = choose|i: int| 0 <= i < front.len() && (#[trigger] front[i]).y == inner.max_y;
        assert(points[at_min_x].x == whole.min_x || points[last].x == whole.min_x);
        assert(points[at_max_x].x == whole.max_x || points[last].x == whole.max_x);
        assert(points[at_min_y].y == whole.min_y || points[last].y == whole.min_y);
        assert(points[at_max_y].y == whole.max_y || points[last].y == whole.max_y);
    }
}

} // verus!
