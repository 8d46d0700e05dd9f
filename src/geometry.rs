//! Points, axis-aligned rectangles and the capability of having a position.
use vstd::prelude::*;

verus! {

/// A position in the plane, on an integer grid.
#[derive(Clone, Copy, Debug, PartialEq, Eq, Structural)]
pub struct Point {
    pub x: i64,
    pub y: i64,
}

impl Point {
    pub fn new(x: i64, y: i64) -> (r: Point)
        ensures
            r.x == x,
            r.y == y,
    {
        Point { x, y }
    }
}

/// A value that has a position in the plane.
pub trait Positioned {
    /// The position of the value, as a mathematical object.
    spec fn spec_position(&self) -> Point;

    fn position(&self) -> (r: Point)
        ensures
            r == self.spec_position(),
    ;
}

impl Positioned for Point {
    open spec fn spec_position(&self) -> Point {
        *self
    }

    fn position(&self) -> (r: Point) {
        *self
    }
}

/// An axis-aligned rectangle given by its center and its half-extent along
/// each axis. It covers the closed intervals
/// `[center.x - half_dim.x, center.x + half_dim.x]` and
/// `[center.y - half_dim.y, center.y + half_dim.y]`.
#[derive(Clone, Copy, Debug, PartialEq, Eq, Structural)]
pub struct Rectangle {
    pub center: Point,
    pub half_dim: Point,
}

/// Number of the quadrant `(px - hx/2, py - hy/2)`.
pub const NORTH_WEST: usize = 0;

/// Number of the quadrant `(px + hx/2, py - hy/2)`.
pub const NORTH_EAST: usize = 1;

/// Number of the quadrant `(px - hx/2, py + hy/2)`.
pub const SOUTH_WEST: usize = 2;

/// Number of the quadrant `(px + hx/2, py + hy/2)`.
pub const SOUTH_EAST: usize = 3;

impl Rectangle {
    pub fn new(center: Point, half_dim: Point) -> (r: Rectangle)
        ensures
            r.center == center,
            r.half_dim == half_dim,
    {
        Rectangle { center, half_dim }
    }

    /// The half-extents are not negative and every edge of the rectangle
    /// lies on the `i64` grid.
    pub open spec fn wf(self) -> bool {
        &&& 0 <= self.half_dim.x
        &&& 0 <= self.half_dim.y
        &&& i64::MIN <= self.center.x - self.half_dim.x
        &&& self.center.x + self.half_dim.x <= i64::MAX
        &&& i64::MIN <= self.center.y - self.half_dim.y
        &&& self.center.y + self.half_dim.y <= i64::MAX
    }

    /// `p` lies within the closed bounds of the rectangle.
    pub open spec fn spec_contains(self, p: Point) -> bool {
        &&& self.center.x - self.half_dim.x <= p.x <= self.center.x + self.half_dim.x
        &&& self.center.y - self.half_dim.y <= p.y <= self.center.y + self.half_dim.y
    }

    /// The closed intervals of the two rectangles overlap on both axes
    /// (touching edges count as overlap).
    pub open spec fn spec_intersects(self, o: Rectangle) -> bool {
        &&& self.center.x - self.half_dim.x <= o.center.x + o.half_dim.x
        &&& o.center.x - o.half_dim.x <= self.center.x + self.half_dim.x
        &&& self.center.y - self.half_dim.y <= o.center.y + o.half_dim.y
        &&& o.center.y - o.half_dim.y <= self.center.y + self.half_dim.y
    }

    /// Every point of `o` is a point of this rectangle.
    pub open spec fn spec_covers(self, o: Rectangle) -> bool {
        &&& self.center.x - self.half_dim.x <= o.center.x - o.half_dim.x
        &&& o.center.x + o.half_dim.x <= self.center.x + self.half_dim.x
        &&& self.center.y - self.half_dim.y <= o.center.y - o.half_dim.y
        &&& o.center.y + o.half_dim.y <= self.center.y + self.half_dim.y
    }

    /// Quadrant `i` of the rectangle (north-west, north-east, south-west,
    /// south-east for `i` = 0, 1, 2, 3): its center is this one's center
    /// moved by half the half-extent, rounded down, on each axis, and its
    /// half-extent is half of this one's, rounded up, so that the four
    /// quadrants cover the rectangle even when a half-extent is odd.
    pub open spec fn quadrant(self, i: int) -> Rectangle {
        let dx = self.half_dim.x / 2;
        let dy = self.half_dim.y / 2;
        let cx = if i == 0 || i == 2 { self.center.x - dx } else { self.center.x + dx };
        let cy = if i == 0 || i == 1 { self.center.y - dy } else { self.center.y + dy };
        Rectangle {
            center: Point { x: cx as i64, y: cy as i64 },
            half_dim: Point { x: (self.half_dim.x - dx) as i64, y: (self.half_dim.y - dy) as i64 },
        }
    }

    /// The first quadrant, in the order north-west, north-east, south-west,
    /// south-east, that contains `p` (the last one if none does).
    pub open spec fn first_quadrant_containing(self, p: Point) -> int {
        if self.quadrant(0).spec_contains(p) {
            0
        } else if self.quadrant(1).spec_contains(p) {
            1
        } else if self.quadrant(2).spec_contains(p) {
            2
        } else {
            3
        }
    }

    /// Both half-extents are even, so halving them is exact.
    pub open spec fn splits_exactly(self) -> bool {
        self.half_dim.x % 2 == 0 && self.half_dim.y % 2 == 0
    }

    /// Whether the position of `entry` lies within the closed bounds of the
    /// rectangle.
    pub fn contains<P: Positioned>(&self, entry: &P) -> (r: bool)
        ensures
            r == self.spec_contains(entry.spec_position()),
    {
        let p = entry.position();
        let cx = self.center.x as i128;
        let cy = self.center.y as i128;
        let hx = self.half_dim.x as i128;
        let hy = self.half_dim.y as i128;
        let x = p.x as i128;
        let y = p.y as i128;
        cx - hx <= x && x <= cx + hx && cy - hy <= y && y <= cy + hy
    }

    /// Whether the two rectangles overlap, touching edges included.
    pub fn intersects(&self, other: &Rectangle) -> (r: bool)
        ensures
            r == self.spec_intersects(*other),
    {
        let ax = self.center.x as i128;
        let ay = self.center.y as i128;
        let ahx = self.half_dim.x as i128;
        let ahy = self.half_dim.y as i128;
        let bx = other.center.x as i128;
        let by = other.center.y as i128;
        let bhx = other.half_dim.x as i128;
        let bhy = other.half_dim.y as i128;
        ax - ahx <= bx + bhx && bx - bhx <= ax + ahx && ay - ahy <= by + bhy && by - bhy <= ay
            + ahy
    }

    /// Quadrant `i` of a well-formed rectangle (see `quadrant`).
    pub fn quadrant_of(&self, i: usize) -> (r: Rectangle)
        requires
            self.wf(),
            i < 4,
        ensures
            r == self.quadrant(i as int),
            r.wf(),
            self.spec_covers(r),
    {
        let dx = self.half_dim.x / 2;
        let dy = self.half_dim.y / 2;
        let cx = if i == NORTH_WEST || i == SOUTH_WEST {
            self.center.x - dx
        } else {
            self.center.x + dx
        };
        let cy = if i == NORTH_WEST || i == NORTH_EAST {
            self.center.y - dy
        } else {
            self.center.y + dy
        };
        Rectangle {
            center: Point { x: cx, y: cy },
            half_dim: Point { x: self.half_dim.x - dx, y: self.half_dim.y - dy },
        }
    }
}

/// The quadrants of a well-formed rectangle with center `(px, py)` and
/// half-extent `(hx, hy)` have centers `(px - hx / 2, py - hy / 2)`,
/// `(px + hx / 2, py - hy / 2)`, `(px - hx / 2, py + hy / 2)` and
/// `(px + hx / 2, py + hy / 2)`, and half-extent `(hx / 2, hy / 2)` where
/// halving is exact (rounded up otherwise). Each is well-formed and lies
/// within the rectangle, and every point of the rectangle lies in one of them.
pub proof fn lemma_quadrants_tile(r: Rectangle)
    requires
        r.wf(),
    ensures
        forall|i: int|
            0 <= i < 4 ==> {
                &&& (#[trigger] r.quadrant(i)).half_dim.x == r.half_dim.x - r.half_dim.x / 2
                &&& r.quadrant(i).half_dim.y == r.half_dim.y - r.half_dim.y / 2
                &&& r.splits_exactly() ==> r.quadrant(i).half_dim.x == r.half_dim.x / 2
                    && r.quadrant(i).half_dim.y == r.half_dim.y / 2
                &&& r.quadrant(i).wf()
                &&& r.spec_covers(r.quadrant(i))
            },
        r.quadrant(0).center.x == r.center.x - r.half_dim.x / 2,
        r.quadrant(0).center.y == r.center.y - r.half_dim.y / 2,
        r.quadrant(1).center.x == r.center.x + r.half_dim.x / 2,
        r.quadrant(1).center.y == r.center.y - r.half_dim.y / 2,
        r.quadrant(2).center.x == r.center.x - r.half_dim.x / 2,
        r.quadrant(2).center.y == r.center.y + r.half_dim.y / 2,
        r.quadrant(3).center.x == r.center.x + r.half_dim.x / 2,
        r.quadrant(3).center.y == r.center.y + r.half_dim.y / 2,
        forall|p: Point| #[trigger]
            r.spec_contains(p) ==> r.quadrant(r.first_quadrant_containing(p)).spec_contains(p),
{
    assert forall|p: Point| #[trigger] r.spec_contains(p) implies r.quadrant(
        r.first_quadrant_containing(p),
    ).spec_contains(p) by {
        let i: int = if p.x <= r.center.x {
            if p.y <= r.center.y { 0 } else { 2 }
        } else {
            if p.y <= r.center.y { 1 } else { 3 }
        };
        assert(r.quadrant(i).spec_contains(p));
    }
}

} // verus!
