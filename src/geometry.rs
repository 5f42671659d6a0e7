//! Points, rectangles and integer distances on the map grid.

use vstd::prelude::*;

verus! {

/// A coordinate on the map grid.
#[derive(Clone, Copy, Debug, PartialEq, Eq, Hash, Structural)]
pub struct Point {
    pub x: u32,
    pub y: u32,
}

/// Squared Euclidean distance between two points.
pub open spec fn dist_sq(p: Point, q: Point) -> nat {
    ((p.x - q.x) * (p.x - q.x) + (p.y - q.y) * (p.y - q.y)) as nat
}

/// The largest `r` with `r * r <= n`.
pub open spec fn floor_sqrt(n: nat) -> nat
    decreases n,
{
    if n == 0 {
        0
    } else {
        let r = floor_sqrt((n - 1) as nat);
        if (r + 1) * (r + 1) <= n {
            r + 1
        } else {
            r
        }
    }
}

/// Euclidean distance between two points, rounded down.
pub open spec fn distance(p: Point, q: Point) -> nat {
    floor_sqrt(dist_sq(p, q))
}

/// Chebyshev distance between two points: the number of king moves between them.
pub open spec fn king_distance(p: Point, q: Point) -> nat {
    let dx = if p.x >= q.x { p.x - q.x } else { q.x - p.x };
    let dy = if p.y >= q.y { p.y - q.y } else { q.y - p.y };
    if dx >= dy { dx as nat } else { dy as nat }
}

/// Whether two distinct points touch, sides or corners.
pub open spec fn adjacent(p: Point, q: Point) -> bool {
    p != q && king_distance(p, q) == 1
}

pub proof fn lemma_floor_sqrt(n: nat)
    ensures
        floor_sqrt(n) * floor_sqrt(n) <= n,
        n < (floor_sqrt(n) + 1) * (floor_sqrt(n) + 1),
    decreases n,
{
    if n > 0 {
        lemma_floor_sqrt((n - 1) as nat);
        let r = floor_sqrt((n - 1) as nat);
        if (r + 1) * (r + 1) <= n {
            assert(floor_sqrt(n) == r + 1);
            assert((r + 1) * (r + 1) < (r + 2) * (r + 2)) by (nonlinear_arith);
            assert(n < (r + 2) * (r + 2));
            assert((r + 2) == floor_sqrt(n) + 1);
            assert((floor_sqrt(n) + 1) * (floor_sqrt(n) + 1) == (r + 2) * (r + 2));
        } else {
            assert(floor_sqrt(n) == r);
        }
    } else {
        let s = floor_sqrt(n);
        assert(s == 0);
        assert((s + 1) * (s + 1) == 1) by (nonlinear_arith)
            requires
                s == 0,
        ;
    }
}

/// Only one natural number is the rounded-down square root of `n`.
pub proof fn lemma_floor_sqrt_unique(n: nat, r: nat)
    requires
        r * r <= n,
        n < (r + 1) * (r + 1),
    ensures
        floor_sqrt(n) == r,
{
    lemma_floor_sqrt(n);
    let s = floor_sqrt(n);
    if s < r {
        assert((s + 1) * (s + 1) <= r * r) by (nonlinear_arith)
            requires
                s + 1 <= r,
        ;
    } else if r < s {
        assert((r + 1) * (r + 1) <= s * s) by (nonlinear_arith)
            requires
                r + 1 <= s,
        ;
    }
}

impl Point {
    /// Creates a new point.
    pub fn new(x: u32, y: u32) -> (r: Point)
        ensures
            r.x == x,
            r.y == y,
    {
        Point { x, y }
    }

    /// Returns the first coordinate of the point.
    pub fn x(self) -> (r: u32)
        ensures
            r == self.x,
    {
        self.x
    }

    /// Returns the second coordinate of the point.
    pub fn y(self) -> (r: u32)
        ensures
            r == self.y,
    {
        self.y
    }

    /// Returns a new point shifted by `(dx, dy)`.
    ///
    /// A shift below zero is a caller error and is excluded by the precondition.
    pub fn translate(self, dx: i32, dy: i32) -> (r: Point)
        requires
            0 <= self.x + dx <= u32::MAX,
            0 <= self.y + dy <= u32::MAX,
        ensures
            r.x == self.x + dx,
            r.y == self.y + dy,
    {
        let x = (self.x as i64 + dx as i64) as u32;
        let y = (self.y as i64 + dy as i64) as u32;
        Point { x, y }
    }

    /// Shifts the point by `(dx, dy)`, or returns `None` where a coordinate would
    /// leave the range of `u32`.
    pub fn checked_translate(self, dx: i32, dy: i32) -> (r: Option<Point>)
        ensures
            r is Some <==> (0 <= self.x + dx <= u32::MAX && 0 <= self.y + dy <= u32::MAX),
            r is Some ==> r->0.x == self.x + dx && r->0.y == self.y + dy,
    {
        let x = self.x as i64 + dx as i64;
        let y = self.y as i64 + dy as i64;
        if 0 <= x && x <= u32::MAX as i64 && 0 <= y && y <= u32::MAX as i64 {
            Some(Point { x: x as u32, y: y as u32 })
        } else {
            None
        }
    }
}

/// Euclidean distance between two points, rounded down to the nearest integer.
pub fn distance_2d(p1: Point, p2: Point) -> (r: u64)
    ensures
        r == distance(p1, p2),
{
    let dx: u128 = if p1.x >= p2.x { (p1.x - p2.x) as u128 } else { (p2.x - p1.x) as u128 };
    let dy: u128 = if p1.y >= p2.y { (p1.y - p2.y) as u128 } else { (p2.y - p1.y) as u128 };
    assert(dx * dx <= 0xffff_ffff * 0xffff_ffffu128) by (nonlinear_arith)
        requires
            dx <= 0xffff_ffff,
    ;
    assert(dy * dy <= 0xffff_ffff * 0xffff_ffffu128) by (nonlinear_arith)
        requires
            dy <= 0xffff_ffff,
    ;
    let n: u128 = dx * dx + dy * dy;
    assert(n == dist_sq(p1, p2)) by (nonlinear_arith)
        requires
            dx == (if p1.x >= p2.x { p1.x - p2.x } else { p2.x - p1.x }),
            dy == (if p1.y >= p2.y { p1.y - p2.y } else { p2.y - p1.y }),
            n == dx * dx + dy * dy,
    ;
    // Binary search for the root: lo * lo <= n < hi * hi.
    let mut lo: u128 = 0;
    let mut hi: u128 = 0x2_0000_0000;
    assert(n < hi * hi) by (nonlinear_arith)
        requires
            n <= 2 * (0xffff_ffff * 0xffff_ffffu128),
            hi == 0x2_0000_0000u128,
    ;
    while hi - lo > 1
        invariant
            lo < hi <= 0x2_0000_0000,
            lo * lo <= n,
            n < hi * hi,
        decreases hi - lo,
    {
        let mid: u128 = lo + (hi - lo) / 2;
        assert(mid * mid <= 0x2_0000_0000u128 * 0x2_0000_0000u128) by (nonlinear_arith)
            requires
                mid <= 0x2_0000_0000u128,
        ;
        if mid * mid <= n {
            lo = mid;
        } else {
            hi = mid;
        }
    }
    proof {
        lemma_floor_sqrt_unique(n as nat, lo as nat);
        lemma_floor_sqrt(n as nat);
    }
    assert(lo <= 0xffff_ffff_ffff_ffff) by (nonlinear_arith)
        requires
            lo * lo <= n,
            n <= 2 * (0xffff_ffff * 0xffff_ffffu128),
    ;
    lo as u64
}

/// Whether `p` is one of the points of `v`.
pub fn contains_point(v: &Vec<Point>, p: Point) -> (r: bool)
    ensures
        r == v@.contains(p),
{
    let mut k: usize = 0;
    while k < v.len()
        invariant
            k <= v@.len(),
            forall|j: int| 0 <= j < k ==> v@[j] != p,
        decreases v@.len() - k,
    {
        if v[k] == p {
            return true;
        }
        k = k + 1;
    }
    false
}

/// An axis-aligned rectangle given by its bottom-left and top-right corners, both
/// included.
#[derive(Clone, Copy, Debug, PartialEq, Eq, Structural)]
pub struct Rect {
    pub bl: Point,
    pub tr: Point,
}

impl Rect {
    /// Whether the corners are in order.
    pub open spec fn wf(&self) -> bool {
        self.bl.x <= self.tr.x && self.bl.y <= self.tr.y
    }

    /// Whether two rectangles share at least one point, borders included.
    pub open spec fn overlaps(&self, o: Rect) -> bool {
        self.bl.x <= o.tr.x && self.tr.x >= o.bl.x && self.bl.y <= o.tr.y && self.tr.y >= o.bl.y
    }

    /// Whether `p` lies strictly inside the rectangle's border.
    pub open spec fn interior_contains(&self, p: Point) -> bool {
        self.bl.x < p.x < self.tr.x && self.bl.y < p.y < self.tr.y
    }

    pub open spec fn spec_center(&self) -> Point {
        Point {
            x: ((self.bl.x + self.tr.x) / 2) as u32,
            y: ((self.bl.y + self.tr.y) / 2) as u32,
        }
    }

    /// Builds a rectangle from its bottom-left corner, width and height.
    pub fn new(x: u32, y: u32, w: u32, h: u32) -> (r: Rect)
        requires
            w >= 1,
            h >= 1,
            x + w - 1 <= u32::MAX,
            y + h - 1 <= u32::MAX,
        ensures
            r.wf(),
            r.bl == (Point { x, y }),
            r.tr == (Point { x: (x + w - 1) as u32, y: (y + h - 1) as u32 }),
    {
        Rect { bl: Point { x, y }, tr: Point { x: x + (w - 1), y: y + (h - 1) } }
    }

    /// Returns the coordinate of the left side.
    pub fn left(&self) -> (r: u32)
        ensures
            r == self.bl.x,
    {
        self.bl.x
    }

    /// Returns the coordinate of the right side.
    pub fn right(&self) -> (r: u32)
        ensures
            r == self.tr.x,
    {
        self.tr.x
    }

    /// Returns the coordinate of the bottom side.
    pub fn bottom(&self) -> (r: u32)
        ensures
            r == self.bl.y,
    {
        self.bl.y
    }

    /// Returns the coordinate of the top side.
    pub fn top(&self) -> (r: u32)
        ensures
            r == self.tr.y,
    {
        self.tr.y
    }

    /// Returns the number of columns covered.
    pub fn width(&self) -> (r: u32)
        requires
            self.wf(),
            self.tr.x - self.bl.x < u32::MAX,
        ensures
            r == self.tr.x - self.bl.x + 1,
    {
        self.tr.x - self.bl.x + 1
    }

    /// Returns the number of rows covered.
    pub fn height(&self) -> (r: u32)
        requires
            self.wf(),
            self.tr.y - self.bl.y < u32::MAX,
        ensures
            r == self.tr.y - self.bl.y + 1,
    {
        self.tr.y - self.bl.y + 1
    }

    /// Returns true if `self` and `other` share a point.
    pub fn intersects(&self, other: &Rect) -> (r: bool)
        ensures
            r == self.overlaps(*other),
    {
        self.bl.x <= other.tr.x && self.tr.x >= other.bl.x && self.bl.y <= other.tr.y
            && self.tr.y >= other.bl.y
    }

    /// Returns the center of the rectangle, rounded down.
    pub fn center(&self) -> (r: Point)
        ensures
            r == self.spec_center(),
    {
        Point {
            x: ((self.bl.x as u64 + self.tr.x as u64) / 2) as u32,
            y: ((self.bl.y as u64 + self.tr.y as u64) / 2) as u32,
        }
    }
}

} // verus!
