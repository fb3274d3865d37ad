use vstd::prelude::*;

verus! {

/// Largest magnitude of a coordinate that the geometry routines accept.
pub const COORD_LIMIT: i64 = 0x100_0000_0000;

/// A point of the integer lattice the level is built on.
#[derive(Clone, Copy, Debug, PartialEq, Eq, Structural)]
pub struct Point {
    pub x: i64,
    pub y: i64,
}

/// A directed line segment from `start` to `end`.
#[derive(Clone, Copy, Debug, PartialEq, Eq, Structural)]
pub struct Segment {
    pub start: Point,
    pub end: Point,
}

pub open spec fn in_range(p: Point) -> bool {
    -COORD_LIMIT <= p.x <= COORD_LIMIT && -COORD_LIMIT <= p.y <= COORD_LIMIT
}

pub open spec fn segment_in_range(s: Segment) -> bool {
    in_range(s.start) && in_range(s.end)
}

/// `a.x * b.y - a.y * b.x` over unbounded integers.
pub open spec fn cross_spec(ax: int, ay: int, bx: int, by: int) -> int {
    ax * by - ay * bx
}

/// Sign of an integer: -1, 0 or 1.
pub open spec fn sign(v: int) -> int {
    if v > 0 {
        1
    } else if v < 0 {
        -1
    } else {
        0
    }
}

/// Cross product of the vectors `b - a` and `d - c`.
pub open spec fn cross_of(a: Point, b: Point, c: Point, d: Point) -> int {
    cross_spec(b.x - a.x, b.y - a.y, d.x - c.x, d.y - c.y)
}

/// Twice the signed area spanned by `a`, `b` and `p`: positive when `p` lies to
/// the left of the directed line `a -> b`.
pub open spec fn orient(a: Point, b: Point, p: Point) -> int {
    cross_of(a, b, a, p)
}

proof fn lemma_product_bound(a: int, b: int, k: int)
    requires
        0 <= k,
        -k <= a <= k,
        -k <= b <= k,
    ensures
        -(k * k) <= a * b <= k * k,
{
    assert(-(k * k) <= a * b <= k * k) by (nonlinear_arith)
        requires
            0 <= k,
            -k <= a <= k,
            -k <= b <= k,
    ;
}

/// Cross product of the vectors `(ax, ay)` and `(bx, by)`.
pub fn cross_product(ax: i64, ay: i64, bx: i64, by: i64) -> (r: i128)
    requires
        -2 * COORD_LIMIT <= ax <= 2 * COORD_LIMIT,
        -2 * COORD_LIMIT <= ay <= 2 * COORD_LIMIT,
        -2 * COORD_LIMIT <= bx <= 2 * COORD_LIMIT,
        -2 * COORD_LIMIT <= by <= 2 * COORD_LIMIT,
    ensures
        r == cross_spec(ax as int, ay as int, bx as int, by as int),
{
    proof {
        let k: int = 0x200_0000_0000;
        assert(k * k == 0x4_0000_0000_0000_0000_0000int);
        lemma_product_bound(ax as int, by as int, k);
        lemma_product_bound(ay as int, bx as int, k);
    }
    (ax as i128) * (by as i128) - (ay as i128) * (bx as i128)
}

/// Which side of the directed line `line_start -> line_end` the point lies on:
/// 1 to the left, -1 to the right, 0 on the line.
pub fn side_of_line_detection(line_start: Point, line_end: Point, point: Point) -> (r: i8)
    requires
        in_range(line_start),
        in_range(line_end),
        in_range(point),
    ensures
        r as int == sign(orient(line_start, line_end, point)),
{
    let d = cross_product(
        line_end.x - line_start.x,
        line_end.y - line_start.y,
        point.x - line_start.x,
        point.y - line_start.y,
    );
    if d > 0 {
        1
    } else if d < 0 {
        -1
    } else {
        0
    }
}

/// Axis-aligned bounding box with inclusive bounds.
#[derive(Clone, Copy, Debug, PartialEq, Eq, Structural)]
pub struct Aabb {
    pub min: Point,
    pub max: Point,
}

impl Aabb {
    /// The square `[center - radius, center + radius]` on both axes.
    pub fn from_point_radius(center: Point, radius: i64) -> (r: Aabb)
        requires
            in_range(center),
            0 <= radius <= COORD_LIMIT,
        ensures
            r.min.x == center.x - radius,
            r.min.y == center.y - radius,
            r.max.x == center.x + radius,
            r.max.y == center.y + radius,
    {
        Aabb {
            min: Point { x: center.x - radius, y: center.y - radius },
            max: Point { x: center.x + radius, y: center.y + radius },
        }
    }

    /// Whether the two boxes share at least one point (edges included).
    pub fn overlaps(&self, other: &Aabb) -> (r: bool)
        ensures
            r == (self.min.x <= other.max.x && self.max.x >= other.min.x && self.min.y
                <= other.max.y && self.max.y >= other.min.y),
    {
        self.min.x <= other.max.x && self.max.x >= other.min.x && self.min.y <= other.max.y
            && self.max.y >= other.min.y
    }

    /// The box widened by `amount` on every side.
    pub fn expand(&self, amount: i64) -> (r: Aabb)
        requires
            in_range(self.min),
            in_range(self.max),
            0 <= amount <= COORD_LIMIT,
        ensures
            r.min.x == self.min.x - amount,
            r.min.y == self.min.y - amount,
            r.max.x == self.max.x + amount,
            r.max.y == self.max.y + amount,
    {
        Aabb {
            min: Point { x: self.min.x - amount, y: self.min.y - amount },
            max: Point { x: self.max.x + amount, y: self.max.y + amount },
        }
    }
}

} // verus!
