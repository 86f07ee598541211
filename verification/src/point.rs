//! The point value type, its exact squared-distance metric, and the
//! cross-product orientation test shared by the hull and segment modules.

use vstd::prelude::*;

verus! {

/// Largest coordinate magnitude the library accepts.
///
/// With coordinates in `[-COORD_LIMIT, COORD_LIMIT]`, a coordinate
/// difference is at most `2 * COORD_LIMIT`, so a squared distance is at
/// most `8 * COORD_LIMIT^2 = 8e18` and a cross product is at most
/// `8e18` in magnitude; both fit in `i64`.
pub const COORD_LIMIT: i64 = 1_000_000_000;

/// A point of the plane with exact integer coordinates. Two points with
/// equal coordinates are indistinguishable.
#[derive(Clone, Copy, Debug, PartialEq, Eq, Structural)]
pub struct Point {
    pub x: i64,
    pub y: i64,
}

/// Squared Euclidean distance between `p` and `q`, as a mathematical integer.
pub open spec fn dist_sq(p: Point, q: Point) -> int {
    (p.x - q.x) * (p.x - q.x) + (p.y - q.y) * (p.y - q.y)
}

/// Cross product of the vectors `o -> a` and `o -> b`: positive when
/// `o, a, b` make a strictly counter-clockwise turn, negative when
/// clockwise, zero when collinear.
pub open spec fn cross(o: Point, a: Point, b: Point) -> int {
    (a.x - o.x) * (b.y - o.y) - (a.y - o.y) * (b.x - o.x)
}

impl Point {
    /// Both coordinates within `COORD_LIMIT` in magnitude.
    pub open spec fn in_range(self) -> bool {
        &&& -COORD_LIMIT <= self.x <= COORD_LIMIT
        &&& -COORD_LIMIT <= self.y <= COORD_LIMIT
    }

    pub fn new(x: i64, y: i64) -> (p: Point)
        ensures
            p.x == x,
            p.y == y,
    {
        Point { x, y }
    }

    /// Squared Euclidean distance, exact in `i64`. Used wherever only the
    /// relative order of distances matters, which squaring preserves.
    pub fn distance_squared_to(&self, other: &Point) -> (r: i64)
        requires
            self.in_range(),
            other.in_range(),
        ensures
            r == dist_sq(*self, *other),
    {
        let dx = self.x - other.x;
        let dy = self.y - other.y;
        proof {
            lemma_bounded_sq(dx as int, 2 * COORD_LIMIT as int);
            lemma_bounded_sq(dy as int, 2 * COORD_LIMIT as int);
        }
        dx * dx + dy * dy
    }
}

/// Every point of the sequence is in range.
pub open spec fn points_in_range(s: Seq<Point>) -> bool {
    forall|i: int| 0 <= i < s.len() ==> (#[trigger] s[i]).in_range()
}

/// A square is non-negative, and bounded when its root is.
pub proof fn lemma_bounded_sq(a: int, bound: int)
    requires
        -bound <= a <= bound,
    ensures
        0 <= a * a <= bound * bound,
{
    assert(0 <= a * a <= bound * bound) by (nonlinear_arith)
        requires
            -bound <= a <= bound,
    ;
}

/// Squaring is monotone on non-negative integers.
pub proof fn lemma_sq_le(a: int, b: int)
    requires
        0 <= a <= b,
    ensures
        a * a <= b * b,
{
    assert(a * a <= b * b) by (nonlinear_arith)
        requires
            0 <= a <= b,
    ;
}

/// The squared distance dominates the square of either single coordinate
/// difference.
pub proof fn lemma_dist_sq_dominates_axes(p: Point, q: Point)
    ensures
        dist_sq(p, q) >= (p.x - q.x) * (p.x - q.x),
        dist_sq(p, q) >= (p.y - q.y) * (p.y - q.y),
        dist_sq(p, q) >= 0,
{
    lemma_bounded_sq(p.x - q.x, if p.x - q.x >= 0 { p.x - q.x } else { q.x - p.x });
    lemma_bounded_sq(p.y - q.y, if p.y - q.y >= 0 { p.y - q.y } else { q.y - p.y });
}

/// Squaring ignores the sign of a difference.
pub proof fn lemma_sq_swap(a: int, b: int)
    ensures
        (a - b) * (a - b) == (b - a) * (b - a),
{
    assert((a - b) * (a - b) == (b - a) * (b - a)) by (nonlinear_arith);
}

/// Exact squared difference of two in-range coordinates.
pub(crate) fn gap_sq(a: i64, b: i64) -> (r: i64)
    requires
        -COORD_LIMIT <= a <= COORD_LIMIT,
        -COORD_LIMIT <= b <= COORD_LIMIT,
    ensures
        r == (a - b) * (a - b),
{
    let d = a - b;
    proof {
        lemma_bounded_sq(d as int, 2 * COORD_LIMIT as int);
    }
    d * d
}

/// The squared distance does not depend on the order of its arguments.
pub proof fn lemma_dist_sq_symmetric(p: Point, q: Point)
    ensures
        dist_sq(p, q) == dist_sq(q, p),
{
    assert((p.x - q.x) * (p.x - q.x) == (q.x - p.x) * (q.x - p.x)) by (nonlinear_arith);
    assert((p.y - q.y) * (p.y - q.y) == (q.y - p.y) * (q.y - p.y)) by (nonlinear_arith);
}

/// Exact cross product of `o -> a` and `o -> b` in `i64`.
pub(crate) fn cross_product(o: &Point, a: &Point, b: &Point) -> (r: i64)
    requires
        o.in_range(),
        a.in_range(),
        b.in_range(),
    ensures
        r == cross(*o, *a, *b),
{
    let ux = a.x - o.x;
    let uy = a.y - o.y;
    let vx = b.x - o.x;
    let vy = b.y - o.y;
    proof {
        lemma_mul_bound(ux as int, vy as int, 2 * COORD_LIMIT as int);
        lemma_mul_bound(uy as int, vx as int, 2 * COORD_LIMIT as int);
    }
    ux * vy - uy * vx
}

/// A product of two factors bounded by `bound` in magnitude is bounded by
/// `bound * bound` in magnitude.
pub proof fn lemma_mul_bound(a: int, b: int, bound: int)
    requires
        -bound <= a <= bound,
        -bound <= b <= bound,
    ensures
        -(bound * bound) <= a * b <= bound * bound,
{
    assert(-(bound * bound) <= a * b <= bound * bound) by (nonlinear_arith)
        requires
            -bound <= a <= bound,
            -bound <= b <= bound,
    ;
}

} // verus!
