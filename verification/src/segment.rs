//! Line segments and exact intersection tests. Two segments share a
//! point exactly when the orientation tests below say so: a proper
//! crossing shows as strictly opposite orientations on both segments,
//! and the degenerate collinear cases reduce to a bounding-box check.

use vstd::prelude::*;
use crate::point::Point;
use crate::point::cross;
use crate::point::cross_product;

verus! {

/// An ordered pair of endpoints. Intersection testing does not depend on
/// the endpoint order.
#[derive(Clone, Copy, Debug, PartialEq, Eq, Structural)]
pub struct LineSegment {
    pub start: Point,
    pub end: Point,
}

/// With `pi`, `pj`, `pk` known to be collinear, `pj` lies on the segment
/// from `pi` to `pk` exactly when it lies in their bounding box.
pub open spec fn on_segment(pi: Point, pj: Point, pk: Point) -> bool {
    &&& pj.x <= if pi.x >= pk.x {
        pi.x
    } else {
        pk.x
    }
    &&& pj.x >= if pi.x <= pk.x {
        pi.x
    } else {
        pk.x
    }
    &&& pj.y <= if pi.y >= pk.y {
        pi.y
    } else {
        pk.y
    }
    &&& pj.y >= if pi.y <= pk.y {
        pi.y
    } else {
        pk.y
    }
}

/// The segments `a` and `b` share at least one point: either a proper
/// crossing (strictly opposite orientations on both segments) or a
/// degenerate case with an endpoint on the other segment.
pub open spec fn segments_intersect(a: LineSegment, b: LineSegment) -> bool {
    let d1 = cross(b.start, b.end, a.start);
    let d2 = cross(b.start, b.end, a.end);
    let d3 = cross(a.start, a.end, b.start);
    let d4 = cross(a.start, a.end, b.end);
    ||| (((d1 > 0 && d2 < 0) || (d1 < 0 && d2 > 0)) && ((d3 > 0 && d4 < 0) || (d3 < 0 && d4
        > 0)))
    ||| (d1 == 0 && on_segment(b.start, a.start, b.end))
    ||| (d2 == 0 && on_segment(b.start, a.end, b.end))
    ||| (d3 == 0 && on_segment(a.start, b.start, a.end))
    ||| (d4 == 0 && on_segment(a.start, b.end, a.end))
}

/// Intersection is symmetric: swapping the segments swaps the two
/// orientation pairs and the four degenerate cases among themselves.
pub proof fn lemma_intersects_symmetric(a: LineSegment, b: LineSegment)
    ensures
        segments_intersect(a, b) == segments_intersect(b, a),
{
}

/// Exact bounding-box containment check.
fn on_segment_check(pi: &Point, pj: &Point, pk: &Point) -> (r: bool)
    ensures
        r == on_segment(*pi, *pj, *pk),
{
    let max_x = if pi.x >= pk.x {
        pi.x
    } else {
        pk.x
    };
    let min_x = if pi.x <= pk.x {
        pi.x
    } else {
        pk.x
    };
    let max_y = if pi.y >= pk.y {
        pi.y
    } else {
        pk.y
    };
    let min_y = if pi.y <= pk.y {
        pi.y
    } else {
        pk.y
    };
    pj.x <= max_x && pj.x >= min_x && pj.y <= max_y && pj.y >= min_y
}

impl LineSegment {
    /// Both endpoints within the coordinate bound.
    pub open spec fn in_range(self) -> bool {
        self.start.in_range() && self.end.in_range()
    }

    pub fn new(start: Point, end: Point) -> (s: LineSegment)
        ensures
            s.start == start,
            s.end == end,
    {
        LineSegment { start, end }
    }

    /// Whether `self` and `other` share at least one point, touching
    /// endpoints and collinear overlap included.
    pub fn intersects(&self, other: &LineSegment) -> (r: bool)
        requires
            self.in_range(),
            other.in_range(),
        ensures
            r == segments_intersect(*self, *other),
    {
        let d1 = cross_product(&other.start, &other.end, &self.start);
        let d2 = cross_product(&other.start, &other.end, &self.end);
        let d3 = cross_product(&self.start, &self.end, &other.start);
        let d4 = cross_product(&self.start, &self.end, &other.end);

        if ((d1 > 0 && d2 < 0) || (d1 < 0 && d2 > 0)) && ((d3 > 0 && d4 < 0) || (d3 < 0 && d4
            > 0)) {
            return true;
        }
        if d1 == 0 && on_segment_check(&other.start, &self.start, &other.end) || d2 == 0
            && on_segment_check(&other.start, &self.end, &other.end) || d3 == 0
            && on_segment_check(&self.start, &other.start, &self.end) || d4 == 0
            && on_segment_check(&self.start, &other.end, &self.end) {
            return true;
        }
        false
    }
}

/// Every segment of the sequence is in range.
pub open spec fn segments_in_range(s: Seq<LineSegment>) -> bool {
    forall|i: int| 0 <= i < s.len() ==> (#[trigger] s[i]).in_range()
}

/// Test every unordered pair of segments in index order and report the
/// intersecting ones: exactly the pairs `(i, j)` with `i < j` whose
/// segments share a point, in ascending scan order.
pub fn find_intersecting_segments(segments: &Vec<LineSegment>) -> (r: Vec<(usize, usize)>)
    requires
        segments_in_range(segments@),
    ensures
        forall|k: int|
            0 <= k < r@.len() ==> (#[trigger] r@[k]).0 < r@[k].1 < segments@.len()
                && segments_intersect(segments@[r@[k].0 as int], segments@[r@[k].1 as int]),
        forall|i: int, j: int|
            0 <= i < j < segments@.len() && #[trigger] segments_intersect(
                segments@[i],
                segments@[j],
            ) ==> exists|k: int|
                0 <= k < r@.len() && (#[trigger] r@[k]).0 == i && r@[k].1 == j,
        forall|k1: int, k2: int|
            0 <= k1 < k2 < r@.len() ==> lex_pair_before(r@[k1], r@[k2]),
{
    let n = segments.len();
    let mut r: Vec<(usize, usize)> = Vec::new();
    let mut i: usize = 0;
    while i < n
        invariant
            n == segments@.len(),
            segments_in_range(segments@),
            i <= n,
            forall|k: int|
                0 <= k < r@.len() ==> (#[trigger] r@[k]).0 < r@[k].1 < n && segments_intersect(
                    segments@[r@[k].0 as int],
                    segments@[r@[k].1 as int],
                ),
            forall|a: int, b: int|
                0 <= a < b < n && a < i && #[trigger] segments_intersect(
                    segments@[a],
                    segments@[b],
                ) ==> exists|k: int|
                    0 <= k < r@.len() && (#[trigger] r@[k]).0 == a && r@[k].1 == b,
            forall|k1: int, k2: int|
                0 <= k1 < k2 < r@.len() ==> lex_pair_before(r@[k1], r@[k2]),
            forall|k: int| 0 <= k < r@.len() ==> (#[trigger] r@[k]).0 < i,
        decreases n - i,
    {
        let mut j = i + 1;
        while j < n
            invariant
                n == segments@.len(),
                segments_in_range(segments@),
                i < n,
                i + 1 <= j <= n,
                forall|k: int|
                    0 <= k < r@.len() ==> (#[trigger] r@[k]).0 < r@[k].1 < n && segments_intersect(
                        segments@[r@[k].0 as int],
                        segments@[r@[k].1 as int],
                    ),
                forall|a: int, b: int|
                    0 <= a < b < n && a < i && #[trigger] segments_intersect(
                        segments@[a],
                        segments@[b],
                    ) ==> exists|k: int|
                        0 <= k < r@.len() && (#[trigger] r@[k]).0 == a && r@[k].1 == b,
                forall|b: int|
                    i < b < j && #[trigger] segments_intersect(segments@[i as int], segments@[b])
                        ==> exists|k: int|
                        0 <= k < r@.len() && (#[trigger] r@[k]).0 == i && r@[k].1 == b,
                forall|k1: int, k2: int|
                    0 <= k1 < k2 < r@.len() ==> lex_pair_before(r@[k1], r@[k2]),
                forall|k: int|
                    0 <= k < r@.len() ==> (#[trigger] r@[k]).0 < i || ((#[trigger] r@[k]).0 == i
                        && r@[k].1 < j),
            decreases n - j,
        {
            let ghost r_old = r@;
            let hit = segments[i].intersects(&segments[j]);
            if hit {
                r.push((i, j));
            }
            proof {
                if hit {
                    assert(r@ =~= r_old.push((i, j)));
                    assert forall|a: int, b: int|
                        0 <= a < b < n && a < i && #[trigger] segments_intersect(
                            segments@[a],
                            segments@[b],
                        ) implies exists|k: int|
                        0 <= k < r@.len() && (#[trigger] r@[k]).0 == a && r@[k].1 == b by {
                        let k0 = choose|k0: int|
                            0 <= k0 < r_old.len() && (#[trigger] r_old[k0]).0 == a && r_old[k0].1
                                == b;
                        assert(r@[k0] == r_old[k0]);
                        assert((r@[k0]).0 == a && r@[k0].1 == b);
                    }
                    assert forall|b: int|
                        i < b < j + 1 && #[trigger] segments_intersect(
                            segments@[i as int],
                            segments@[b],
                        ) implies exists|k: int|
                        0 <= k < r@.len() && (#[trigger] r@[k]).0 == i && r@[k].1 == b by {
                        if b < j {
                            let k0 = choose|k0: int|
                                0 <= k0 < r_old.len() && (#[trigger] r_old[k0]).0 == i
                                    && r_old[k0].1 == b;
                            assert(r@[k0] == r_old[k0]);
                            assert((r@[k0]).0 == i && r@[k0].1 == b);
                        } else {
                            assert((r@[r@.len() - 1]).0 == i && r@[r@.len() - 1].1 == b);
                        }
                    }
                }
            }
            j = j + 1;
        }
        i = i + 1;
    }
    r
}

/// The pair `p` comes strictly before `q` in scan order.
pub open spec fn lex_pair_before(p: (usize, usize), q: (usize, usize)) -> bool {
    p.0 < q.0 || (p.0 == q.0 && p.1 < q.1)
}

} // verus!
