//! Closest-pair search: the quadratic brute-force scan and the
//! divide-and-conquer algorithm with a strip merge. Both return a pair of
//! input points realizing the minimum pairwise squared distance; with
//! fewer than two points there is no pair and they return `None`.

use vstd::prelude::*;
use vstd::multiset::Multiset;
use crate::point::Point;
use crate::point::COORD_LIMIT;
use crate::point::dist_sq;
use crate::point::points_in_range;
use crate::point::lemma_dist_sq_symmetric;
use crate::point::lemma_dist_sq_dominates_axes;
use crate::point::lemma_sq_le;
use crate::point::lemma_sq_swap;
use crate::point::gap_sq;
use crate::order::sorted_on;
use crate::order::sort_on_axis;
use crate::pairs::pair_in_seq;
use crate::pairs::pair_in_multiset;
use crate::pairs::lemma_pair_seq_to_multiset;
use crate::pairs::lemma_pair_multiset_to_seq;
use crate::pairs::lemma_pair_in_multiset_grows;
use crate::pairs::lemma_in_range_from_multiset;

verus! {

/// An unordered pair of input points together with their squared
/// Euclidean distance.
#[derive(Clone, Debug, PartialEq, Eq, Structural)]
pub struct ClosestPairResult {
    pub point1: Point,
    pub point2: Point,
    pub distance_squared: i64,
}

/// `r` is a closest pair of `s`: its two points stand at distinct
/// positions of `s`, its squared distance is theirs, and no pair of
/// distinct positions of `s` is strictly closer.
pub open spec fn is_closest_pair(s: Seq<Point>, r: ClosestPairResult) -> bool {
    &&& r.distance_squared == dist_sq(r.point1, r.point2)
    &&& pair_in_seq(s, r.point1, r.point2)
    &&& forall|a: Point, b: Point| #[trigger] pair_in_seq(s, a, b) ==> dist_sq(a, b)
        >= r.distance_squared
}

/// The multiset counterpart of [`is_closest_pair`], used through the
/// recursion, where the subproblems are permutations of each other.
pub open spec fn is_closest_pair_of(m: Multiset<Point>, r: ClosestPairResult) -> bool {
    &&& r.distance_squared == dist_sq(r.point1, r.point2)
    &&& pair_in_multiset(m, r.point1, r.point2)
    &&& forall|a: Point, b: Point| #[trigger] pair_in_multiset(m, a, b) ==> dist_sq(a, b)
        >= r.distance_squared
}

/// The two views agree on what a closest pair is.
pub proof fn lemma_closest_pair_views(s: Seq<Point>, r: ClosestPairResult)
    ensures
        is_closest_pair(s, r) <==> is_closest_pair_of(s.to_multiset(), r),
{
    if is_closest_pair(s, r) {
        lemma_pair_seq_to_multiset(s, r.point1, r.point2);
        assert forall|a: Point, b: Point| #[trigger]
            pair_in_multiset(s.to_multiset(), a, b) implies dist_sq(a, b)
            >= r.distance_squared by {
            lemma_pair_multiset_to_seq(s, a, b);
        }
    }
    if is_closest_pair_of(s.to_multiset(), r) {
        lemma_pair_multiset_to_seq(s, r.point1, r.point2);
        assert forall|a: Point, b: Point| #[trigger] pair_in_seq(s, a, b) implies dist_sq(a, b)
            >= r.distance_squared by {
            lemma_pair_seq_to_multiset(s, a, b);
        }
    }
}

/// Two closest-pair results for the same point sequence realize the same
/// squared distance, whichever minimal pair each of them picked.
pub proof fn lemma_closest_pair_distance_unique(
    s: Seq<Point>,
    r1: ClosestPairResult,
    r2: ClosestPairResult,
)
    requires
        is_closest_pair(s, r1),
        is_closest_pair(s, r2),
    ensures
        r1.distance_squared == r2.distance_squared,
{
}

/// `(i1, j1)` is scanned strictly before `(i2, j2)` when pairs are
/// enumerated in index order.
pub open spec fn lex_before(i1: int, j1: int, i2: int, j2: int) -> bool {
    i1 < i2 || (i1 == i2 && j1 < j2)
}

/// `(i, j)` is the first pair in scan order realizing the minimum
/// pairwise squared distance of `s`.
pub open spec fn is_first_min_pair(s: Seq<Point>, i: int, j: int) -> bool {
    &&& 0 <= i < j < s.len()
    &&& forall|a: int, b: int|
        0 <= a < b < s.len() ==> #[trigger] dist_sq(s[a], s[b]) >= dist_sq(s[i], s[j])
    &&& forall|a: int, b: int|
        0 <= a < b < s.len() && lex_before(a, b, i, j) ==> #[trigger] dist_sq(s[a], s[b])
            > dist_sq(s[i], s[j])
}

/// Examine every unordered pair in index order and keep the first pair
/// realizing the strict minimum distance seen so far.
pub fn closest_pair_brute_force(points: &Vec<Point>) -> (r: Option<ClosestPairResult>)
    requires
        points_in_range(points@),
    ensures
        r is None <==> points@.len() < 2,
        r matches Some(res) ==> is_closest_pair(points@, res),
        r matches Some(res) ==> exists|i: int, j: int|
            #[trigger] is_first_min_pair(points@, i, j) && res.point1 == points@[i] && res.point2
                == points@[j],
{
    let n = points.len();
    if n < 2 {
        return None;
    }
    let mut bi: usize = 0;
    let mut bj: usize = 1;
    let mut best: i64 = points[0].distance_squared_to(&points[1]);
    let mut i: usize = 0;
    while i < n
        invariant
            2 <= n == points@.len(),
            points_in_range(points@),
            i <= n,
            bi < bj < n,
            (i == 0 && bi == 0 && bj == 1) || bi < i,
            best == dist_sq(points@[bi as int], points@[bj as int]),
            forall|a: int, b: int|
                0 <= a < b < n && a < i ==> #[trigger] dist_sq(points@[a], points@[b]) >= best,
            forall|a: int, b: int|
                0 <= a < b < n && a < i && lex_before(a, b, bi as int, bj as int)
                    ==> #[trigger] dist_sq(points@[a], points@[b]) > best,
        decreases n - i,
    {
        let mut j = i + 1;
        while j < n
            invariant
                2 <= n == points@.len(),
                points_in_range(points@),
                i < n,
                i + 1 <= j <= n,
                bi < bj < n,
                lex_before(bi as int, bj as int, i as int, j as int) || (bi == i && bj == j),
                best == dist_sq(points@[bi as int], points@[bj as int]),
                forall|a: int, b: int|
                    0 <= a < b < n && a < i ==> #[trigger] dist_sq(points@[a], points@[b]) >= best,
                forall|a: int, b: int|
                    0 <= a < b < n && a < i && lex_before(a, b, bi as int, bj as int)
                        ==> #[trigger] dist_sq(points@[a], points@[b]) > best,
                forall|b: int|
                    i < b < j ==> #[trigger] dist_sq(points@[i as int], points@[b]) >= best,
                forall|b: int|
                    i < b < j && lex_before(i as int, b, bi as int, bj as int)
                        ==> #[trigger] dist_sq(points@[i as int], points@[b]) > best,
            decreases n - j,
        {
            let d = points[i].distance_squared_to(&points[j]);
            if d < best {
                best = d;
                bi = i;
                bj = j;
            }
            j = j + 1;
        }
        i = i + 1;
    }
    proof {
        assert(is_first_min_pair(points@, bi as int, bj as int));
        assert(pair_in_seq(points@, points@[bi as int], points@[bj as int]));
        assert forall|a: Point, b: Point| #[trigger] pair_in_seq(points@, a, b) implies dist_sq(
            a,
            b,
        ) >= best by {
            let (ii, jj) = choose|ii: int, jj: int|
                0 <= ii < jj < points@.len() && ((points@[ii] == a && points@[jj] == b) || (
                points@[ii] == b && points@[jj] == a));
            lemma_dist_sq_symmetric(a, b);
            assert(dist_sq(points@[ii], points@[jj]) >= best);
        }
    }
    Some(ClosestPairResult { point1: points[bi], point2: points[bj], distance_squared: best })
}

/// `p` lies within the vertical strip of half-width `sqrt(dsq)` around
/// the line `x == divider`.
pub open spec fn in_strip(p: Point, divider: int, dsq: int) -> bool {
    (p.x - divider) * (p.x - divider) < dsq
}

/// Scan a y-sorted strip, comparing each point with the following ones
/// only while their y-gap stays below the best distance so far, and
/// return the better of `best` and the closest strip pair.
fn strip_closest(strip: &Vec<Point>, best: ClosestPairResult) -> (r: ClosestPairResult)
    requires
        points_in_range(strip@),
        sorted_on(strip@, 1),
        best.distance_squared == dist_sq(best.point1, best.point2),
    ensures
        r.distance_squared == dist_sq(r.point1, r.point2),
        r.distance_squared <= best.distance_squared,
        r == best || pair_in_seq(strip@, r.point1, r.point2),
        forall|a: int, b: int|
            0 <= a < b < strip@.len() ==> #[trigger] dist_sq(strip@[a], strip@[b])
                >= r.distance_squared,
{
    let n = strip.len();
    let mut cur = best;
    let mut i: usize = 0;
    while i < n
        invariant
            n == strip@.len(),
            points_in_range(strip@),
            sorted_on(strip@, 1),
            i <= n,
            cur.distance_squared == dist_sq(cur.point1, cur.point2),
            cur.distance_squared <= best.distance_squared,
            cur == best || pair_in_seq(strip@, cur.point1, cur.point2),
            forall|a: int, b: int|
                0 <= a < b < n && a < i ==> #[trigger] dist_sq(strip@[a], strip@[b])
                    >= cur.distance_squared,
        decreases n - i,
    {
        let mut j = i + 1;
        while j < n && gap_sq(strip[j].y, strip[i].y) < cur.distance_squared
            invariant
                n == strip@.len(),
                points_in_range(strip@),
                sorted_on(strip@, 1),
                i < n,
                i + 1 <= j <= n,
                cur.distance_squared == dist_sq(cur.point1, cur.point2),
                cur.distance_squared <= best.distance_squared,
                cur == best || pair_in_seq(strip@, cur.point1, cur.point2),
                forall|a: int, b: int|
                    0 <= a < b < n && a < i ==> #[trigger] dist_sq(strip@[a], strip@[b])
                        >= cur.distance_squared,
                forall|b: int|
                    i < b < j ==> #[trigger] dist_sq(strip@[i as int], strip@[b])
                        >= cur.distance_squared,
            decreases n - j,
        {
            let d = strip[i].distance_squared_to(&strip[j]);
            if d < cur.distance_squared {
                cur =
                ClosestPairResult { point1: strip[i], point2: strip[j], distance_squared: d };
                proof {
                    assert(pair_in_seq(strip@, strip@[i as int], strip@[j as int]));
                }
            }
            j = j + 1;
        }
        proof {
            if j < n {
                // The scan stopped early: every later point is at least the
                // exit gap away in y alone.
                assert forall|b: int| j <= b < n implies #[trigger] dist_sq(
                    strip@[i as int],
                    strip@[b],
                ) >= cur.distance_squared by {
                    let pi = strip@[i as int];
                    let pj = strip@[j as int];
                    let pb = strip@[b];
                    assert(pi.y <= pj.y <= pb.y);
                    lemma_sq_le(pj.y - pi.y, pb.y - pi.y);
                    lemma_sq_swap(pj.y as int, pi.y as int);
                    lemma_sq_swap(pi.y as int, pb.y as int);
                    lemma_dist_sq_dominates_axes(pi, pb);
                }
            }
        }
        i = i + 1;
    }
    cur
}

/// Closest pair of a y-sorted set of points on one vertical line: the
/// minimum lies between two y-adjacent points.
fn collinear_vertical_closest(py: &Vec<Point>) -> (r: ClosestPairResult)
    requires
        py@.len() >= 2,
        points_in_range(py@),
        sorted_on(py@, 1),
        forall|k: int| 0 <= k < py@.len() ==> #[trigger] py@[k].x == py@[0].x,
    ensures
        r.distance_squared == dist_sq(r.point1, r.point2),
        pair_in_seq(py@, r.point1, r.point2),
        forall|a: int, b: int|
            0 <= a < b < py@.len() ==> #[trigger] dist_sq(py@[a], py@[b]) >= r.distance_squared,
{
    let n = py.len();
    let d01 = py[0].distance_squared_to(&py[1]);
    let mut cur = ClosestPairResult { point1: py[0], point2: py[1], distance_squared: d01 };
    proof {
        assert(pair_in_seq(py@, py@[0], py@[1]));
    }
    let mut i: usize = 2;
    while i < n
        invariant
            n == py@.len() >= 2,
            points_in_range(py@),
            sorted_on(py@, 1),
            2 <= i <= n,
            cur.distance_squared == dist_sq(cur.point1, cur.point2),
            pair_in_seq(py@, cur.point1, cur.point2),
            forall|k: int|
                1 <= k < i ==> #[trigger] dist_sq(py@[k - 1], py@[k]) >= cur.distance_squared,
        decreases n - i,
    {
        let d = py[i - 1].distance_squared_to(&py[i]);
        if d < cur.distance_squared {
            cur =
            ClosestPairResult { point1: py[i - 1], point2: py[i], distance_squared: d };
            proof {
                assert(pair_in_seq(py@, py@[i - 1], py@[i as int]));
            }
        }
        i = i + 1;
    }
    proof {
        assert forall|a: int, b: int| 0 <= a < b < n implies #[trigger] dist_sq(py@[a], py@[b])
            >= cur.distance_squared by {
            let pa = py@[a];
            let pn = py@[a + 1];
            let pb = py@[b];
            assert(py@[b].x == py@[0].x && py@[a].x == py@[0].x && py@[a + 1].x == py@[0].x);
            assert(pa.y <= pn.y <= pb.y);
            lemma_sq_le(pn.y - pa.y, pb.y - pa.y);
            lemma_sq_swap(pn.y as int, pa.y as int);
            lemma_sq_swap(pa.y as int, pb.y as int);
            assert(dist_sq(pa, pb) == (pb.y - pa.y) * (pb.y - pa.y)) by {
                lemma_sq_swap(pa.y as int, pb.y as int);
            }
            assert(dist_sq(pa, pn) == (pn.y - pa.y) * (pn.y - pa.y)) by {
                lemma_sq_swap(pa.y as int, pn.y as int);
            }
            let k0 = a + 1;
            assert(dist_sq(py@[k0 - 1], py@[k0]) >= cur.distance_squared);
        }
    }
    cur
}

/// Split a y-sorted sequence into the points left of (or on) the divider
/// and the points strictly right of it, keeping the y-order of each side.
fn partition_by_x(py: &Vec<Point>, divider: i64) -> (r: (Vec<Point>, Vec<Point>))
    requires
        points_in_range(py@),
        sorted_on(py@, 1),
    ensures
        r.0@.to_multiset().add(r.1@.to_multiset()) == py@.to_multiset(),
        sorted_on(r.0@, 1),
        sorted_on(r.1@, 1),
        points_in_range(r.0@),
        points_in_range(r.1@),
        forall|k: int| 0 <= k < r.0@.len() ==> #[trigger] r.0@[k].x <= divider,
        forall|k: int| 0 <= k < r.1@.len() ==> #[trigger] r.1@[k].x > divider,
{
    broadcast use vstd::seq_lib::group_to_multiset_ensures;
    broadcast use vstd::multiset::group_multiset_axioms;

    let n = py.len();
    let mut left: Vec<Point> = Vec::new();
    let mut right: Vec<Point> = Vec::new();
    let mut k: usize = 0;
    while k < n
        invariant
            n == py@.len(),
            points_in_range(py@),
            sorted_on(py@, 1),
            k <= n,
            left@.to_multiset().add(right@.to_multiset()) == py@.subrange(0, k as int).to_multiset(),
            sorted_on(left@, 1),
            sorted_on(right@, 1),
            points_in_range(left@),
            points_in_range(right@),
            forall|a: int| 0 <= a < left@.len() ==> #[trigger] left@[a].x <= divider,
            forall|a: int| 0 <= a < right@.len() ==> #[trigger] right@[a].x > divider,
            forall|a: int, b: int|
                0 <= a < left@.len() && k <= b < n ==> #[trigger] left@[a].y <= #[trigger] py@[b].y,
            forall|a: int, b: int|
                0 <= a < right@.len() && k <= b < n ==> #[trigger] right@[a].y
                    <= #[trigger] py@[b].y,
        decreases n - k,
    {
        let ghost prefix = py@.subrange(0, k as int);
        let ghost left_old = left@;
        let ghost right_old = right@;
        let p = py[k];
        if p.x <= divider {
            left.push(p);
        } else {
            right.push(p);
        }
        proof {
            let q = py@[k as int];
            assert(py@.subrange(0, k as int + 1) =~= prefix.push(q));
            prefix.to_multiset_ensures();
            left_old.to_multiset_ensures();
            right_old.to_multiset_ensures();
            assert(left@.to_multiset().add(right@.to_multiset()) =~= py@.subrange(
                0,
                k as int + 1,
            ).to_multiset());
        }
        k = k + 1;
    }
    proof {
        assert(py@.subrange(0, n as int) =~= py@);
    }
    (left, right)
}

/// Every element drawn from the multiset of `s` satisfies the coordinate
/// bound that all of `s` satisfies.
proof fn lemma_ms_x_le(s: Seq<Point>, divider: int)
    requires
        forall|k: int| 0 <= k < s.len() ==> #[trigger] s[k].x <= divider,
    ensures
        forall|p: Point| #[trigger] s.to_multiset().count(p) > 0 ==> p.x <= divider,
{
    broadcast use vstd::seq_lib::group_to_multiset_ensures;

    assert forall|p: Point| #[trigger] s.to_multiset().count(p) > 0 implies p.x <= divider by {
        assert(s.contains(p));
    }
}

/// The strict counterpart of [`lemma_ms_x_le`].
proof fn lemma_ms_x_gt(s: Seq<Point>, divider: int)
    requires
        forall|k: int| 0 <= k < s.len() ==> #[trigger] s[k].x > divider,
    ensures
        forall|p: Point| #[trigger] s.to_multiset().count(p) > 0 ==> p.x > divider,
{
    broadcast use vstd::seq_lib::group_to_multiset_ensures;

    assert forall|p: Point| #[trigger] s.to_multiset().count(p) > 0 implies p.x > divider by {
        assert(s.contains(p));
    }
}

/// Pick the better of the two recursive results, preferring the left on
/// ties. A side with fewer than two points reports no pair, and both
/// sides cannot be that small at once.
fn combine_sides(
    lr: Option<ClosestPairResult>,
    rr: Option<ClosestPairResult>,
    Ghost(ls): Ghost<Seq<Point>>,
    Ghost(rs): Ghost<Seq<Point>>,
) -> (r: ClosestPairResult)
    requires
        lr is None <==> ls.len() < 2,
        rr is None <==> rs.len() < 2,
        lr matches Some(l) ==> is_closest_pair_of(ls.to_multiset(), l),
        rr matches Some(r2) ==> is_closest_pair_of(rs.to_multiset(), r2),
        ls.len() + rs.len() >= 4,
    ensures
        r.distance_squared == dist_sq(r.point1, r.point2),
        pair_in_multiset(ls.to_multiset().add(rs.to_multiset()), r.point1, r.point2),
        forall|a: Point, b: Point| #[trigger]
            pair_in_multiset(ls.to_multiset(), a, b) ==> dist_sq(a, b) >= r.distance_squared,
        forall|a: Point, b: Point| #[trigger]
            pair_in_multiset(rs.to_multiset(), a, b) ==> dist_sq(a, b) >= r.distance_squared,
{
    match (lr, rr) {
        (Some(l), Some(r2)) => {
            proof {
                lemma_pair_in_multiset_grows(ls.to_multiset(), rs.to_multiset(), l.point1, l.point2);
                lemma_pair_in_multiset_grows(rs.to_multiset(), ls.to_multiset(), r2.point1, r2.point2);
                assert(rs.to_multiset().add(ls.to_multiset()) =~= ls.to_multiset().add(
                    rs.to_multiset(),
                )) by {
                    broadcast use vstd::multiset::group_multiset_axioms;

                };
            }
            if l.distance_squared <= r2.distance_squared {
                l
            } else {
                r2
            }
        },
        (Some(l), None) => {
            proof {
                lemma_pair_in_multiset_grows(ls.to_multiset(), rs.to_multiset(), l.point1, l.point2);
                assert forall|a: Point, b: Point| #[trigger]
                    pair_in_multiset(rs.to_multiset(), a, b) implies dist_sq(a, b)
                    >= l.distance_squared by {
                    lemma_pair_multiset_to_seq(rs, a, b);
                }
            }
            l
        },
        (None, Some(r2)) => {
            proof {
                lemma_pair_in_multiset_grows(rs.to_multiset(), ls.to_multiset(), r2.point1, r2.point2);
                assert(rs.to_multiset().add(ls.to_multiset()) =~= ls.to_multiset().add(
                    rs.to_multiset(),
                )) by {
                    broadcast use vstd::multiset::group_multiset_axioms;

                };
                assert forall|a: Point, b: Point| #[trigger]
                    pair_in_multiset(ls.to_multiset(), a, b) implies dist_sq(a, b)
                    >= r2.distance_squared by {
                    lemma_pair_multiset_to_seq(ls, a, b);
                }
            }
            r2
        },
        (None, None) => {
            proof {
                assert(false);
            }
            ClosestPairResult {
                point1: Point { x: 0, y: 0 },
                point2: Point { x: 0, y: 0 },
                distance_squared: 0,
            }
        },
    }
}

/// Two partitions of one multiset by the same vertical line agree side
/// by side.
proof fn lemma_partition_multisets_agree(
    a1: Multiset<Point>,
    b1: Multiset<Point>,
    a2: Multiset<Point>,
    b2: Multiset<Point>,
    divider: int,
)
    requires
        a1.add(b1) == a2.add(b2),
        forall|p: Point| #[trigger] a1.count(p) > 0 ==> p.x <= divider,
        forall|p: Point| #[trigger] b1.count(p) > 0 ==> p.x > divider,
        forall|p: Point| #[trigger] a2.count(p) > 0 ==> p.x <= divider,
        forall|p: Point| #[trigger] b2.count(p) > 0 ==> p.x > divider,
    ensures
        a1 == a2,
        b1 == b2,
{
    broadcast use vstd::multiset::group_multiset_axioms;

    assert forall|p: Point| a1.count(p) == a2.count(p) && b1.count(p) == b2.count(p) by {
        assert(a1.add(b1).count(p) == a1.count(p) + b1.count(p));
        assert(a2.add(b2).count(p) == a2.count(p) + b2.count(p));
        assert(a1.count(p) + b1.count(p) == a2.count(p) + b2.count(p));
        if p.x <= divider {
            assert(b1.count(p) == 0 && b2.count(p) == 0);
        } else {
            assert(a1.count(p) == 0 && a2.count(p) == 0);
        }
    }
    assert(a1 =~= a2);
    assert(b1 =~= b2);
}

/// Choose the dividing x value and the size of the left half: the median
/// x-coordinate, or, when that is also the maximum, the next x value
/// below it, so that neither half is empty. Points with x equal to the
/// divider belong to the left half.
fn choose_divider(px: &Vec<Point>) -> (r: (i64, usize))
    requires
        sorted_on(px@, 0),
        points_in_range(px@),
        px@.len() >= 4,
        px@[0].x != px@[px@.len() as int / 2].x || px@[px@.len() as int - 1].x != px@[px@.len()
            as int / 2].x,
    ensures
        -COORD_LIMIT <= r.0 <= COORD_LIMIT,
        1 <= r.1 < px@.len(),
        forall|idx: int| 0 <= idx < r.1 ==> #[trigger] px@[idx].x <= r.0,
        forall|idx: int| r.1 <= idx < px@.len() ==> #[trigger] px@[idx].x > r.0,
{
    let n = px.len();
    let mid = n / 2;
    let midx = px[mid].x;
    if px[n - 1].x == midx {
        // The median x is also the maximum; divide at the next x value
        // below it so the right side is not empty.
        let mut k: usize = 0;
        while px[k].x < midx
            invariant
                n == px@.len() >= 4,
                sorted_on(px@, 0),
                midx == px@[n as int / 2].x,
                0 <= k <= n / 2,
                forall|idx: int| 0 <= idx < k ==> #[trigger] px@[idx].x < midx,
            decreases n / 2 - k,
        {
            k = k + 1;
        }
        proof {
            assert(px@[0].x <= px@[n as int / 2].x);
            assert(px@[0].x != midx);
            assert(k >= 1);
        }
        let divider = px[k - 1].x;
        proof {
            assert forall|idx: int| 0 <= idx < k implies #[trigger] px@[idx].x <= divider by {
                assert(px@[idx].x <= px@[k - 1].x || idx == k - 1);
            }
            assert forall|idx: int| k <= idx < n implies #[trigger] px@[idx].x > divider by {
                assert(px@[k as int].x <= px@[idx].x || idx == k);
                assert(px@[k - 1].x < midx);
            }
        }
        (divider, k)
    } else {
        // Points up to the median have x at most the median x; scan past
        // the ties to find the boundary.
        let mut k: usize = mid + 1;
        while k < n && px[k].x <= midx
            invariant
                n == px@.len() >= 4,
                sorted_on(px@, 0),
                midx == px@[n as int / 2].x,
                n / 2 + 1 <= k <= n,
                forall|idx: int| 0 <= idx < k ==> #[trigger] px@[idx].x <= midx,
            decreases n - k,
        {
            k = k + 1;
        }
        proof {
            assert(px@[n as int / 2].x <= px@[n - 1].x);
            assert(px@[n - 1].x != midx);
            if k == n {
                assert(px@[n - 1].x <= midx);
                assert(false);
            }
            assert forall|idx: int| k <= idx < n implies #[trigger] px@[idx].x > midx by {
                assert(px@[k as int].x <= px@[idx].x || idx == k);
            }
        }
        (midx, k)
    }
}

/// Collect, in y-order, the points lying strictly within `sqrt(bound)`
/// of the vertical line `x == divider`.
fn build_strip(py: &Vec<Point>, divider: i64, bound: i64) -> (strip: Vec<Point>)
    requires
        points_in_range(py@),
        sorted_on(py@, 1),
        -COORD_LIMIT <= divider <= COORD_LIMIT,
    ensures
        points_in_range(strip@),
        sorted_on(strip@, 1),
        forall|p: Point| #[trigger] strip@.to_multiset().count(p) <= py@.to_multiset().count(p),
        forall|p: Point|
            in_strip(p, divider as int, bound as int) ==> #[trigger] strip@.to_multiset().count(p)
                == py@.to_multiset().count(p),
{
    broadcast use vstd::seq_lib::group_to_multiset_ensures;
    broadcast use vstd::multiset::group_multiset_axioms;

    let n = py.len();
    let mut strip: Vec<Point> = Vec::new();
    proof {
        assert(py@.subrange(0, 0) =~= Seq::<Point>::empty());
        assert(strip@ =~= Seq::<Point>::empty());
        assert forall|p: Point| #[trigger] Seq::<Point>::empty().to_multiset().count(p) == 0 by {
            assert(!Seq::<Point>::empty().contains(p));
        }
    }
    let mut k: usize = 0;
    while k < n
        invariant
            n == py@.len(),
            points_in_range(py@),
            sorted_on(py@, 1),
            -COORD_LIMIT <= divider <= COORD_LIMIT,
            k <= n,
            points_in_range(strip@),
            sorted_on(strip@, 1),
            forall|p: Point| #[trigger]
                strip@.to_multiset().count(p) <= py@.subrange(0, k as int).to_multiset().count(p),
            forall|p: Point|
                in_strip(p, divider as int, bound as int) ==> #[trigger] strip@.to_multiset().count(
                    p,
                ) == py@.subrange(0, k as int).to_multiset().count(p),
            forall|a: int, b: int|
                0 <= a < strip@.len() && k <= b < n ==> #[trigger] strip@[a].y
                    <= #[trigger] py@[b].y,
        decreases n - k,
    {
        let ghost strip_old = strip@;
        let ghost prefix = py@.subrange(0, k as int);
        let p = py[k];
        let g = gap_sq(p.x, divider);
        if g < bound {
            strip.push(p);
        }
        proof {
            let q = py@[k as int];
            assert(py@.subrange(0, k as int + 1) =~= prefix.push(q));
            prefix.to_multiset_ensures();
            strip_old.to_multiset_ensures();
        }
        k = k + 1;
    }
    proof {
        assert(py@.subrange(0, n as int) =~= py@);
    }
    strip
}

/// What the strip scan guarantees for the whole multiset: any pair that
/// beats the combined recursive bound is split by the divider, lies in
/// the strip on both sides, and was therefore bounded by the scan.
proof fn lemma_rec_completeness(
    m: Multiset<Point>,
    lm: Multiset<Point>,
    rm: Multiset<Point>,
    strip: Seq<Point>,
    divider: int,
    best: ClosestPairResult,
    res: ClosestPairResult,
)
    requires
        m == lm.add(rm),
        forall|p: Point| #[trigger] lm.count(p) > 0 ==> p.x <= divider,
        forall|p: Point| #[trigger] rm.count(p) > 0 ==> p.x > divider,
        forall|a: Point, b: Point| #[trigger]
            pair_in_multiset(lm, a, b) ==> dist_sq(a, b) >= best.distance_squared,
        forall|a: Point, b: Point| #[trigger]
            pair_in_multiset(rm, a, b) ==> dist_sq(a, b) >= best.distance_squared,
        forall|p: Point|
            in_strip(p, divider, best.distance_squared as int) ==> #[trigger] strip.to_multiset().count(
                p,
            ) == m.count(p),
        forall|a: int, b: int|
            0 <= a < b < strip.len() ==> #[trigger] dist_sq(strip[a], strip[b])
                >= res.distance_squared,
        res.distance_squared <= best.distance_squared,
    ensures
        forall|a: Point, b: Point| #[trigger]
            pair_in_multiset(m, a, b) ==> dist_sq(a, b) >= res.distance_squared,
{
    broadcast use vstd::multiset::group_multiset_axioms;

    let bd = best.distance_squared as int;
    assert forall|a: Point, b: Point| #[trigger] pair_in_multiset(m, a, b) implies dist_sq(a, b)
        >= res.distance_squared by {
        if dist_sq(a, b) < best.distance_squared {
            crate::pairs::lemma_pair_in_multiset_add(lm, rm, a, b);
            if !pair_in_multiset(lm, a, b) && !pair_in_multiset(rm, a, b) {
                // A pair split by the divider: both points lie in the
                // strip, where the scan bounded them.
                let u = if lm.count(a) >= 1 && rm.count(b) >= 1 {
                    a
                } else {
                    b
                };
                let w = if lm.count(a) >= 1 && rm.count(b) >= 1 {
                    b
                } else {
                    a
                };
                assert(lm.count(u) >= 1 && rm.count(w) >= 1);
                assert(u.x <= divider && w.x > divider);
                lemma_dist_sq_symmetric(a, b);
                lemma_dist_sq_dominates_axes(u, w);
                assert((u.x - w.x) * (u.x - w.x) < bd);
                assert(in_strip(u, divider, bd)) by {
                    lemma_sq_le(divider - u.x, w.x - u.x);
                    lemma_sq_swap(u.x as int, divider as int);
                    lemma_sq_swap(u.x as int, w.x as int);
                }
                assert(in_strip(w, divider, bd)) by {
                    lemma_sq_le(w.x - divider, w.x - u.x);
                    lemma_sq_swap(u.x as int, w.x as int);
                }
                assert(m.count(u) >= 1 && m.count(w) >= 1);
                assert(pair_in_multiset(strip.to_multiset(), u, w));
                lemma_pair_multiset_to_seq(strip, u, w);
                let (ii, jj) = choose|ii: int, jj: int|
                    0 <= ii < jj < strip.len() && ((strip[ii] == u && strip[jj] == w) || (
                    strip[ii] == w && strip[jj] == u));
                lemma_dist_sq_symmetric(u, w);
                assert(dist_sq(strip[ii], strip[jj]) >= res.distance_squared);
            }
        }
    }
}

/// Divide-and-conquer step over two sorted views of one point multiset:
/// `px` sorted by x, `py` sorted by y. The divider is the x-coordinate of
/// the median element; points whose x equals the divider go to the left
/// half in both views, so each side's views stay permutations of each
/// other. When the median x is also the maximum, the divider moves down
/// to the next x value present, and when all x-coordinates are equal the
/// points lie on one vertical line and a linear scan of `py` decides.
/// A subproblem of at most three points is handed to the brute-force
/// scan and keeps its exact first-found tie policy over the x-sorted
/// order.
#[verifier::rlimit(100)]
fn closest_rec(px: &Vec<Point>, py: &Vec<Point>) -> (r: Option<ClosestPairResult>)
    requires
        px@.to_multiset() == py@.to_multiset(),
        sorted_on(px@, 0),
        sorted_on(py@, 1),
        points_in_range(px@),
        points_in_range(py@),
    ensures
        r is None <==> px@.len() < 2,
        r matches Some(res) ==> is_closest_pair_of(px@.to_multiset(), res),
        px@.len() <= 3 ==> (r matches Some(res) ==> exists|i: int, j: int|
            #[trigger] is_first_min_pair(px@, i, j) && res.point1 == px@[i] && res.point2
                == px@[j]),
    decreases px@.len(),
{
    broadcast use vstd::seq_lib::lemma_multiset_commutative;
    broadcast use vstd::seq_lib::group_to_multiset_ensures;
    broadcast use vstd::multiset::group_multiset_axioms;

    let n = px.len();
    proof {
        px@.to_multiset_ensures();
        py@.to_multiset_ensures();
        assert(py@.len() == n);
    }
    if n <= 3 {
        // Base case: brute force over the x-sorted view.
        match closest_pair_brute_force(px) {
            None => None,
            Some(res) => {
                proof {
                    lemma_closest_pair_views(px@, res);
                }
                Some(res)
            },
        }
    } else if px[n - 1].x == px[n / 2].x && px[0].x == px[n / 2].x {
        // All x-coordinates are equal: one vertical line.
        proof {
            let midx = px@[n as int / 2].x;
            assert forall|k: int| 0 <= k < px@.len() implies #[trigger] px@[k].x == midx by {
                assert(px@[0].x <= px@[k].x <= px@[n - 1].x || k == 0 || k == n - 1);
            }
            assert forall|k: int| 0 <= k < py@.len() implies #[trigger] py@[k].x == py@[0].x by {
                assert(py@.contains(py@[k]));
                assert(py@.to_multiset().count(py@[k]) > 0);
                assert(px@.contains(py@[k]));
                assert(py@.contains(py@[0]));
                assert(py@.to_multiset().count(py@[0]) > 0);
                assert(px@.contains(py@[0]));
            }
        }
        let res = collinear_vertical_closest(py);
        proof {
            lemma_pair_seq_to_multiset(py@, res.point1, res.point2);
            assert forall|a: Point, b: Point| #[trigger]
                pair_in_multiset(px@.to_multiset(), a, b) implies dist_sq(a, b)
                >= res.distance_squared by {
                lemma_pair_multiset_to_seq(py@, a, b);
                let (ii, jj) = choose|ii: int, jj: int|
                    0 <= ii < jj < py@.len() && ((py@[ii] == a && py@[jj] == b) || (py@[ii] == b
                        && py@[jj] == a));
                lemma_dist_sq_symmetric(a, b);
                assert(dist_sq(py@[ii], py@[jj]) >= res.distance_squared);
            }
        }
        Some(res)
    } else {
        let dc = choose_divider(px);
        let divider = dc.0;
        let c = dc.1;
        // The first c points of px lie on or left of the divider, the
        // rest strictly right of it; partition py by the same rule.
        let mut lx = px.clone();
        let rx = lx.split_off(c);
        let pr = partition_by_x(py, divider);
        let ly = pr.0;
        let ry = pr.1;
        let ghost m = px@.to_multiset();
        let ghost lm = lx@.to_multiset();
        let ghost rm = rx@.to_multiset();
        proof {
            assert(px@ =~= lx@ + rx@);
            assert(m == lm.add(rm));
            lemma_ms_x_le(lx@, divider as int);
            lemma_ms_x_gt(rx@, divider as int);
            lemma_ms_x_le(ly@, divider as int);
            lemma_ms_x_gt(ry@, divider as int);
            lemma_partition_multisets_agree(
                lm,
                rm,
                ly@.to_multiset(),
                ry@.to_multiset(),
                divider as int,
            );
            lx@.to_multiset_ensures();
            rx@.to_multiset_ensures();
            ly@.to_multiset_ensures();
            ry@.to_multiset_ensures();
        }
        let lr = closest_rec(&lx, &ly);
        let rr = closest_rec(&rx, &ry);
        let best = combine_sides(lr, rr, Ghost(lx@), Ghost(rx@));
        let ghost best0 = best;
        let strip = build_strip(py, divider, best.distance_squared);
        let res = strip_closest(&strip, best);
        proof {
            // The result is realized by a pair of the whole multiset.
            if res != best0 {
                lemma_pair_seq_to_multiset(strip@, res.point1, res.point2);
                assert(strip@.to_multiset().count(res.point1) <= m.count(res.point1));
                assert(strip@.to_multiset().count(res.point2) <= m.count(res.point2));
                assert(pair_in_multiset(m, res.point1, res.point2));
            }
            // And nothing in the multiset is closer.
            lemma_rec_completeness(m, lm, rm, strip@, divider as int, best0, res);
        }
        Some(res)
    }
}

/// Same contract as the brute-force search, except that on exact ties
/// any minimal pair may be returned; runs in `O(n log n)` comparisons.
pub fn closest_pair_divide_conquer(points: &Vec<Point>) -> (r: Option<ClosestPairResult>)
    requires
        points_in_range(points@),
    ensures
        r is None <==> points@.len() < 2,
        r matches Some(res) ==> is_closest_pair(points@, res),
{
    if points.len() < 2 {
        return None;
    }
    let px = sort_on_axis(points, 0);
    let py = sort_on_axis(points, 1);
    proof {
        lemma_in_range_from_multiset(points@, px@);
        lemma_in_range_from_multiset(points@, py@);
        points@.to_multiset_ensures();
        px@.to_multiset_ensures();
    }
    match closest_rec(&px, &py) {
        None => {
            proof {
                assert(false);
            }
            None
        },
        Some(res) => {
            proof {
                lemma_closest_pair_views(points@, res);
            }
            Some(res)
        },
    }
}

} // verus!
