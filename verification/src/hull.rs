//! Convex hull by Graham scan: find the anchor (lowest point, leftmost
//! on ties), sort the remaining points by polar angle around it, and
//! keep a stack of strictly counter-clockwise turns. Angles are never
//! computed: for points above the anchor, the sweep order is decided by
//! the sign of the cross product, with ties (points collinear with the
//! anchor) ordered by distance, nearest first — a collinear run then
//! collapses on the stack until only its farthest point survives.

use vstd::prelude::*;
use crate::point::Point;
use crate::point::cross;
use crate::point::cross_product;
use crate::point::dist_sq;
use crate::point::points_in_range;

verus! {

/// `p` comes strictly after `o` in the sweep: above it, or level with it
/// and to its right. This holds of every input point other than the
/// anchor itself, and it confines the polar angles to `[0, pi)`.
pub open spec fn above_anchor(o: Point, p: Point) -> bool {
    p.y > o.y || (p.y == o.y && p.x > o.x)
}

/// `a` comes no later than `b` in the angular sweep around `o`:
/// strictly smaller polar angle, or the same angle and no farther.
pub open spec fn angle_leq(o: Point, a: Point, b: Point) -> bool {
    cross(o, a, b) > 0 || (cross(o, a, b) == 0 && dist_sq(o, a) <= dist_sq(o, b))
}

/// `s` is in sweep order around `o`.
pub open spec fn sorted_by_angle(o: Point, s: Seq<Point>) -> bool {
    forall|i: int, j: int| 0 <= i < j < s.len() ==> angle_leq(o, #[trigger] s[i], #[trigger] s[j])
}

/// A product of positive factors is positive; with a positive left
/// factor, the product carries the sign of the right factor.
proof fn lemma_pos_factor(a: int, b: int)
    requires
        a > 0,
    ensures
        a * b > 0 <==> b > 0,
        a * b == 0 <==> b == 0,
        a * b >= 0 <==> b >= 0,
{
    assert((a * b > 0 <==> b > 0) && (a * b == 0 <==> b == 0) && (a * b >= 0 <==> b >= 0))
        by (nonlinear_arith)
        requires
            a > 0,
    ;
}

/// A product of non-negative factors is non-negative, and zero forces a
/// zero factor.
proof fn lemma_nonneg_product(a: int, b: int)
    requires
        a >= 0,
        b > 0,
    ensures
        a * b >= 0,
        a * b == 0 ==> a == 0,
{
    assert(a * b >= 0 && (a * b == 0 ==> a == 0)) by (nonlinear_arith)
        requires
            a >= 0,
            b > 0,
    ;
}

/// The two-dimensional triple identity binding the three pairwise cross
/// products of the vectors `u`, `v`, `w`.
proof fn lemma_triple_identity(ux: int, uy: int, vx: int, vy: int, wx: int, wy: int)
    ensures
        vy * (ux * wy - uy * wx) == uy * (vx * wy - vy * wx) + wy * (ux * vy - uy * vx),
{
    assert(vy * (ux * wy - uy * wx) == uy * (vx * wy - vy * wx) + wy * (ux * vy - uy * vx))
        by (nonlinear_arith);
}

/// Swapping the rays negates the cross product.
proof fn lemma_cross_antisym_raw(ux: int, uy: int, vx: int, vy: int)
    ensures
        ux * vy - uy * vx == -(vx * uy - vy * ux),
{
    assert(ux * vy - uy * vx == -(vx * uy - vy * ux)) by (nonlinear_arith);
}

/// Any two points are ordered one way or the other around the anchor.
pub proof fn lemma_angle_leq_total(o: Point, a: Point, b: Point)
    ensures
        angle_leq(o, a, b) || angle_leq(o, b, a),
{
    lemma_cross_antisym_raw(a.x - o.x, a.y - o.y, b.x - o.x, b.y - o.y);
}

/// The sweep order is transitive for points above the anchor: with all
/// polar angles confined to `[0, pi)`, the cross-product sign orders the
/// rays, and distance breaks ties along one ray.
pub proof fn lemma_angle_leq_trans(o: Point, a: Point, b: Point, c: Point)
    requires
        above_anchor(o, a),
        above_anchor(o, b),
        above_anchor(o, c),
        angle_leq(o, a, b),
        angle_leq(o, b, c),
    ensures
        angle_leq(o, a, c),
{
    let ux: int = a.x - o.x;
    let uy: int = a.y - o.y;
    let vx: int = b.x - o.x;
    let vy: int = b.y - o.y;
    let wx: int = c.x - o.x;
    let wy: int = c.y - o.y;
    let cab: int = cross(o, a, b);
    let cbc: int = cross(o, b, c);
    let cac: int = cross(o, a, c);
    lemma_triple_identity(ux, uy, vx, vy, wx, wy);
    assert(vy * cac == uy * cbc + wy * cab);
    if vy == 0 {
        // b lies level with the anchor, so on the rightward ray at
        // angle zero; nothing can come before it.
        assert(vx > 0);
        assert(ux * vy == 0) by (nonlinear_arith)
            requires
                vy == 0,
        ;
        assert(cab == -(uy * vx));
        if cab > 0 {
            lemma_nonneg_product(uy, vx);
            assert(false);
        }
        // cab == 0, so uy * vx == 0 and a is on the same ray.
        lemma_nonneg_product(uy, vx);
        assert(uy == 0);
        assert(ux > 0);
        assert(vy * wx == 0) by (nonlinear_arith)
            requires
                vy == 0,
        ;
        assert(cbc == vx * wy);
        if cbc > 0 {
            lemma_pos_factor(vx, wy);
            assert(wy > 0);
            assert(cac == ux * wy - uy * wx);
            assert(uy * wx == 0) by (nonlinear_arith)
                requires
                    uy == 0,
            ;
            lemma_pos_factor(ux, wy);
            assert(cac > 0);
        } else {
            // c is on the ray too; distances chain.
            lemma_pos_factor(vx, wy);
            assert(wy == 0);
            assert(uy * wx == 0) by (nonlinear_arith)
                requires
                    uy == 0,
            ;
            assert(ux * wy == 0) by (nonlinear_arith)
                requires
                    wy == 0,
            ;
            assert(cac == 0);
        }
    } else {
        assert(vy > 0);
        if cab > 0 && cbc > 0 {
            lemma_nonneg_product(uy, cbc);
            lemma_nonneg_product(wy, cab);
            lemma_pos_factor(vy, cac);
            assert(cac >= 0);
            if cac == 0 {
                assert(uy * cbc == 0 && wy * cab == 0);
                assert(uy == 0 && wy == 0);
                assert(ux > 0 && wx > 0);
                assert(vx * wy == 0) by (nonlinear_arith)
                    requires
                        wy == 0,
                ;
                assert(cbc == -(vy * wx));
                assert(vy * wx > 0) by (nonlinear_arith)
                    requires
                        vy > 0,
                        wx > 0,
                ;
                assert(false);
            }
        } else if cab > 0 {
            // cbc == 0 with b no farther than c.
            lemma_nonneg_product(wy, cab);
            lemma_pos_factor(vy, cac);
            if wy == 0 {
                assert(wx > 0);
                assert(vx * wy == 0) by (nonlinear_arith)
                    requires
                        wy == 0,
                ;
                assert(cbc == -(vy * wx));
                assert(vy * wx > 0) by (nonlinear_arith)
                    requires
                        vy > 0,
                        wx > 0,
                ;
                assert(false);
            }
            assert(wy > 0);
            assert(wy * cab > 0) by (nonlinear_arith)
                requires
                    wy > 0,
                    cab > 0,
            ;
            assert(cac > 0);
        } else if cbc > 0 {
            // cab == 0 with a no farther than b.
            lemma_pos_factor(vy, cac);
            if uy == 0 {
                assert(ux > 0);
                assert(cab == ux * vy - uy * vx);
                assert(uy * vx == 0) by (nonlinear_arith)
                    requires
                        uy == 0,
                ;
                assert(ux * vy > 0) by (nonlinear_arith)
                    requires
                        ux > 0,
                        vy > 0,
                ;
                assert(false);
            }
            assert(uy > 0);
            assert(uy * cbc > 0) by (nonlinear_arith)
                requires
                    uy > 0,
                    cbc > 0,
            ;
            assert(cac > 0);
        } else {
            // Both collinear: everything on one ray; distances chain.
            assert(cab == 0 && cbc == 0);
            assert(uy * cbc == 0) by (nonlinear_arith)
                requires
                    cbc == 0,
            ;
            assert(wy * cab == 0) by (nonlinear_arith)
                requires
                    cab == 0,
            ;
            lemma_pos_factor(vy, cac);
            assert(cac == 0);
        }
    }
}


/// Every two input points away from `o` that lie on one ray from `o`
/// are equal: no two distinct points share a polar angle around the
/// anchor. Under this general-position condition the containment
/// argument below avoids the collinear tie cases.
pub open spec fn rays_distinct(o: Point, s: Seq<Point>) -> bool {
    forall|i: int, j: int|
        0 <= i < s.len() && 0 <= j < s.len() && s[i] != o && s[j] != o && cross(
            o,
            #[trigger] s[i],
            #[trigger] s[j],
        ) == 0 ==> s[i] == s[j]
}

/// `q` is never strictly right of a directed edge of the closed polygon
/// `hull`, the closing edge from the last vertex back to the first
/// included; for a counter-clockwise convex polygon this says `q` lies
/// inside it or on its boundary.
pub open spec fn point_in_hull(hull: Seq<Point>, q: Point) -> bool {
    &&& forall|t: int| 0 <= t < hull.len() - 1 ==> cross(#[trigger] hull[t], hull[t + 1], q) >= 0
    &&& hull.len() >= 2 ==> cross(hull[hull.len() - 1], hull[0], q) >= 0
}

/// Every three points of `s` are collinear.
pub open spec fn all_collinear(s: Seq<Point>) -> bool {
    forall|i: int, j: int, k: int|
        0 <= i < s.len() && 0 <= j < s.len() && 0 <= k < s.len() ==> #[trigger] cross(
            s[i],
            s[j],
            s[k],
        ) == 0
}

/// The two-dimensional Pluecker relation among the pairwise cross
/// products of four vectors, derived stepwise from the triple identity.
proof fn lemma_plucker(ux: int, uy: int, vx: int, vy: int, zx: int, zy: int, wx: int, wy: int)
    ensures
        (ux * vy - uy * vx) * (zx * wy - zy * wx) - (ux * zy - uy * zx) * (vx * wy - vy * wx) + (
        ux * wy - uy * wx) * (vx * zy - vy * zx) == 0,
{
    let s: int = ux * vy - uy * vx;
    let a: int = ux * wy - uy * wx;
    let b: int = vx * wy - vy * wx;
    let t: int = ux * zy - uy * zx;
    let r: int = vx * zy - vy * zx;
    let q: int = zx * wy - zy * wx;
    assert(s * wx == a * vx - b * ux) by (nonlinear_arith)
        requires
            s == ux * vy - uy * vx,
            a == ux * wy - uy * wx,
            b == vx * wy - vy * wx,
    ;
    assert(s * wy == a * vy - b * uy) by (nonlinear_arith)
        requires
            s == ux * vy - uy * vx,
            a == ux * wy - uy * wx,
            b == vx * wy - vy * wx,
    ;
    assert(s * q == zx * (s * wy) - zy * (s * wx)) by (nonlinear_arith)
        requires
            q == zx * wy - zy * wx,
    ;
    assert(zx * (a * vy - b * uy) == a * (zx * vy) - b * (zx * uy)) by (nonlinear_arith);
    assert(zy * (a * vx - b * ux) == a * (zy * vx) - b * (zy * ux)) by (nonlinear_arith);
    assert(a * (zx * vy) - a * (zy * vx) == a * (zx * vy - zy * vx)) by (nonlinear_arith);
    assert(b * (zx * uy) - b * (zy * ux) == b * (zx * uy - zy * ux)) by (nonlinear_arith);
    assert(zx * vy - zy * vx == -r) by (nonlinear_arith)
        requires
            r == vx * zy - vy * zx,
    ;
    assert(zx * uy - zy * ux == -t) by (nonlinear_arith)
        requires
            t == ux * zy - uy * zx,
    ;
    assert(s * q == a * (-r) - b * (-t));
    assert(s * q - t * b + a * r == 0) by (nonlinear_arith)
        requires
            s * q == a * (-r) - b * (-t),
    ;
}

/// The cross product is unchanged by rotating its three arguments.
proof fn lemma_cross_cyclic(o: Point, a: Point, b: Point)
    ensures
        cross(o, a, b) == cross(a, b, o),
{
    assert((a.x - o.x) * (b.y - o.y) - (a.y - o.y) * (b.x - o.x) == (b.x - a.x) * (o.y - a.y) - (
    b.y - a.y) * (o.x - a.x)) by (nonlinear_arith);
}

/// Swapping the first two arguments negates the cross product.
proof fn lemma_cross_swap01(o: Point, a: Point, b: Point)
    ensures
        cross(o, a, b) == -cross(a, o, b),
{
    assert((a.x - o.x) * (b.y - o.y) - (a.y - o.y) * (b.x - o.x) == -((o.x - a.x) * (b.y - a.y)
        - (o.y - a.y) * (b.x - a.x))) by (nonlinear_arith);
}

/// Moving the base of an orientation test: the signed area of the
/// triangle `(x, p, q)` decomposes over the base point `y`.
proof fn lemma_cross_rebase(x: Point, y: Point, p: Point, q: Point)
    ensures
        cross(x, p, q) == cross(y, p, q) + cross(x, y, q) - cross(x, y, p),
{
    assert((p.x - x.x) * (q.y - x.y) - (p.y - x.y) * (q.x - x.x) == ((p.x - y.x) * (q.y - y.y) - (
    p.y - y.y) * (q.x - y.x)) + ((y.x - x.x) * (q.y - x.y) - (y.y - x.y) * (q.x - x.x)) - ((y.x
        - x.x) * (p.y - x.y) - (y.y - x.y) * (p.x - x.x))) by (nonlinear_arith);
}

/// A cross product with a repeated argument vanishes.
proof fn lemma_cross_degenerate(o: Point, a: Point)
    ensures
        cross(o, a, o) == 0,
        cross(o, a, a) == 0,
        cross(o, o, a) == 0,
{
    assert((a.x - o.x) * (o.y - o.y) - (a.y - o.y) * (o.x - o.x) == 0) by (nonlinear_arith);
    assert((a.x - o.x) * (a.y - o.y) - (a.y - o.y) * (a.x - o.x) == 0) by (nonlinear_arith);
    assert((o.x - o.x) * (a.y - o.y) - (o.y - o.y) * (a.x - o.x) == 0) by (nonlinear_arith);
}

/// Two points of a general-position set that lie on one ray from `o`
/// are the same point.
proof fn lemma_rays_distinct_strict(s: Seq<Point>, o: Point, u: Point, v: Point)
    requires
        rays_distinct(o, s),
        s.contains(u),
        s.contains(v),
        u != o,
        v != o,
        u != v,
    ensures
        cross(o, u, v) != 0,
{
    let i = choose|i: int| 0 <= i < s.len() && s[i] == u;
    let j = choose|j: int| 0 <= j < s.len() && s[j] == v;
    if cross(o, u, v) == 0 {
        assert(cross(o, s[i], s[j]) == 0);
    }
}

/// Pop step of the containment argument. The chain edge `(x, y)` is
/// being removed because `p` is not strictly left of it. A point `q`
/// left of that edge and covered at `y` (through the anchor or through
/// `p`) stays covered at `x`.
proof fn lemma_pop_keeps_cover(a: Point, x: Point, y: Point, p: Point, q: Point)
    requires
        cross(a, x, y) > 0,
        cross(x, y, q) >= 0,
        cross(y, a, q) >= 0 || cross(y, p, q) >= 0,
        cross(x, y, p) <= 0,
        cross(a, y, p) >= 0,
    ensures
        cross(x, a, q) >= 0 || cross(x, p, q) >= 0,
{
    let s = cross(a, x, y);
    let a1 = cross(x, y, q);
    let d = cross(x, y, p);
    if cross(y, p, q) >= 0 {
        lemma_cross_rebase(x, y, p, q);
    } else {
        let b1 = cross(y, a, q);
        let e = cross(a, y, p);
        let g = cross(y, p, q);
        lemma_cross_rebase(x, y, a, q);
        assert(cross(x, y, a) == s) by {
            lemma_cross_cyclic(x, y, a);
            lemma_cross_cyclic(y, a, x);
        }
        if b1 + a1 - s >= 0 {
            assert(cross(x, a, q) >= 0);
        } else {
            // Pluecker at base y ties the quantities together.
            let ux = x.x - y.x;
            let uy = x.y - y.y;
            let vx = a.x - y.x;
            let vy = a.y - y.y;
            let zx = p.x - y.x;
            let zy = p.y - y.y;
            let wx = q.x - y.x;
            let wy = q.y - y.y;
            lemma_plucker(ux, uy, vx, vy, zx, zy, wx, wy);
            assert(ux * vy - uy * vx == cross(y, x, a));
            assert(zx * wy - zy * wx == cross(y, p, q));
            assert(ux * zy - uy * zx == cross(y, x, p));
            assert(vx * wy - vy * wx == cross(y, a, q));
            assert(ux * wy - uy * wx == cross(y, x, q));
            assert(vx * zy - vy * zx == cross(y, a, p));
            assert(cross(y, x, a) == -s) by {
                lemma_cross_swap01(y, x, a);
                lemma_cross_cyclic(x, y, a);
                lemma_cross_cyclic(y, a, x);
            }
            assert(cross(y, x, p) == -d) by {
                lemma_cross_swap01(y, x, p);
            }
            assert(cross(y, x, q) == -a1) by {
                lemma_cross_swap01(y, x, q);
            }
            assert(cross(y, a, p) == -e) by {
                lemma_cross_swap01(y, a, p);
                lemma_cross_cyclic(a, y, p);
            }
            // (-s) * g - (-d) * b1 + (-a1) * (-e) == 0
            assert((-s) * g == -(s * g)) by (nonlinear_arith);
            assert((-d) * b1 == -(d * b1)) by (nonlinear_arith);
            assert((-a1) * (-e) == a1 * e) by (nonlinear_arith);
            assert(s * g == d * b1 + a1 * e);
            lemma_cross_rebase(x, y, p, q);
            assert(cross(x, p, q) == g + a1 - d);
            assert(s * (g + a1 - d) == s * g + s * a1 - s * d) by (nonlinear_arith);
            assert(s * cross(x, p, q) == d * b1 + a1 * e + s * a1 - s * d);
            assert(a1 * e + s * a1 == a1 * (e + s)) by (nonlinear_arith);
            assert(d * b1 - s * d == d * (b1 - s)) by (nonlinear_arith);
            assert(s * cross(x, p, q) == a1 * (e + s) + d * (b1 - s));
            assert(a1 * (e + s) >= 0) by (nonlinear_arith)
                requires
                    a1 >= 0,
                    e >= 0,
                    s > 0,
            ;
            assert(d * (b1 - s) >= 0) by (nonlinear_arith)
                requires
                    d <= 0,
                    b1 + a1 - s < 0,
                    a1 >= 0,
            ;
            assert(s * cross(x, p, q) >= 0);
            lemma_pos_factor(s, cross(x, p, q));
        }
    }
}

/// Push step of the containment argument: a point left of the old last
/// edge and covered through the anchor stays left of the new edge from
/// the stack top to the candidate.
proof fn lemma_push_edge_cover(a: Point, prev: Point, top: Point, p: Point, q: Point)
    requires
        cross(a, prev, top) > 0,
        cross(prev, top, q) >= 0,
        cross(top, a, q) >= 0,
        cross(prev, top, p) > 0,
        cross(a, top, p) >= 0,
    ensures
        cross(top, p, q) >= 0,
{
    let s = cross(a, prev, top);
    let aa = cross(prev, top, q);
    let b = cross(top, a, q);
    let d = cross(prev, top, p);
    let e = cross(a, top, p);
    let g = cross(top, p, q);
    let ux = prev.x - top.x;
    let uy = prev.y - top.y;
    let vx = a.x - top.x;
    let vy = a.y - top.y;
    let zx = p.x - top.x;
    let zy = p.y - top.y;
    let wx = q.x - top.x;
    let wy = q.y - top.y;
    lemma_plucker(ux, uy, vx, vy, zx, zy, wx, wy);
    assert(ux * vy - uy * vx == cross(top, prev, a));
    assert(zx * wy - zy * wx == cross(top, p, q));
    assert(ux * zy - uy * zx == cross(top, prev, p));
    assert(vx * wy - vy * wx == cross(top, a, q));
    assert(ux * wy - uy * wx == cross(top, prev, q));
    assert(vx * zy - vy * zx == cross(top, a, p));
    assert(cross(top, prev, a) == -s) by {
        lemma_cross_swap01(top, prev, a);
        lemma_cross_cyclic(prev, top, a);
        lemma_cross_cyclic(top, a, prev);
    }
    assert(cross(top, prev, p) == -d) by {
        lemma_cross_swap01(top, prev, p);
    }
    assert(cross(top, prev, q) == -aa) by {
        lemma_cross_swap01(top, prev, q);
    }
    assert(cross(top, a, p) == -e) by {
        lemma_cross_swap01(top, a, p);
    }
    // (-s) * g - (-d) * b + (-aa) * (-e) == 0
    assert((-s) * g == -(s * g)) by (nonlinear_arith);
    assert((-d) * b == -(d * b)) by (nonlinear_arith);
    assert((-aa) * (-e) == aa * e) by (nonlinear_arith);
    assert(-(s * g) + (d * b) + aa * e == 0);
    assert(s * g == d * b + aa * e);
    assert(aa * e >= 0) by (nonlinear_arith)
        requires
            aa >= 0,
            e >= 0,
    ;
    assert(d * b >= 0) by (nonlinear_arith)
        requires
            d > 0,
            b >= 0,
    ;
    lemma_pos_factor(s, g);
}

/// Backward propagation: once the candidate is left of one chain edge,
/// it is left of the edge before it, using the anchor fan and the
/// strict chain turn at the shared vertex.
proof fn lemma_earlier_edge_left(a: Point, e1: Point, e2: Point, e3: Point, p: Point)
    requires
        cross(a, e1, e2) > 0,
        cross(a, e2, e3) > 0,
        cross(e1, e2, e3) > 0,
        cross(e2, e3, p) >= 0,
        cross(a, e2, p) >= 0,
    ensures
        cross(e1, e2, p) >= 0,
{
    let s1 = cross(a, e1, e2);
    let s2 = cross(a, e2, e3);
    let tt = cross(e1, e2, e3);
    let a3 = cross(e2, e3, p);
    let b3 = cross(a, e2, p);
    let g2 = cross(e1, e2, p);
    let ux = e1.x - e2.x;
    let uy = e1.y - e2.y;
    let vx = a.x - e2.x;
    let vy = a.y - e2.y;
    let zx = e3.x - e2.x;
    let zy = e3.y - e2.y;
    let wx = p.x - e2.x;
    let wy = p.y - e2.y;
    lemma_plucker(ux, uy, vx, vy, zx, zy, wx, wy);
    assert(ux * vy - uy * vx == cross(e2, e1, a));
    assert(zx * wy - zy * wx == cross(e2, e3, p));
    assert(ux * zy - uy * zx == cross(e2, e1, e3));
    assert(vx * wy - vy * wx == cross(e2, a, p));
    assert(ux * wy - uy * wx == cross(e2, e1, p));
    assert(vx * zy - vy * zx == cross(e2, a, e3));
    assert(cross(e2, e1, a) == -s1) by {
        lemma_cross_swap01(e2, e1, a);
        lemma_cross_cyclic(e1, e2, a);
        lemma_cross_cyclic(e2, a, e1);
    }
    assert(cross(e2, e1, e3) == -tt) by {
        lemma_cross_swap01(e2, e1, e3);
    }
    assert(cross(e2, a, p) == -b3) by {
        lemma_cross_swap01(e2, a, p);
    }
    assert(cross(e2, e1, p) == -g2) by {
        lemma_cross_swap01(e2, e1, p);
    }
    assert(cross(e2, a, e3) == -s2) by {
        lemma_cross_swap01(e2, a, e3);
    }
    // (-s1) * a3 - (-tt) * (-b3) + (-g2) * (-s2) == 0
    assert((-s1) * a3 == -(s1 * a3)) by (nonlinear_arith);
    assert((-tt) * (-b3) == tt * b3) by (nonlinear_arith);
    assert((-g2) * (-s2) == g2 * s2) by (nonlinear_arith);
    assert(g2 * s2 == s1 * a3 + tt * b3);
    assert(s1 * a3 >= 0) by (nonlinear_arith)
        requires
            s1 > 0,
            a3 >= 0,
    ;
    assert(tt * b3 >= 0) by (nonlinear_arith)
        requires
            tt > 0,
            b3 >= 0,
    ;
    assert(g2 * s2 >= 0);
    assert(s2 * g2 >= 0) by (nonlinear_arith)
        requires
            g2 * s2 >= 0,
    ;
    lemma_pos_factor(s2, g2);
}

/// Under general position, two distinct points ordered by the sweep sit
/// on strictly different rays, so the anchor fan triangle is strictly
/// counter-clockwise.
proof fn lemma_fan_strict(points: Seq<Point>, a: Point, u: Point, v: Point)
    requires
        rays_distinct(a, points),
        points.contains(u),
        points.contains(v),
        above_anchor(a, u),
        above_anchor(a, v),
        u != v,
        angle_leq(a, u, v),
    ensures
        cross(a, u, v) > 0,
{
    assert(u != a && v != a) by {
        if u == a {
            assert(above_anchor(a, u));
        }
        if v == a {
            assert(above_anchor(a, v));
        }
    }
    if cross(a, u, v) == 0 {
        lemma_rays_distinct_strict(points, a, u, v);
    }
}


/// Once the candidate is left of one chain edge, the backward steps of
/// [`lemma_earlier_edge_left`] make it left of every earlier edge.
#[verifier::rlimit(50)]
proof fn lemma_candidate_left_of_chain(
    points: Seq<Point>,
    a: Point,
    chain: Seq<Point>,
    p: Point,
    j: int,
)
    requires
        rays_distinct(a, points),
        chain.len() >= 2,
        chain[0] == a,
        0 <= j < chain.len() - 1,
        cross(chain[j], chain[j + 1], p) >= 0,
        forall|t: int|
            0 <= t && t + 2 < chain.len() ==> cross(#[trigger] chain[t], chain[t + 1], chain[t + 2])
                > 0,
        forall|t: int| 1 <= t < chain.len() ==> above_anchor(a, #[trigger] chain[t]),
        forall|t: int| 1 <= t < chain.len() ==> points.contains(#[trigger] chain[t]),
        forall|t: int| 0 <= t < chain.len() - 1 ==> #[trigger] chain[t] != chain[t + 1],
        forall|t1: int, t2: int|
            1 <= t1 < t2 < chain.len() ==> angle_leq(a, #[trigger] chain[t1], #[trigger] chain[t2]),
        forall|t: int| 1 <= t < chain.len() ==> angle_leq(a, #[trigger] chain[t], p),
    ensures
        forall|t: int| 0 <= t <= j ==> cross(#[trigger] chain[t], chain[t + 1], p) >= 0,
    decreases j,
{
    if j > 0 {
        if j == 1 {
            assert(angle_leq(a, chain[1], p));
            assert(cross(chain[0], chain[1], p) >= 0);
        } else {
            let e1 = chain[j - 1];
            let e2 = chain[j];
            let e3 = chain[j + 1];
            lemma_fan_strict(points, a, e1, e2);
            lemma_fan_strict(points, a, e2, e3);
            assert(cross(e1, e2, e3) > 0);
            assert(angle_leq(a, e2, p));
            lemma_earlier_edge_left(a, e1, e2, e3, p);
        }
        lemma_candidate_left_of_chain(points, a, chain, p, j - 1);
    }
}

/// The processed points (the first `idx` of the sweep) and the anchor
/// are left of every chain edge, and no chain edge is degenerate.
#[verifier::opaque]
spec fn scan_covered(anchor: Point, sorted: Seq<Point>, idx: int, hull: Seq<Point>) -> bool {
    &&& forall|w: int, t: int|
        #![trigger sorted[w], hull[t]]
        0 <= w < idx && 0 <= t < hull.len() - 1 ==> cross(hull[t], hull[t + 1], sorted[w]) >= 0
    &&& forall|t: int| 0 <= t < hull.len() - 1 ==> cross(#[trigger] hull[t], hull[t + 1], anchor)
        >= 0
    &&& forall|t: int| 0 <= t < hull.len() - 1 ==> #[trigger] hull[t] != hull[t + 1]
}

/// During the pop loop for candidate `p`, every processed point is
/// covered at the stack top: left of the ray back to the anchor or left
/// of the coming edge to `p`.
#[verifier::opaque]
spec fn pop_covered(anchor: Point, sorted: Seq<Point>, idx: int, p: Point, hull: Seq<Point>) -> bool {
    &&& forall|w: int|
        0 <= w < idx ==> (cross(hull[hull.len() - 1], anchor, #[trigger] sorted[w]) >= 0 || cross(
            hull[hull.len() - 1],
            p,
            sorted[w],
        ) >= 0)
    &&& (hull.len() == 1 ==> forall|w: int|
        0 <= w < idx ==> cross(anchor, p, #[trigger] sorted[w]) >= 0)
}

/// A single-vertex chain has no edges, so it covers trivially.
proof fn lemma_covered_init(anchor: Point, sorted: Seq<Point>, idx: int, hull: Seq<Point>)
    requires
        hull.len() == 1,
    ensures
        scan_covered(anchor, sorted, idx, hull),
{
    reveal(scan_covered);
}

/// With nothing processed yet, the cover holds trivially.
proof fn lemma_pop_covered_init(anchor: Point, sorted: Seq<Point>, p: Point, hull: Seq<Point>)
    ensures
        pop_covered(anchor, sorted, 0, p, hull),
{
    reveal(pop_covered);
}

/// When the pop loop starts, the stack top is the previous candidate,
/// which every processed point precedes in the sweep.
proof fn lemma_cover_at_entry(anchor: Point, sorted: Seq<Point>, idx: int, p: Point, hull: Seq<Point>)
    requires
        0 < idx <= sorted.len(),
        hull.len() >= 2,
        hull[hull.len() - 1] == sorted[idx - 1],
        sorted_by_angle(anchor, sorted),
    ensures
        pop_covered(anchor, sorted, idx, p, hull),
{
    reveal(pop_covered);
    let lastp = hull[hull.len() - 1];
    assert forall|w: int| 0 <= w < idx implies cross(lastp, anchor, #[trigger] sorted[w]) >= 0 by {
        if w < idx - 1 {
            assert(angle_leq(anchor, sorted[w], lastp));
        } else {
            lemma_cross_degenerate(anchor, lastp);
        }
        lemma_cross_cyclic(lastp, anchor, sorted[w]);
    }
}

/// One pop keeps the processed points covered and left of the
/// surviving edges.
#[verifier::rlimit(50)]
proof fn lemma_pop_step(
    points: Seq<Point>,
    anchor: Point,
    sorted: Seq<Point>,
    idx: int,
    p: Point,
    hull_old: Seq<Point>,
)
    requires
        rays_distinct(anchor, points),
        hull_old.len() >= 2,
        hull_old[0] == anchor,
        forall|t: int| 1 <= t < hull_old.len() ==> above_anchor(anchor, #[trigger] hull_old[t]),
        forall|t: int| 0 <= t < hull_old.len() ==> points.contains(#[trigger] hull_old[t]),
        forall|t1: int, t2: int|
            1 <= t1 < t2 < hull_old.len() ==> angle_leq(
                anchor,
                #[trigger] hull_old[t1],
                #[trigger] hull_old[t2],
            ),
        forall|t: int| 1 <= t < hull_old.len() ==> angle_leq(anchor, #[trigger] hull_old[t], p),
        0 <= idx < sorted.len(),
        p == sorted[idx],
        points.contains(p),
        above_anchor(anchor, p),
        scan_covered(anchor, sorted, idx, hull_old),
        pop_covered(anchor, sorted, idx, p, hull_old),
        cross(hull_old[hull_old.len() - 2], hull_old[hull_old.len() - 1], p) <= 0,
    ensures
        scan_covered(anchor, sorted, idx, hull_old.drop_last()),
        pop_covered(anchor, sorted, idx, p, hull_old.drop_last()),
{
    reveal(scan_covered);
    reveal(pop_covered);
    let hull_new = hull_old.drop_last();
    let x = hull_old[hull_old.len() - 2];
    let y = hull_old[hull_old.len() - 1];
    assert(forall|t: int| 0 <= t < hull_new.len() ==> hull_new[t] == hull_old[t]);
    assert forall|w: int, t: int|
        #![trigger sorted[w], hull_new[t]]
        0 <= w < idx && 0 <= t < hull_new.len() - 1 implies cross(
        hull_new[t],
        hull_new[t + 1],
        sorted[w],
    ) >= 0 by {
        assert(cross(hull_old[t], hull_old[t + 1], sorted[w]) >= 0);
    }
    assert forall|t: int| 0 <= t < hull_new.len() - 1 implies cross(
        #[trigger] hull_new[t],
        hull_new[t + 1],
        anchor,
    ) >= 0 by {
        assert(cross(hull_old[t], hull_old[t + 1], anchor) >= 0);
    }
    assert forall|t: int|
        0 <= t < hull_new.len() - 1 implies #[trigger] hull_new[t] != hull_new[t + 1] by {
        assert(hull_old[t] != hull_old[t + 1]);
    }
    assert(angle_leq(anchor, y, p));
    if hull_new.len() == 1 {
        // Popped from the anchor's single successor: the candidate lies
        // on the same ray, and by general position it is that point.
        assert(x == anchor);
        assert(cross(anchor, y, p) == 0);
        assert(y != anchor && p != anchor) by {
            if y == anchor {
                assert(above_anchor(anchor, y));
            }
            if p == anchor {
                assert(above_anchor(anchor, p));
            }
        }
        if y != p {
            lemma_rays_distinct_strict(points, anchor, y, p);
        }
        assert(y == p);
        assert forall|w: int| 0 <= w < idx implies cross(anchor, p, #[trigger] sorted[w])
            >= 0 by {
            assert(cross(hull_old[0int], hull_old[1int], sorted[w]) >= 0);
        }
        assert forall|w: int| 0 <= w < idx implies cross(
            hull_new[hull_new.len() - 1],
            anchor,
            #[trigger] sorted[w],
        ) >= 0 by {
            lemma_cross_degenerate(anchor, sorted[w]);
        }
    } else {
        assert(x != y);
        assert(x != anchor && y != anchor) by {
            if x == anchor {
                assert(above_anchor(anchor, x));
            }
            if y == anchor {
                assert(above_anchor(anchor, y));
            }
        }
        assert(angle_leq(anchor, x, y));
        lemma_fan_strict(points, anchor, x, y);
        assert forall|w: int| 0 <= w < idx implies (cross(
            hull_new[hull_new.len() - 1],
            anchor,
            #[trigger] sorted[w],
        ) >= 0 || cross(hull_new[hull_new.len() - 1], p, sorted[w]) >= 0) by {
            let q = sorted[w];
            let to = hull_old.len() - 2;
            assert(cross(hull_old[to], hull_old[to + 1], q) >= 0);
            assert(cross(y, anchor, q) >= 0 || cross(y, p, q) >= 0);
            lemma_pop_keeps_cover(anchor, x, y, p, q);
            assert(hull_new[hull_new.len() - 1] == x);
        }
    }
}

/// A covered processed point is left of the new edge from the stack top
/// to the candidate. When the top's predecessor is the anchor, the edge
/// conditions pin the point to the top's own ray.
proof fn lemma_push_new_edge(
    points: Seq<Point>,
    anchor: Point,
    prev: Point,
    top: Point,
    p: Point,
    q: Point,
)
    requires
        rays_distinct(anchor, points),
        points.contains(top),
        points.contains(q),
        above_anchor(anchor, top),
        above_anchor(anchor, p),
        above_anchor(anchor, q),
        prev == anchor || (points.contains(prev) && above_anchor(anchor, prev) && prev != top
            && angle_leq(anchor, prev, top)),
        cross(prev, top, q) >= 0,
        cross(top, anchor, q) >= 0 || cross(top, p, q) >= 0,
        cross(prev, top, p) > 0,
        angle_leq(anchor, top, p),
    ensures
        cross(top, p, q) >= 0,
{
    assert(top != anchor && q != anchor) by {
        if top == anchor {
            assert(above_anchor(anchor, top));
        }
        if q == anchor {
            assert(above_anchor(anchor, q));
        }
    }
    if cross(top, p, q) >= 0 {
    } else {
        assert(cross(top, anchor, q) >= 0);
        if prev == anchor {
            lemma_cross_swap01(top, anchor, q);
            assert(cross(anchor, top, q) == 0);
            if q != top {
                lemma_rays_distinct_strict(points, anchor, top, q);
            }
            lemma_cross_degenerate(top, p);
            assert(cross(top, p, q) >= 0);
        } else {
            lemma_fan_strict(points, anchor, prev, top);
            lemma_push_edge_cover(anchor, prev, top, p, q);
        }
    }
}


/// No two consecutive points of the longer chain are equal.
proof fn lemma_push_distinct(anchor: Point, chain: Seq<Point>, p: Point, hull_new: Seq<Point>)
    requires
        hull_new.len() == chain.len() + 1,
        forall|t: int| 0 <= t < chain.len() ==> #[trigger] hull_new[t] == chain[t],
        hull_new[chain.len() as int] == p,
        chain.len() >= 1,
        chain[0] == anchor,
        above_anchor(anchor, p),
        forall|t: int| 0 <= t < chain.len() - 1 ==> #[trigger] chain[t] != chain[t + 1],
        chain.len() == 1 || cross(chain[chain.len() - 2], chain[chain.len() - 1], p) > 0,
    ensures
        forall|t: int|
            0 <= t < hull_new.len() - 1 ==> #[trigger] hull_new[t] != hull_new[t + 1],
{
    let cl = chain.len() as int;
    assert(p != anchor) by {
        if p == anchor {
            assert(above_anchor(anchor, p));
        }
    }
    assert forall|t: int|
        0 <= t < hull_new.len() - 1 implies #[trigger] hull_new[t] != hull_new[t + 1] by {
        if t == cl - 1 {
            if cl >= 2 && chain[t] == p {
                lemma_cross_degenerate(chain[cl - 2], p);
                assert(cross(chain[cl - 2], chain[cl - 1], p) > 0);
            }
        } else if t < cl - 1 {
            assert(chain[t] != chain[t + 1]);
        }
    }
}

/// The anchor stays left of every edge of the longer chain.
proof fn lemma_push_anchor_cover(anchor: Point, chain: Seq<Point>, p: Point, hull_new: Seq<Point>)
    requires
        hull_new.len() == chain.len() + 1,
        forall|t: int| 0 <= t < chain.len() ==> #[trigger] hull_new[t] == chain[t],
        hull_new[chain.len() as int] == p,
        chain.len() >= 1,
        chain[0] == anchor,
        forall|t: int| 1 <= t < chain.len() ==> angle_leq(anchor, #[trigger] chain[t], p),
        forall|t: int|
            0 <= t < chain.len() - 1 ==> cross(#[trigger] chain[t], chain[t + 1], anchor) >= 0,
    ensures
        forall|t: int|
            0 <= t < hull_new.len() - 1 ==> cross(#[trigger] hull_new[t], hull_new[t + 1], anchor)
                >= 0,
{
    let cl = chain.len() as int;
    assert forall|t: int| 0 <= t < hull_new.len() - 1 implies cross(
        #[trigger] hull_new[t],
        hull_new[t + 1],
        anchor,
    ) >= 0 by {
        if t == cl - 1 {
            if cl == 1 {
                lemma_cross_degenerate(anchor, p);
            } else {
                let top = chain[cl - 1];
                assert(angle_leq(anchor, top, p));
                lemma_cross_cyclic(top, p, anchor);
                lemma_cross_cyclic(p, anchor, top);
            }
        } else {
            assert(cross(chain[t], chain[t + 1], anchor) >= 0);
        }
    }
}

/// The processed points and the candidate itself are left of every
/// edge the chain already had.
proof fn lemma_push_old_edges(
    sorted: Seq<Point>,
    idx: int,
    p: Point,
    chain: Seq<Point>,
)
    requires
        0 <= idx < sorted.len(),
        p == sorted[idx],
        forall|w: int, t: int|
            #![trigger sorted[w], chain[t]]
            0 <= w < idx && 0 <= t < chain.len() - 1 ==> cross(chain[t], chain[t + 1], sorted[w])
                >= 0,
        forall|t: int| 0 <= t < chain.len() - 1 ==> cross(#[trigger] chain[t], chain[t + 1], p)
            >= 0,
    ensures
        forall|w: int, t: int|
            #![trigger sorted[w], chain[t]]
            0 <= w < idx + 1 && 0 <= t < chain.len() - 1 ==> cross(
                chain[t],
                chain[t + 1],
                sorted[w],
            ) >= 0,
{
}

/// The processed points and the candidate itself are left of the new
/// edge from the stack top to the candidate.
#[verifier::rlimit(50)]
proof fn lemma_push_last_edge(
    points: Seq<Point>,
    anchor: Point,
    sorted: Seq<Point>,
    idx: int,
    p: Point,
    chain: Seq<Point>,
)
    requires
        rays_distinct(anchor, points),
        chain.len() >= 1,
        chain[0] == anchor,
        forall|t: int| 1 <= t < chain.len() ==> above_anchor(anchor, #[trigger] chain[t]),
        forall|t: int| 0 <= t < chain.len() ==> points.contains(#[trigger] chain[t]),
        forall|t1: int, t2: int|
            1 <= t1 < t2 < chain.len() ==> angle_leq(
                anchor,
                #[trigger] chain[t1],
                #[trigger] chain[t2],
            ),
        forall|t: int| 1 <= t < chain.len() ==> angle_leq(anchor, #[trigger] chain[t], p),
        forall|w: int| 0 <= w < sorted.len() ==> above_anchor(anchor, #[trigger] sorted[w]),
        forall|w: int| 0 <= w < sorted.len() ==> points.contains(#[trigger] sorted[w]),
        0 <= idx < sorted.len(),
        p == sorted[idx],
        points.contains(p),
        above_anchor(anchor, p),
        forall|t: int| 0 <= t < chain.len() - 1 ==> #[trigger] chain[t] != chain[t + 1],
        forall|w: int, t: int|
            #![trigger sorted[w], chain[t]]
            0 <= w < idx && 0 <= t < chain.len() - 1 ==> cross(chain[t], chain[t + 1], sorted[w])
                >= 0,
        forall|w: int|
            0 <= w < idx ==> (cross(chain[chain.len() - 1], anchor, #[trigger] sorted[w]) >= 0
                || cross(chain[chain.len() - 1], p, sorted[w]) >= 0),
        chain.len() == 1 ==> forall|w: int|
            0 <= w < idx ==> cross(anchor, p, #[trigger] sorted[w]) >= 0,
        chain.len() == 1 || cross(chain[chain.len() - 2], chain[chain.len() - 1], p) > 0,
    ensures
        forall|w: int|
            0 <= w < idx + 1 ==> cross(chain[chain.len() - 1], p, #[trigger] sorted[w]) >= 0,
{
    let cl = chain.len() as int;
    let top = chain[cl - 1];
    assert forall|w: int| 0 <= w < idx + 1 implies cross(top, p, #[trigger] sorted[w]) >= 0 by {
        let q = sorted[w];
        if w == idx {
            lemma_cross_degenerate(top, p);
        } else if cl == 1 {
            assert(cross(anchor, p, q) >= 0);
        } else {
            let prev = chain[cl - 2];
            assert(cross(chain[cl - 2], chain[cl - 2 + 1], q) >= 0);
            assert(cross(top, anchor, q) >= 0 || cross(top, p, q) >= 0);
            if cl >= 3 {
                assert(prev != anchor) by {
                    if prev == anchor {
                        assert(above_anchor(anchor, prev));
                    }
                }
                assert(prev != top);
                assert(angle_leq(anchor, prev, top));
            }
            assert(angle_leq(anchor, top, p));
            lemma_push_new_edge(points, anchor, prev, top, p, q);
        }
    }
}

/// The candidate is left of every edge of the chain, not only the
/// last one the pop loop tested.
#[verifier::rlimit(50)]
#[verifier::spinoff_prover]
proof fn lemma_candidate_left_all(points: Seq<Point>, a: Point, chain: Seq<Point>, p: Point)
    requires
        rays_distinct(a, points),
        chain.len() >= 2,
        chain[0] == a,
        cross(chain[chain.len() - 2], chain[chain.len() - 1], p) >= 0,
        forall|t: int|
            0 <= t && t + 2 < chain.len() ==> cross(#[trigger] chain[t], chain[t + 1], chain[t + 2])
                > 0,
        forall|t: int| 1 <= t < chain.len() ==> above_anchor(a, #[trigger] chain[t]),
        forall|t: int| 1 <= t < chain.len() ==> points.contains(#[trigger] chain[t]),
        forall|t: int| 0 <= t < chain.len() - 1 ==> #[trigger] chain[t] != chain[t + 1],
        forall|t1: int, t2: int|
            1 <= t1 < t2 < chain.len() ==> angle_leq(a, #[trigger] chain[t1], #[trigger] chain[t2]),
        forall|t: int| 1 <= t < chain.len() ==> angle_leq(a, #[trigger] chain[t], p),
    ensures
        forall|t: int| 0 <= t < chain.len() - 1 ==> cross(#[trigger] chain[t], chain[t + 1], p)
            >= 0,
{
    lemma_candidate_left_of_chain(points, a, chain, p, chain.len() - 2);
    assert forall|t: int|
        0 <= t < chain.len() - 1 implies cross(#[trigger] chain[t], chain[t + 1], p) >= 0 by {
        assert(0 <= t <= chain.len() - 2);
    }
}

/// Reading the covered state of the chain back as plain facts.
proof fn lemma_unpack_scan_covered(anchor: Point, sorted: Seq<Point>, idx: int, hull: Seq<Point>)
    requires
        scan_covered(anchor, sorted, idx, hull),
    ensures
        forall|w: int, t: int|
            #![trigger sorted[w], hull[t]]
            0 <= w < idx && 0 <= t < hull.len() - 1 ==> cross(hull[t], hull[t + 1], sorted[w])
                >= 0,
        forall|t: int| 0 <= t < hull.len() - 1 ==> cross(#[trigger] hull[t], hull[t + 1], anchor)
            >= 0,
        forall|t: int| 0 <= t < hull.len() - 1 ==> #[trigger] hull[t] != hull[t + 1],
{
    reveal(scan_covered);
}

/// Reading the pop cover back as plain facts.
proof fn lemma_unpack_pop_covered(
    anchor: Point,
    sorted: Seq<Point>,
    idx: int,
    p: Point,
    hull: Seq<Point>,
)
    requires
        pop_covered(anchor, sorted, idx, p, hull),
    ensures
        forall|w: int|
            0 <= w < idx ==> (cross(hull[hull.len() - 1], anchor, #[trigger] sorted[w]) >= 0
                || cross(hull[hull.len() - 1], p, sorted[w]) >= 0),
        hull.len() == 1 ==> forall|w: int|
            0 <= w < idx ==> cross(anchor, p, #[trigger] sorted[w]) >= 0,
{
    reveal(pop_covered);
}

/// Bundling plain facts back into the covered state.
proof fn lemma_pack_scan_covered(anchor: Point, sorted: Seq<Point>, idx: int, hull: Seq<Point>)
    requires
        forall|w: int, t: int|
            #![trigger sorted[w], hull[t]]
            0 <= w < idx && 0 <= t < hull.len() - 1 ==> cross(hull[t], hull[t + 1], sorted[w])
                >= 0,
        forall|t: int| 0 <= t < hull.len() - 1 ==> cross(#[trigger] hull[t], hull[t + 1], anchor)
            >= 0,
        forall|t: int| 0 <= t < hull.len() - 1 ==> #[trigger] hull[t] != hull[t + 1],
    ensures
        scan_covered(anchor, sorted, idx, hull),
{
    reveal(scan_covered);
}

/// Re-indexing the edge facts from the chain to the chain with the
/// candidate appended.
proof fn lemma_map_edges_to_push(
    sorted: Seq<Point>,
    idx: int,
    p: Point,
    chain: Seq<Point>,
    hull_new: Seq<Point>,
)
    requires
        hull_new.len() == chain.len() + 1,
        forall|t: int| 0 <= t < chain.len() ==> #[trigger] hull_new[t] == chain[t],
        hull_new[chain.len() as int] == p,
        chain.len() >= 1,
        forall|w: int, t: int|
            #![trigger sorted[w], chain[t]]
            0 <= w < idx + 1 && 0 <= t < chain.len() - 1 ==> cross(
                chain[t],
                chain[t + 1],
                sorted[w],
            ) >= 0,
        forall|w: int|
            0 <= w < idx + 1 ==> cross(chain[chain.len() - 1], p, #[trigger] sorted[w]) >= 0,
    ensures
        forall|w: int, t: int|
            #![trigger sorted[w], hull_new[t]]
            0 <= w < idx + 1 && 0 <= t < hull_new.len() - 1 ==> cross(
                hull_new[t],
                hull_new[t + 1],
                sorted[w],
            ) >= 0,
{
    let cl = chain.len() as int;
    assert forall|w: int, t: int|
        #![trigger sorted[w], hull_new[t]]
        0 <= w < idx + 1 && 0 <= t < hull_new.len() - 1 implies cross(
        hull_new[t],
        hull_new[t + 1],
        sorted[w],
    ) >= 0 by {
        if t == cl - 1 {
            assert(hull_new[t] == chain[cl - 1] && hull_new[t + 1] == p);
            assert(cross(chain[cl - 1], p, sorted[w]) >= 0);
        } else {
            assert(hull_new[t] == chain[t] && hull_new[t + 1] == chain[t + 1]);
            assert(cross(chain[t], chain[t + 1], sorted[w]) >= 0);
        }
    }
}

/// The processed points and the candidate are left of the chain edges.
#[verifier::opaque]
spec fn old_edges_ok(sorted: Seq<Point>, idx: int, chain: Seq<Point>) -> bool {
    forall|w: int, t: int|
        #![trigger sorted[w], chain[t]]
        0 <= w < idx + 1 && 0 <= t < chain.len() - 1 ==> cross(chain[t], chain[t + 1], sorted[w])
            >= 0
}

/// The processed points and the candidate are left of the coming edge.
#[verifier::opaque]
spec fn last_edge_ok(sorted: Seq<Point>, idx: int, p: Point, chain: Seq<Point>) -> bool {
    forall|w: int| 0 <= w < idx + 1 ==> cross(chain[chain.len() - 1], p, #[trigger] sorted[w]) >= 0
}

/// First push stage: the old chain edges still cover everything
/// processed, the candidate included.
#[verifier::rlimit(100)]
#[verifier::spinoff_prover]
proof fn lemma_push_edges_a(
    points: Seq<Point>,
    anchor: Point,
    sorted: Seq<Point>,
    idx: int,
    p: Point,
    chain: Seq<Point>,
)
    requires
        rays_distinct(anchor, points),
        chain.len() >= 1,
        chain[0] == anchor,
        forall|t: int| 1 <= t < chain.len() ==> above_anchor(anchor, #[trigger] chain[t]),
        forall|t: int| 1 <= t < chain.len() ==> points.contains(#[trigger] chain[t]),
        forall|t1: int, t2: int|
            1 <= t1 < t2 < chain.len() ==> angle_leq(
                anchor,
                #[trigger] chain[t1],
                #[trigger] chain[t2],
            ),
        forall|t: int|
            0 <= t && t + 2 < chain.len() ==> cross(#[trigger] chain[t], chain[t + 1], chain[t + 2])
                > 0,
        forall|t: int| 1 <= t < chain.len() ==> angle_leq(anchor, #[trigger] chain[t], p),
        0 <= idx < sorted.len(),
        p == sorted[idx],
        above_anchor(anchor, p),
        scan_covered(anchor, sorted, idx, chain),
        chain.len() == 1 || cross(chain[chain.len() - 2], chain[chain.len() - 1], p) > 0,
    ensures
        old_edges_ok(sorted, idx, chain),
{
    reveal(old_edges_ok);
    lemma_unpack_scan_covered(anchor, sorted, idx, chain);
    if chain.len() >= 2 {
        lemma_candidate_left_all(points, anchor, chain, p);
    }
    lemma_push_old_edges(sorted, idx, p, chain);
}

/// Second push stage: the edge from the stack top to the candidate
/// covers everything processed.
#[verifier::rlimit(100)]
#[verifier::spinoff_prover]
proof fn lemma_push_edges_b(
    points: Seq<Point>,
    anchor: Point,
    sorted: Seq<Point>,
    idx: int,
    p: Point,
    chain: Seq<Point>,
)
    requires
        rays_distinct(anchor, points),
        chain.len() >= 1,
        chain[0] == anchor,
        forall|t: int| 1 <= t < chain.len() ==> above_anchor(anchor, #[trigger] chain[t]),
        forall|t: int| 0 <= t < chain.len() ==> points.contains(#[trigger] chain[t]),
        forall|t1: int, t2: int|
            1 <= t1 < t2 < chain.len() ==> angle_leq(
                anchor,
                #[trigger] chain[t1],
                #[trigger] chain[t2],
            ),
        forall|t: int| 1 <= t < chain.len() ==> angle_leq(anchor, #[trigger] chain[t], p),
        forall|w: int| 0 <= w < sorted.len() ==> above_anchor(anchor, #[trigger] sorted[w]),
        forall|w: int| 0 <= w < sorted.len() ==> points.contains(#[trigger] sorted[w]),
        0 <= idx < sorted.len(),
        p == sorted[idx],
        points.contains(p),
        above_anchor(anchor, p),
        scan_covered(anchor, sorted, idx, chain),
        pop_covered(anchor, sorted, idx, p, chain),
        chain.len() == 1 || cross(chain[chain.len() - 2], chain[chain.len() - 1], p) > 0,
    ensures
        last_edge_ok(sorted, idx, p, chain),
{
    reveal(last_edge_ok);
    lemma_unpack_scan_covered(anchor, sorted, idx, chain);
    lemma_unpack_pop_covered(anchor, sorted, idx, p, chain);
    lemma_push_last_edge(points, anchor, sorted, idx, p, chain);
}

/// Third push stage: the edge facts re-indexed onto the longer chain
/// and bundled back into the covered state.
#[verifier::rlimit(100)]
#[verifier::spinoff_prover]
proof fn lemma_push_pack(
    anchor: Point,
    sorted: Seq<Point>,
    idx: int,
    p: Point,
    chain: Seq<Point>,
    hull_new: Seq<Point>,
)
    requires
        hull_new.len() == chain.len() + 1,
        forall|t: int| 0 <= t < chain.len() ==> #[trigger] hull_new[t] == chain[t],
        hull_new[chain.len() as int] == p,
        chain.len() >= 1,
        chain[0] == anchor,
        above_anchor(anchor, p),
        0 <= idx < sorted.len(),
        p == sorted[idx],
        forall|t: int| 1 <= t < chain.len() ==> angle_leq(anchor, #[trigger] chain[t], p),
        scan_covered(anchor, sorted, idx, chain),
        chain.len() == 1 || cross(chain[chain.len() - 2], chain[chain.len() - 1], p) > 0,
        old_edges_ok(sorted, idx, chain),
        last_edge_ok(sorted, idx, p, chain),
    ensures
        scan_covered(anchor, sorted, idx + 1, hull_new),
{
    reveal(old_edges_ok);
    reveal(last_edge_ok);
    lemma_unpack_scan_covered(anchor, sorted, idx, chain);
    lemma_push_distinct(anchor, chain, p, hull_new);
    lemma_push_anchor_cover(anchor, chain, p, hull_new);
    lemma_map_edges_to_push(sorted, idx, p, chain, hull_new);
    lemma_pack_scan_covered(anchor, sorted, idx + 1, hull_new);
}

/// The push step in one piece: after the pop loop, appending the
/// candidate keeps everything processed covered by the longer chain.
proof fn lemma_push_all(
    points: Seq<Point>,
    anchor: Point,
    sorted: Seq<Point>,
    idx: int,
    p: Point,
    chain: Seq<Point>,
    hull_new: Seq<Point>,
)
    requires
        hull_new.len() == chain.len() + 1,
        forall|t: int| 0 <= t < chain.len() ==> #[trigger] hull_new[t] == chain[t],
        hull_new[chain.len() as int] == p,
        rays_distinct(anchor, points),
        chain.len() >= 1,
        chain[0] == anchor,
        forall|t: int| 1 <= t < chain.len() ==> above_anchor(anchor, #[trigger] chain[t]),
        forall|t: int| 0 <= t < chain.len() ==> points.contains(#[trigger] chain[t]),
        forall|t1: int, t2: int|
            1 <= t1 < t2 < chain.len() ==> angle_leq(
                anchor,
                #[trigger] chain[t1],
                #[trigger] chain[t2],
            ),
        forall|t: int|
            0 <= t && t + 2 < chain.len() ==> cross(#[trigger] chain[t], chain[t + 1], chain[t + 2])
                > 0,
        forall|t: int| 1 <= t < chain.len() ==> angle_leq(anchor, #[trigger] chain[t], p),
        forall|w: int| 0 <= w < sorted.len() ==> above_anchor(anchor, #[trigger] sorted[w]),
        forall|w: int| 0 <= w < sorted.len() ==> points.contains(#[trigger] sorted[w]),
        0 <= idx < sorted.len(),
        p == sorted[idx],
        points.contains(p),
        above_anchor(anchor, p),
        scan_covered(anchor, sorted, idx, chain),
        pop_covered(anchor, sorted, idx, p, chain),
        chain.len() == 1 || cross(chain[chain.len() - 2], chain[chain.len() - 1], p) > 0,
    ensures
        scan_covered(anchor, sorted, idx + 1, hull_new),
{
    lemma_push_edges_a(points, anchor, sorted, idx, p, chain);
    lemma_push_edges_b(points, anchor, sorted, idx, p, chain);
    lemma_push_pack(anchor, sorted, idx, p, chain, hull_new);
}

/// Pushing the candidate keeps the stack in sweep order, and the next
/// candidate still comes after everything on the stack.
proof fn lemma_push_sweep(
    anchor: Point,
    sorted: Seq<Point>,
    idx: int,
    chain: Seq<Point>,
    hull_new: Seq<Point>,
)
    requires
        0 <= idx < sorted.len(),
        hull_new.len() == chain.len() + 1,
        forall|t: int| 0 <= t < chain.len() ==> #[trigger] hull_new[t] == chain[t],
        hull_new[chain.len() as int] == sorted[idx],
        sorted_by_angle(anchor, sorted),
        forall|w: int| 0 <= w < sorted.len() ==> above_anchor(anchor, #[trigger] sorted[w]),
        forall|t1: int, t2: int|
            1 <= t1 < t2 < chain.len() ==> angle_leq(
                anchor,
                #[trigger] chain[t1],
                #[trigger] chain[t2],
            ),
        forall|t: int| 1 <= t < chain.len() ==> above_anchor(anchor, #[trigger] chain[t]),
        forall|t: int| 1 <= t < chain.len() ==> angle_leq(anchor, #[trigger] chain[t], sorted[idx]),
    ensures
        forall|t1: int, t2: int|
            1 <= t1 < t2 < hull_new.len() ==> angle_leq(
                anchor,
                #[trigger] hull_new[t1],
                #[trigger] hull_new[t2],
            ),
        idx + 1 < sorted.len() ==> forall|t: int|
            1 <= t < hull_new.len() ==> angle_leq(anchor, #[trigger] hull_new[t], sorted[idx + 1]),
{
    let p = sorted[idx];
    let len = hull_new.len() as int;
    assert(forall|t: int| 0 <= t < chain.len() ==> hull_new[t] == chain[t]);
    assert forall|t1: int, t2: int|
        1 <= t1 < t2 < len implies angle_leq(
        anchor,
        #[trigger] hull_new[t1],
        #[trigger] hull_new[t2],
    ) by {
        if t2 == len - 1 {
            assert(angle_leq(anchor, chain[t1], p));
        }
    }
    if idx + 1 < sorted.len() {
        assert forall|t: int| 1 <= t < len implies angle_leq(
            anchor,
            #[trigger] hull_new[t],
            sorted[idx + 1],
        ) by {
            if t < len - 1 {
                lemma_angle_leq_trans(anchor, chain[t], p, sorted[idx + 1]);
            } else {
                assert(hull_new[t] == p);
                assert(angle_leq(anchor, sorted[idx], sorted[idx + 1]));
            }
        }
    }
}

/// After the sweep, every input point is left of every directed edge of
/// the closed hull polygon.
proof fn lemma_scan_containment(
    points: Seq<Point>,
    anchor: Point,
    sorted: Seq<Point>,
    hull: Seq<Point>,
)
    requires
        hull.len() >= 1,
        hull[0] == anchor,
        scan_covered(anchor, sorted, sorted.len() as int, hull),
        forall|k: int|
            0 <= k < points.len() && points[k] != anchor ==> sorted.contains(#[trigger] points[k]),
        forall|k: int|
            0 <= k < points.len() && points[k] != anchor ==> angle_leq(
                anchor,
                #[trigger] points[k],
                hull[hull.len() - 1],
            ),
    ensures
        forall|k: int| 0 <= k < points.len() ==> point_in_hull(hull, #[trigger] points[k]),
{
    reveal(scan_covered);
    assert forall|k: int| 0 <= k < points.len() implies point_in_hull(
        hull,
        #[trigger] points[k],
    ) by {
        let q = points[k];
        assert forall|t: int| 0 <= t < hull.len() - 1 implies cross(
            #[trigger] hull[t],
            hull[t + 1],
            q,
        ) >= 0 by {
            if q != anchor {
                assert(sorted.contains(q));
                let w = choose|w: int| 0 <= w < sorted.len() && sorted[w] == q;
                assert(cross(hull[t], hull[t + 1], sorted[w]) >= 0);
            }
        }
        if hull.len() >= 2 {
            let last = hull[hull.len() - 1];
            if q == anchor {
                lemma_cross_degenerate(anchor, last);
                lemma_cross_cyclic(anchor, last, anchor);
            } else {
                assert(angle_leq(anchor, q, last));
                lemma_cross_cyclic(anchor, q, last);
                lemma_cross_cyclic(q, last, anchor);
            }
        }
    }
}


/// The x-component companion of [`lemma_triple_identity`].
proof fn lemma_triple_identity_x(ux: int, uy: int, vx: int, vy: int, wx: int, wy: int)
    ensures
        vx * (ux * wy - uy * wx) == ux * (vx * wy - vy * wx) + wx * (ux * vy - uy * vx),
{
    assert(vx * (ux * wy - uy * wx) == ux * (vx * wy - vy * wx) + wx * (ux * vy - uy * vx))
        by (nonlinear_arith);
}

/// A product with a non-zero factor vanishes only with the other.
proof fn lemma_nonzero_factor(a: int, b: int)
    requires
        a != 0,
        a * b == 0,
    ensures
        b == 0,
{
    assert(b == 0) by (nonlinear_arith)
        requires
            a != 0,
            a * b == 0,
    ;
}

/// Three points on the line through two distinct points are collinear
/// with each other.
proof fn lemma_collinear_compose(d0: Point, d1: Point, x: Point, y: Point, z: Point)
    requires
        d0 != d1,
        cross(d0, d1, x) == 0,
        cross(d0, d1, y) == 0,
        cross(d0, d1, z) == 0,
    ensures
        cross(x, y, z) == 0,
{
    let dx = d1.x - d0.x;
    let dy = d1.y - d0.y;
    let ux = y.x - x.x;
    let uy = y.y - x.y;
    let vx = z.x - x.x;
    let vy = z.y - x.y;
    assert(dx != 0 || dy != 0);
    // The direction of the line is orthogonal-free of both chords.
    assert(dx * uy - dy * ux == 0) by (nonlinear_arith)
        requires
            dx == d1.x - d0.x,
            dy == d1.y - d0.y,
            ux == y.x - x.x,
            uy == y.y - x.y,
            (d1.x - d0.x) * (x.y - d0.y) - (d1.y - d0.y) * (x.x - d0.x) == 0,
            (d1.x - d0.x) * (y.y - d0.y) - (d1.y - d0.y) * (y.x - d0.x) == 0,
    ;
    assert(dx * vy - dy * vx == 0) by (nonlinear_arith)
        requires
            dx == d1.x - d0.x,
            dy == d1.y - d0.y,
            vx == z.x - x.x,
            vy == z.y - x.y,
            (d1.x - d0.x) * (x.y - d0.y) - (d1.y - d0.y) * (x.x - d0.x) == 0,
            (d1.x - d0.x) * (z.y - d0.y) - (d1.y - d0.y) * (z.x - d0.x) == 0,
    ;
    lemma_triple_identity(ux, uy, dx, dy, vx, vy);
    lemma_triple_identity_x(ux, uy, dx, dy, vx, vy);
    lemma_cross_antisym_raw(ux, uy, dx, dy);
    assert(dy * (ux * vy - uy * vx) == 0);
    assert(dx * (ux * vy - uy * vx) == 0);
    if dy != 0 {
        lemma_nonzero_factor(dy, ux * vy - uy * vx);
    } else {
        lemma_nonzero_factor(dx, ux * vy - uy * vx);
    }
}

/// Strictly increasing sweep angles compose strictly.
proof fn lemma_cross_strict_trans(o: Point, a: Point, b: Point, c: Point)
    requires
        above_anchor(o, a),
        above_anchor(o, b),
        above_anchor(o, c),
        cross(o, a, b) > 0,
        cross(o, b, c) > 0,
    ensures
        cross(o, a, c) > 0,
{
    let ux: int = a.x - o.x;
    let uy: int = a.y - o.y;
    let vx: int = b.x - o.x;
    let vy: int = b.y - o.y;
    let wx: int = c.x - o.x;
    let wy: int = c.y - o.y;
    let cab: int = cross(o, a, b);
    let cbc: int = cross(o, b, c);
    let cac: int = cross(o, a, c);
    lemma_triple_identity(ux, uy, vx, vy, wx, wy);
    assert(vy * cac == uy * cbc + wy * cab);
    if vy == 0 {
        assert(vx > 0);
        assert(ux * vy == 0) by (nonlinear_arith)
            requires
                vy == 0,
        ;
        assert(cab == -(uy * vx));
        lemma_nonneg_product(uy, vx);
        assert(false);
    } else {
        lemma_nonneg_product(uy, cbc);
        lemma_nonneg_product(wy, cab);
        lemma_pos_factor(vy, cac);
        assert(cac >= 0);
        if cac == 0 {
            assert(uy * cbc == 0 && wy * cab == 0);
            assert(uy == 0 && wy == 0);
            assert(ux > 0 && wx > 0);
            assert(vx * wy == 0) by (nonlinear_arith)
                requires
                    wy == 0,
            ;
            assert(cbc == -(vy * wx));
            assert(vy * wx > 0) by (nonlinear_arith)
                requires
                    vy > 0,
                    wx > 0,
            ;
            assert(false);
        }
    }
}

/// The anchor sees the whole chain beyond its first vertex strictly
/// counter-clockwise.
#[verifier::rlimit(50)]
proof fn lemma_fan_chain(points: Seq<Point>, anchor: Point, hull: Seq<Point>, t2: int)
    requires
        rays_distinct(anchor, points),
        hull.len() >= 3,
        2 <= t2 < hull.len(),
        forall|t: int| 1 <= t < hull.len() ==> above_anchor(anchor, #[trigger] hull[t]),
        forall|t: int| 0 <= t < hull.len() ==> points.contains(#[trigger] hull[t]),
        forall|t1: int, t3: int|
            1 <= t1 < t3 < hull.len() ==> angle_leq(anchor, #[trigger] hull[t1], #[trigger] hull[t3]),
        forall|t: int| 0 <= t < hull.len() - 1 ==> #[trigger] hull[t] != hull[t + 1],
    ensures
        cross(anchor, hull[1], hull[t2]) > 0,
    decreases t2,
{
    if t2 == 2 {
        lemma_fan_strict(points, anchor, hull[1], hull[2]);
    } else {
        lemma_fan_chain(points, anchor, hull, t2 - 1);
        lemma_fan_strict(points, anchor, hull[t2 - 1], hull[t2]);
        lemma_cross_strict_trans(anchor, hull[1], hull[t2 - 1], hull[t2]);
    }
}

/// A hull of at most two vertices contains the input only if the whole
/// input is collinear.
#[verifier::rlimit(50)]
#[verifier::spinoff_prover]
proof fn lemma_hull_flat(points: Seq<Point>, anchor: Point, hull: Seq<Point>)
    requires
        hull.len() >= 1,
        hull.len() <= 2,
        hull[0] == anchor,
        forall|t: int| 1 <= t < hull.len() ==> above_anchor(anchor, #[trigger] hull[t]),
        forall|k: int| 0 <= k < points.len() ==> point_in_hull(hull, #[trigger] points[k]),
        hull.len() == 1 ==> forall|k: int| 0 <= k < points.len() ==> #[trigger] points[k] == anchor,
    ensures
        all_collinear(points),
{
    if hull.len() == 1 {
        assert forall|i: int, j: int, k: int|
            0 <= i < points.len() && 0 <= j < points.len() && 0 <= k < points.len()
                implies #[trigger] cross(points[i], points[j], points[k]) == 0 by {
            lemma_cross_degenerate(anchor, anchor);
        }
    } else {
        let h1 = hull[1];
        assert(h1 != anchor) by {
            if h1 == anchor {
                assert(above_anchor(anchor, h1));
            }
        }
        assert forall|k: int| 0 <= k < points.len() implies cross(
            anchor,
            h1,
            #[trigger] points[k],
        ) == 0 by {
            assert(point_in_hull(hull, points[k]));
            assert(cross(hull[0int], hull[0int + 1], points[k]) >= 0);
            assert(cross(hull[1int], hull[0int], points[k]) >= 0);
            lemma_cross_swap01(h1, anchor, points[k]);
        }
        assert forall|i: int, j: int, k: int|
            0 <= i < points.len() && 0 <= j < points.len() && 0 <= k < points.len()
                implies #[trigger] cross(points[i], points[j], points[k]) == 0 by {
            lemma_collinear_compose(anchor, h1, points[i], points[j], points[k]);
        }
    }
}

/// A proper hull closes with strictly counter-clockwise turns.
#[verifier::rlimit(50)]
#[verifier::spinoff_prover]
proof fn lemma_hull_wrap(points: Seq<Point>, anchor: Point, sorted: Seq<Point>, hull: Seq<Point>)
    requires
        rays_distinct(anchor, points),
        hull.len() >= 3,
        hull[0] == anchor,
        forall|t: int| 1 <= t < hull.len() ==> above_anchor(anchor, #[trigger] hull[t]),
        forall|t: int| 0 <= t < hull.len() ==> points.contains(#[trigger] hull[t]),
        forall|t1: int, t3: int|
            1 <= t1 < t3 < hull.len() ==> angle_leq(anchor, #[trigger] hull[t1], #[trigger] hull[t3]),
        scan_covered(anchor, sorted, sorted.len() as int, hull),
    ensures
        cross(hull[hull.len() - 2], hull[hull.len() - 1], hull[0]) > 0,
        cross(hull[hull.len() - 1], hull[0], hull[1]) > 0,
{
    lemma_unpack_scan_covered(anchor, sorted, sorted.len() as int, hull);
    let m = hull.len() as int;
    lemma_fan_strict(points, anchor, hull[m - 2], hull[m - 1]);
    assert(cross(hull[m - 2], hull[m - 1], hull[0]) > 0) by {
        lemma_cross_cyclic(anchor, hull[m - 2], hull[m - 1]);
        lemma_cross_cyclic(hull[m - 2], hull[m - 1], anchor);
    }
    lemma_fan_chain(points, anchor, hull, m - 1);
    assert(cross(hull[m - 1], hull[0], hull[1]) > 0) by {
        lemma_cross_cyclic(anchor, hull[1], hull[m - 1]);
        lemma_cross_cyclic(hull[1], hull[m - 1], anchor);
    }
}

/// What general position buys at the end of the sweep: containment of
/// the whole input, a proper hull unless the input is collinear, and
/// strict turns across the closing vertex.
#[verifier::rlimit(100)]
#[verifier::spinoff_prover]
proof fn lemma_hull_final(points: Seq<Point>, anchor: Point, sorted: Seq<Point>, hull: Seq<Point>)
    requires
        rays_distinct(anchor, points),
        hull.len() >= 1,
        hull[0] == anchor,
        forall|t: int| 1 <= t < hull.len() ==> above_anchor(anchor, #[trigger] hull[t]),
        forall|t: int| 0 <= t < hull.len() ==> points.contains(#[trigger] hull[t]),
        forall|t1: int, t3: int|
            1 <= t1 < t3 < hull.len() ==> angle_leq(anchor, #[trigger] hull[t1], #[trigger] hull[t3]),
        scan_covered(anchor, sorted, sorted.len() as int, hull),
        forall|k: int|
            0 <= k < points.len() && points[k] != anchor ==> sorted.contains(#[trigger] points[k]),
        forall|k: int|
            0 <= k < points.len() && points[k] != anchor ==> angle_leq(
                anchor,
                #[trigger] points[k],
                hull[hull.len() - 1],
            ),
        hull.len() == 1 ==> forall|k: int| 0 <= k < points.len() ==> #[trigger] points[k] == anchor,
    ensures
        forall|k: int| 0 <= k < points.len() ==> point_in_hull(hull, #[trigger] points[k]),
        !all_collinear(points) ==> hull.len() >= 3,
        hull.len() >= 3 ==> cross(hull[hull.len() - 2], hull[hull.len() - 1], hull[0]) > 0 && cross(
            hull[hull.len() - 1],
            hull[0],
            hull[1],
        ) > 0,
{
    lemma_scan_containment(points, anchor, sorted, hull);
    if hull.len() <= 2 {
        lemma_hull_flat(points, anchor, hull);
    } else {
        lemma_hull_wrap(points, anchor, sorted, hull);
    }
}

/// Decide the sweep order of `a` and `b` around `o` exactly.
fn angle_le(o: &Point, a: &Point, b: &Point) -> (r: bool)
    requires
        o.in_range(),
        a.in_range(),
        b.in_range(),
    ensures
        r == angle_leq(*o, *a, *b),
{
    let cr = cross_product(o, a, b);
    if cr > 0 {
        true
    } else if cr == 0 {
        o.distance_squared_to(a) <= o.distance_squared_to(b)
    } else {
        false
    }
}

/// Merge two runs in sweep order around `anchor` into one.
fn merge_by_angle(anchor: &Point, v1: &Vec<Point>, v2: &Vec<Point>) -> (r: Vec<Point>)
    requires
        anchor.in_range(),
        points_in_range(v1@),
        points_in_range(v2@),
        forall|k: int| 0 <= k < v1@.len() ==> above_anchor(*anchor, #[trigger] v1@[k]),
        forall|k: int| 0 <= k < v2@.len() ==> above_anchor(*anchor, #[trigger] v2@[k]),
        sorted_by_angle(*anchor, v1@),
        sorted_by_angle(*anchor, v2@),
    ensures
        r@.to_multiset() == (v1@ + v2@).to_multiset(),
        sorted_by_angle(*anchor, r@),
        points_in_range(r@),
        forall|k: int| 0 <= k < r@.len() ==> above_anchor(*anchor, #[trigger] r@[k]),
{
    broadcast use vstd::seq_lib::lemma_multiset_commutative;
    broadcast use vstd::seq_lib::group_to_multiset_ensures;
    broadcast use vstd::multiset::group_multiset_axioms;

    let n1 = v1.len();
    let n2 = v2.len();
    let mut r: Vec<Point> = Vec::new();
    let mut i1: usize = 0;
    let mut i2: usize = 0;
    while i1 < n1 || i2 < n2
        invariant
            n1 == v1.len(),
            n2 == v2.len(),
            i1 <= n1,
            i2 <= n2,
            anchor.in_range(),
            points_in_range(v1@),
            points_in_range(v2@),
            forall|k: int| 0 <= k < v1@.len() ==> above_anchor(*anchor, #[trigger] v1@[k]),
            forall|k: int| 0 <= k < v2@.len() ==> above_anchor(*anchor, #[trigger] v2@[k]),
            sorted_by_angle(*anchor, v1@),
            sorted_by_angle(*anchor, v2@),
            sorted_by_angle(*anchor, r@),
            points_in_range(r@),
            forall|k: int| 0 <= k < r@.len() ==> above_anchor(*anchor, #[trigger] r@[k]),
            forall|k: int|
                0 <= k < r@.len() && i1 < n1 ==> angle_leq(*anchor, #[trigger] r@[k], v1@[i1 as int]),
            forall|k: int|
                0 <= k < r@.len() && i2 < n2 ==> angle_leq(*anchor, #[trigger] r@[k], v2@[i2 as int]),
            r@.to_multiset() == (v1@.subrange(0, i1 as int) + v2@.subrange(
                0,
                i2 as int,
            )).to_multiset(),
        decreases n1 - i1 + n2 - i2,
    {
        let ghost prefix1 = v1@.subrange(0, i1 as int);
        let ghost prefix2 = v2@.subrange(0, i2 as int);
        let ghost r_old = r@;
        let take_first = if i1 < n1 && i2 < n2 {
            angle_le(anchor, &v1[i1], &v2[i2])
        } else {
            i1 < n1
        };
        if take_first {
            let p = v1[i1];
            proof {
                if !(i2 < n2) {
                } else {
                }
            }
            r.push(p);
            proof {
                let q = v1@[i1 as int];
                assert(r@ =~= r_old.push(q));
                r_old.to_multiset_ensures();
                assert(v1@.subrange(0, i1 as int + 1) =~= prefix1.push(q));
                assert((prefix1.push(q) + prefix2).to_multiset() =~= (prefix1
                    + prefix2).to_multiset().insert(q)) by {
                    vstd::seq_lib::lemma_multiset_commutative(prefix1.push(q), prefix2);
                    vstd::seq_lib::lemma_multiset_commutative(prefix1, prefix2);
                    prefix1.to_multiset_ensures();
                    assert(prefix1.push(q).to_multiset() =~= prefix1.to_multiset().insert(q));
                }
                // The next head of either run still comes after all of r.
                assert forall|k: int|
                    0 <= k < r@.len() && i1 + 1 < n1 implies angle_leq(
                    *anchor,
                    #[trigger] r@[k],
                    v1@[i1 as int + 1],
                ) by {
                    if k < r_old.len() {
                        lemma_angle_leq_trans(*anchor, r_old[k], q, v1@[i1 as int + 1]);
                    }
                }
                assert forall|k: int|
                    0 <= k < r@.len() && i2 < n2 implies angle_leq(
                    *anchor,
                    #[trigger] r@[k],
                    v2@[i2 as int],
                ) by {
                }
            }
            i1 = i1 + 1;
        } else {
            let p = v2[i2];
            proof {
                if i1 < n1 {
                    // The comparison failed, so the other head comes first.
                    lemma_angle_leq_total(*anchor, v1@[i1 as int], v2@[i2 as int]);
                }
            }
            r.push(p);
            proof {
                let q = v2@[i2 as int];
                assert(r@ =~= r_old.push(q));
                r_old.to_multiset_ensures();
                assert(v2@.subrange(0, i2 as int + 1) =~= prefix2.push(q));
                assert((prefix1 + prefix2.push(q)).to_multiset() =~= (prefix1
                    + prefix2).to_multiset().insert(q)) by {
                    vstd::seq_lib::lemma_multiset_commutative(prefix1, prefix2.push(q));
                    vstd::seq_lib::lemma_multiset_commutative(prefix1, prefix2);
                    prefix2.to_multiset_ensures();
                    assert(prefix2.push(q).to_multiset() =~= prefix2.to_multiset().insert(q));
                }
                assert forall|k: int|
                    0 <= k < r@.len() && i2 + 1 < n2 implies angle_leq(
                    *anchor,
                    #[trigger] r@[k],
                    v2@[i2 as int + 1],
                ) by {
                    if k < r_old.len() {
                        lemma_angle_leq_trans(*anchor, r_old[k], q, v2@[i2 as int + 1]);
                    }
                }
            }
            i2 = i2 + 1;
        }
    }
    proof {
        assert(v1@.subrange(0, n1 as int) =~= v1@);
        assert(v2@.subrange(0, n2 as int) =~= v2@);
    }
    r
}

/// Return a copy of `v` in sweep order around `anchor`, holding the
/// same points with the same multiplicities.
fn sort_by_angle(anchor: &Point, v: &Vec<Point>) -> (r: Vec<Point>)
    requires
        anchor.in_range(),
        points_in_range(v@),
        forall|k: int| 0 <= k < v@.len() ==> above_anchor(*anchor, #[trigger] v@[k]),
    ensures
        r@.to_multiset() == v@.to_multiset(),
        sorted_by_angle(*anchor, r@),
        points_in_range(r@),
        forall|k: int| 0 <= k < r@.len() ==> above_anchor(*anchor, #[trigger] r@[k]),
    decreases v.len(),
{
    broadcast use vstd::seq_lib::lemma_multiset_commutative;

    let n = v.len();
    let mut lo = v.clone();
    if n <= 1 {
        lo
    } else {
        let hi = lo.split_off(n / 2);
        assert(lo@ + hi@ =~= v@);
        let ls = sort_by_angle(anchor, &lo);
        let hs = sort_by_angle(anchor, &hi);
        let r = merge_by_angle(anchor, &ls, &hs);
        proof {
            assert(r@.to_multiset() =~= v@.to_multiset());
        }
        r
    }
}

/// `p` is the lowest point of `s`, leftmost among the lowest.
pub open spec fn lowest_then_leftmost(s: Seq<Point>, p: Point) -> bool {
    &&& s.contains(p)
    &&& forall|i: int|
        0 <= i < s.len() ==> !((#[trigger] s[i]).y < p.y || (s[i].y == p.y && s[i].x < p.x))
}

/// The ordered hull vertices, counter-clockwise, starting from the
/// anchor. With fewer than three points the input comes back unchanged.
/// Collinear boundary points are dropped: every consecutive triple of
/// the result makes a strictly counter-clockwise turn. When no two
/// distinct input points share a polar angle around the anchor (see
/// [`rays_distinct`]), the contract further pins the polygon: every
/// input point lies inside or on it, the two turns across the closing
/// vertex are strictly counter-clockwise as well, and the hull has at
/// least three vertices unless the input is collinear.
#[verifier::rlimit(100)]
pub fn convex_hull_graham_scan(points: &Vec<Point>) -> (hull: Vec<Point>)
    requires
        points_in_range(points@),
    ensures
        points@.len() < 3 ==> hull@ == points@,
        points@.len() >= 3 ==> 1 <= hull@.len() <= points@.len(),
        forall|t: int| 0 <= t < hull@.len() ==> points@.contains(#[trigger] hull@[t]),
        points@.len() >= 3 ==> lowest_then_leftmost(points@, hull@[0]),
        points@.len() >= 3 ==> forall|t: int|
            1 <= t < hull@.len() ==> above_anchor(hull@[0], #[trigger] hull@[t]),
        points@.len() >= 3 ==> forall|t1: int, t2: int|
            1 <= t1 < t2 < hull@.len() ==> angle_leq(hull@[0], #[trigger] hull@[t1], #[trigger] hull@[t2]),
        points@.len() >= 3 ==> forall|k: int|
            0 <= k < points@.len() && points@[k] != hull@[0] ==> angle_leq(
                hull@[0],
                #[trigger] points@[k],
                hull@[hull@.len() - 1],
            ),
        points@.len() >= 3 ==> (hull@.len() == 1 <==> (forall|k: int|
            0 <= k < points@.len() ==> #[trigger] points@[k] == hull@[0])),
        points@.len() >= 3 && rays_distinct(hull@[0], points@) ==> forall|k: int|
            0 <= k < points@.len() ==> point_in_hull(hull@, #[trigger] points@[k]),
        points@.len() >= 3 && rays_distinct(hull@[0], points@) && !all_collinear(points@)
            ==> hull@.len() >= 3,
        points@.len() >= 3 && rays_distinct(hull@[0], points@) && hull@.len() >= 3 ==> cross(
            hull@[hull@.len() - 2],
            hull@[hull@.len() - 1],
            hull@[0],
        ) > 0 && cross(hull@[hull@.len() - 1], hull@[0], hull@[1]) > 0,
        forall|t: int|
            0 <= t && t + 2 < hull@.len() ==> cross(#[trigger] hull@[t], hull@[t + 1], hull@[t + 2]) > 0,
{
    let n = points.len();
    if n < 3 {
        let r = points.clone();
        proof {
            assert forall|t: int| 0 <= t < r@.len() implies points@.contains(#[trigger] r@[t]) by {
                assert(points@[t] == r@[t]);
            }
        }
        return r;
    }
    // The anchor: lowest, then leftmost.
    let mut anchor = points[0];
    let mut i: usize = 1;
    while i < n
        invariant
            n == points@.len(),
            points_in_range(points@),
            1 <= i <= n,
            points@.contains(anchor),
            anchor.in_range(),
            forall|k: int|
                0 <= k < i ==> !((#[trigger] points@[k]).y < anchor.y || (points@[k].y == anchor.y
                    && points@[k].x < anchor.x)),
        decreases n - i,
    {
        let p = points[i];
        if p.y < anchor.y || (p.y == anchor.y && p.x < anchor.x) {
            anchor = p;
        }
        i = i + 1;
    }
    // Every other occurrence sweeps strictly after the anchor.
    let mut others: Vec<Point> = Vec::new();
    let mut k: usize = 0;
    while k < n
        invariant
            n == points@.len(),
            points_in_range(points@),
            k <= n,
            anchor.in_range(),
            points@.contains(anchor),
            forall|t: int|
                0 <= t < n ==> !((#[trigger] points@[t]).y < anchor.y || (points@[t].y == anchor.y
                    && points@[t].x < anchor.x)),
            points_in_range(others@),
            others@.len() <= k,
            (exists|t: int| 0 <= t < k && points@[t] == anchor) ==> others@.len() < k,
            forall|t: int| 0 <= t < others@.len() ==> points@.contains(#[trigger] others@[t]),
            forall|t: int| 0 <= t < others@.len() ==> above_anchor(anchor, #[trigger] others@[t]),
            forall|t: int|
                0 <= t < k && points@[t] != anchor ==> others@.contains(#[trigger] points@[t]),
        decreases n - k,
    {
        let p = points[k];
        let ghost others_old = others@;
        if !(p.x == anchor.x && p.y == anchor.y) {
            others.push(p);
        }
        proof {
            assert(points@[k as int] == p);
            assert forall|t: int|
                0 <= t < k + 1 && points@[t] != anchor implies others@.contains(
                #[trigger] points@[t],
            ) by {
                if t < k {
                    let w = choose|w: int| 0 <= w < others_old.len() && others_old[w] == points@[t];
                    assert(others@[w] == points@[t]);
                } else {
                    assert(others@[others@.len() - 1] == p);
                }
            }
        }
        k = k + 1;
    }
    let sorted_pts = sort_by_angle(&anchor, &others);
    proof {
        broadcast use vstd::seq_lib::group_to_multiset_ensures;

        assert(points@.contains(anchor));
        assert(others@.len() < n);
        sorted_pts@.to_multiset_ensures();
        others@.to_multiset_ensures();
        assert(sorted_pts@.len() == others@.len());
        assert forall|t: int| 0 <= t < sorted_pts@.len() implies points@.contains(
            #[trigger] sorted_pts@[t],
        ) by {
            assert(sorted_pts@.contains(sorted_pts@[t]));
            assert(sorted_pts@.to_multiset().count(sorted_pts@[t]) > 0);
            assert(others@.contains(sorted_pts@[t]));
            let w = choose|w: int| 0 <= w < others@.len() && others@[w] == sorted_pts@[t];
            assert(points@.contains(others@[w]));
        }
        assert forall|k2: int|
            0 <= k2 < points@.len() && points@[k2] != anchor implies sorted_pts@.contains(
            #[trigger] points@[k2],
        ) by {
            assert(others@.contains(points@[k2]));
            assert(others@.to_multiset().count(points@[k2]) > 0);
        }
    }
    // The monotone stack: pop while the turn is not strictly
    // counter-clockwise, then push.
    let m = sorted_pts.len();
    let ghost gp = rays_distinct(anchor, points@);
    let mut hull: Vec<Point> = Vec::new();
    hull.push(anchor);
    let mut idx: usize = 0;
    proof {
        lemma_covered_init(anchor, sorted_pts@, 0, hull@);
    }
    while idx < m
        invariant
            gp == rays_distinct(anchor, points@),
            m == sorted_pts@.len(),
            m < n == points@.len(),
            points_in_range(points@),
            points_in_range(sorted_pts@),
            anchor.in_range(),
            sorted_by_angle(anchor, sorted_pts@),
            forall|t: int| 0 <= t < m ==> above_anchor(anchor, #[trigger] sorted_pts@[t]),
            forall|t: int| 0 <= t < m ==> points@.contains(#[trigger] sorted_pts@[t]),
            idx <= m,
            1 <= hull@.len() <= 1 + idx,
            hull@[0] == anchor,
            points_in_range(hull@),
            forall|t: int| 0 <= t < hull@.len() ==> points@.contains(#[trigger] hull@[t]),
            forall|t: int| 1 <= t < hull@.len() ==> above_anchor(anchor, #[trigger] hull@[t]),
            forall|t1: int, t2: int|
                1 <= t1 < t2 < hull@.len() ==> angle_leq(
                    anchor,
                    #[trigger] hull@[t1],
                    #[trigger] hull@[t2],
                ),
            forall|t: int|
                1 <= t < hull@.len() && idx < m ==> angle_leq(
                    anchor,
                    #[trigger] hull@[t],
                    sorted_pts@[idx as int],
                ),
            idx > 0 ==> hull@.len() >= 2 && hull@.last() == sorted_pts@[idx - 1],
            forall|t: int|
                0 <= t && t + 2 < hull@.len() ==> cross(#[trigger] hull@[t], hull@[t + 1], hull@[t + 2]) > 0,
            gp ==> scan_covered(anchor, sorted_pts@, idx as int, hull@),
        decreases m - idx,
    {
        let p = sorted_pts[idx];
        proof {
            if gp {
                if idx > 0 {
                    lemma_cover_at_entry(anchor, sorted_pts@, idx as int, p, hull@);
                } else {
                    lemma_pop_covered_init(anchor, sorted_pts@, p, hull@);
                }
            }
        }
        while hull.len() > 1 && cross_product(&hull[hull.len() - 2], &hull[hull.len() - 1], &p)
            <= 0
            invariant
                gp == rays_distinct(anchor, points@),
                m == sorted_pts@.len(),
                idx < m,
                p == sorted_pts@[idx as int],
                points@.contains(p),
                points_in_range(points@),
                p.in_range(),
                above_anchor(anchor, p),
                anchor.in_range(),
                1 <= hull@.len(),
                hull@.len() <= 1 + idx,
                hull@[0] == anchor,
                points_in_range(hull@),
                forall|t: int| 0 <= t < hull@.len() ==> points@.contains(#[trigger] hull@[t]),
                forall|t: int| 1 <= t < hull@.len() ==> above_anchor(anchor, #[trigger] hull@[t]),
                forall|t1: int, t2: int|
                    1 <= t1 < t2 < hull@.len() ==> angle_leq(
                        anchor,
                        #[trigger] hull@[t1],
                        #[trigger] hull@[t2],
                    ),
                forall|t: int|
                    1 <= t < hull@.len() ==> angle_leq(anchor, #[trigger] hull@[t], p),
                forall|t: int|
                    0 <= t && t + 2 < hull@.len() ==> cross(#[trigger] hull@[t], hull@[t + 1], hull@[t + 2])
                        > 0,
                gp ==> scan_covered(anchor, sorted_pts@, idx as int, hull@),
                gp ==> pop_covered(anchor, sorted_pts@, idx as int, p, hull@),
            decreases hull.len(),
        {
            let ghost hull_old = hull@;
            hull.pop();
            proof {
                assert(hull@ =~= hull_old.drop_last());
                if gp {
                    lemma_pop_step(points@, anchor, sorted_pts@, idx as int, p, hull_old);
                }
            }
        }
        let ghost chain = hull@;
        hull.push(p);
        proof {
            assert(hull@.len() == chain.len() + 1);
            assert(forall|t: int| 0 <= t < chain.len() ==> #[trigger] hull@[t] == chain[t]);
            assert(hull@[chain.len() as int] == p);
            lemma_push_sweep(anchor, sorted_pts@, idx as int, chain, hull@);
            if gp {
                lemma_push_all(points@, anchor, sorted_pts@, idx as int, p, chain, hull@);
            }
        }
        idx = idx + 1;
    }
    proof {
        assert forall|k2: int|
            0 <= k2 < points@.len() && points@[k2] != anchor implies angle_leq(
            anchor,
            #[trigger] points@[k2],
            hull@[hull@.len() - 1],
        ) by {
            assert(sorted_pts@.contains(points@[k2]));
            let w = choose|w: int| 0 <= w < m && sorted_pts@[w] == points@[k2];
            assert(m >= 1);
            assert(hull@.last() == sorted_pts@[m - 1]);
            if w < m - 1 {
                assert(angle_leq(anchor, sorted_pts@[w], sorted_pts@[m - 1]));
            } else {
                lemma_angle_leq_total(anchor, sorted_pts@[w], sorted_pts@[w]);
            }
        }
        if m == 0 {
            assert forall|k2: int| 0 <= k2 < points@.len() implies #[trigger] points@[k2]
                == anchor by {
                if points@[k2] != anchor {
                    assert(sorted_pts@.contains(points@[k2]));
                }
            }
        }
        if hull@.len() == 1 && m >= 1 {
            assert(false);
        }
        if gp {
            lemma_hull_final(points@, anchor, sorted_pts@, hull@);
        }
    }
    hull
}

/// With every input point on one line, no three input points make a
/// strict turn, so a hull whose consecutive triples all turn strictly
/// counter-clockwise cannot keep more than the two extreme points.
pub proof fn lemma_collinear_input_flat_hull(points: Seq<Point>, hull: Seq<Point>)
    requires
        forall|a: int, b: int, c: int|
            0 <= a < points.len() && 0 <= b < points.len() && 0 <= c < points.len()
                ==> #[trigger] cross(points[a], points[b], points[c]) == 0,
        forall|t: int| 0 <= t < hull.len() ==> points.contains(#[trigger] hull[t]),
        forall|t: int|
            0 <= t && t + 2 < hull.len() ==> cross(#[trigger] hull[t], hull[t + 1], hull[t + 2])
                > 0,
    ensures
        hull.len() <= 2,
{
    if hull.len() >= 3 {
        let a = choose|a: int| 0 <= a < points.len() && points[a] == hull[0];
        let b = choose|b: int| 0 <= b < points.len() && points[b] == hull[1];
        let c = choose|c: int| 0 <= c < points.len() && points[c] == hull[2];
        assert(cross(points[a], points[b], points[c]) == 0);
        assert(cross(hull[0], hull[1], hull[2]) > 0);
    }
}

} // verus!
