//! A k-d tree over the plane: built once from a point set by recursive
//! median splitting, then queried read-only for nearest neighbors with
//! the standard hyperplane pruning rule.

use vstd::prelude::*;
use vstd::multiset::Multiset;
use crate::point::Point;
use crate::point::dist_sq;
use crate::point::points_in_range;
use crate::point::lemma_sq_le;
use crate::point::lemma_dist_sq_dominates_axes;
use crate::point::gap_sq;
use crate::order::axis_key;
use crate::order::sorted_on;
use crate::order::sort_on_axis;
use crate::pairs::lemma_in_range_from_multiset;

verus! {

/// One node: a stored point, the splitting axis (`0` for x, `1` for y),
/// and the two sides. Points in the left subtree have their axis
/// coordinate at most the node's; points in the right subtree at least
/// the node's. Median splitting may put points with an equal coordinate
/// on either side, so neither bound is strict.
struct KdNode {
    point: Point,
    left: Option<Box<KdNode>>,
    right: Option<Box<KdNode>>,
    dimension: usize,
}

/// The multiset of points stored in an optional subtree.
spec fn opt_points(o: Option<Box<KdNode>>) -> Multiset<Point>
    decreases o,
{
    match o {
        Some(c) => node_points(*c),
        None => Multiset::<Point>::empty(),
    }
}

/// The multiset of points stored in the subtree.
spec fn node_points(n: KdNode) -> Multiset<Point>
    decreases n,
{
    Multiset::<Point>::empty().insert(n.point).add(opt_points(n.left)).add(opt_points(n.right))
}

/// Structural invariant: in-range points, a valid axis that flips from
/// parent to child (so, with the root splitting on x, the axis is the
/// depth parity), and the side bounds that the pruning rule relies on.
spec fn node_wf(n: KdNode) -> bool
    decreases n,
{
    &&& n.point.in_range()
    &&& n.dimension <= 1
    &&& match n.left {
        Some(l) => node_wf(*l) && (*l).dimension != n.dimension && forall|p: Point| #[trigger]
            node_points(*l).count(p) > 0 ==> axis_key(p, n.dimension as int) <= axis_key(
                n.point,
                n.dimension as int,
            ),
        None => true,
    }
    &&& match n.right {
        Some(r) => node_wf(*r) && (*r).dimension != n.dimension && forall|p: Point| #[trigger]
            node_points(*r).count(p) > 0 ==> axis_key(p, n.dimension as int) >= axis_key(
                n.point,
                n.dimension as int,
            ),
        None => true,
    }
}

/// A balanced binary space-partitioning tree over points, read-only
/// after construction.
pub struct KdTree {
    root: Option<Box<KdNode>>,
}

impl KdTree {
    /// The multiset of points the tree stores.
    pub closed spec fn points(self) -> Multiset<Point> {
        match self.root {
            Some(r) => node_points(*r),
            None => Multiset::<Point>::empty(),
        }
    }

    /// The tree invariant; established by the constructors. The root
    /// splits on the x-axis, and the axis alternates with depth.
    pub closed spec fn wf(self) -> bool {
        match self.root {
            Some(r) => node_wf(*r) && (*r).dimension == 0,
            None => true,
        }
    }

    /// An empty tree.
    pub fn new() -> (t: KdTree)
        ensures
            t.wf(),
            t.points() == Multiset::<Point>::empty(),
    {
        KdTree { root: None }
    }

    /// Build a tree holding exactly the given points.
    pub fn build(points: &Vec<Point>) -> (t: KdTree)
        requires
            points_in_range(points@),
        ensures
            t.wf(),
            t.points() == points@.to_multiset(),
    {
        broadcast use vstd::seq_lib::group_to_multiset_ensures;

        if points.len() == 0 {
            let t = KdTree { root: None };
            proof {
                assert(points@.to_multiset() =~= Multiset::<Point>::empty()) by {
                    assert forall|p: Point| #[trigger] points@.to_multiset().count(p) == 0 by {
                        assert(!points@.contains(p));
                    }
                }
            }
            t
        } else {
            KdTree { root: Some(Self::build_recursive(points.clone(), 0)) }
        }
    }

    /// Sort the subset on the splitting axis, store the element at half
    /// the length as this node's point, and build the two sides from the
    /// strict halves before and after it, on the flipped axis.
    fn build_recursive(points: Vec<Point>, dimension: usize) -> (node: Box<KdNode>)
        requires
            points@.len() >= 1,
            points_in_range(points@),
            dimension <= 1,
        ensures
            node_wf(*node),
            (*node).dimension == dimension,
            node_points(*node) == points@.to_multiset(),
            exists|s: Seq<Point>|
                (#[trigger] s.to_multiset()) == points@.to_multiset() && sorted_on(
                    s,
                    dimension as int,
                ) && (*node).point == s[s.len() as int / 2] && opt_points((*node).left)
                    == s.subrange(0, s.len() as int / 2).to_multiset() && opt_points(
                    (*node).right,
                ) == s.subrange(s.len() as int / 2 + 1, s.len() as int).to_multiset(),
        decreases points@.len(),
    {
        broadcast use vstd::seq_lib::group_to_multiset_ensures;
        broadcast use vstd::seq_lib::lemma_multiset_commutative;
        broadcast use vstd::multiset::group_multiset_axioms;

        let sorted = sort_on_axis(&points, dimension);
        proof {
            lemma_in_range_from_multiset(points@, sorted@);
            sorted@.to_multiset_ensures();
            points@.to_multiset_ensures();
            assert(sorted@.len() == points@.len());
        }
        let n = sorted.len();
        let mid = n / 2;
        let ghost sorted_view = sorted@;
        let mut below = sorted;
        let mut rest = below.split_off(mid);
        let above = rest.split_off(1);
        let point = rest[0];
        proof {
            assert(sorted_view =~= below@ + (rest@ + above@));
            assert(rest@ =~= seq![point]);
            assert(sorted_view.to_multiset() == below@.to_multiset().add(
                (rest@ + above@).to_multiset(),
            ));
            assert((rest@ + above@).to_multiset() == rest@.to_multiset().add(above@.to_multiset()));
            assert(rest@.to_multiset() =~= Multiset::<Point>::empty().insert(point)) by {
                assert(rest@ =~= Seq::<Point>::empty().push(point));
                Seq::<Point>::empty().to_multiset_ensures();
                assert forall|p: Point| #[trigger] Seq::<Point>::empty().to_multiset().count(p)
                    == 0 by {
                    assert(!Seq::<Point>::empty().contains(p));
                }
            }
        }
        let child_dim: usize = if dimension == 0 {
            1
        } else {
            0
        };
        let ghost below_view = below@;
        let ghost above_view = above@;
        let left: Option<Box<KdNode>> = if below.len() > 0 {
            Some(Self::build_recursive(below, child_dim))
        } else {
            None
        };
        let right: Option<Box<KdNode>> = if above.len() > 0 {
            Some(Self::build_recursive(above, child_dim))
        } else {
            None
        };
        let node = Box::new(KdNode { point, left, right, dimension });
        proof {
            // The multiset of the node is the multiset of the subset.
            let lp = opt_points(node.left);
            let rp = opt_points(node.right);
            if node.left is Some {
                assert(lp == node_points(*node.left->Some_0));
            }
            if node.right is Some {
                assert(rp == node_points(*node.right->Some_0));
            }
            if below_view.len() == 0 {
                assert(lp =~= below_view.to_multiset()) by {
                    assert forall|p: Point| #[trigger] below_view.to_multiset().count(p) == 0 by {
                        assert(!below_view.contains(p));
                    }
                }
            }
            if above_view.len() == 0 {
                assert(rp =~= above_view.to_multiset()) by {
                    assert forall|p: Point| #[trigger] above_view.to_multiset().count(p) == 0 by {
                        assert(!above_view.contains(p));
                    }
                }
            }
            assert(node_points(*node) =~= points@.to_multiset());
            // The side bounds follow from sortedness around the median.
            assert forall|p: Point| #[trigger] lp.count(p) > 0 implies axis_key(
                p,
                dimension as int,
            ) <= axis_key(point, dimension as int) by {
                assert(below_view.contains(p));
                let w = choose|w: int| 0 <= w < below_view.len() && below_view[w] == p;
                assert(sorted_view[w] == p);
                assert(sorted_view[mid as int] == point);
            }
            assert forall|p: Point| #[trigger] rp.count(p) > 0 implies axis_key(
                p,
                dimension as int,
            ) >= axis_key(point, dimension as int) by {
                assert(above_view.contains(p));
                let w = choose|w: int| 0 <= w < above_view.len() && above_view[w] == p;
                assert(sorted_view[mid as int + 1 + w] == p);
                assert(sorted_view[mid as int] == point);
            }
            assert(node_wf(*node));
            // The sorted copy witnesses the median construction.
            assert(below_view =~= sorted_view.subrange(0, mid as int));
            assert(above_view =~= sorted_view.subrange(mid as int + 1, sorted_view.len() as int));
            assert(sorted_view[mid as int] == point);
            assert((*node).point == sorted_view[sorted_view.len() as int / 2] && opt_points(
                (*node).left,
            ) == sorted_view.subrange(0, sorted_view.len() as int / 2).to_multiset() && opt_points(
                (*node).right,
            ) == sorted_view.subrange(
                sorted_view.len() as int / 2 + 1,
                sorted_view.len() as int,
            ).to_multiset());
        }
        node
    }

    /// The stored point closest to `query` in squared Euclidean
    /// distance, or `None` for an empty tree.
    pub fn nearest_neighbor(&self, query: &Point) -> (r: Option<Point>)
        requires
            self.wf(),
            query.in_range(),
        ensures
            r is None <==> self.points() == Multiset::<Point>::empty(),
            r matches Some(p) ==> self.points().count(p) > 0 && forall|z: Point| #[trigger]
                self.points().count(z) > 0 ==> dist_sq(*query, z) >= dist_sq(*query, p),
    {
        broadcast use vstd::multiset::group_multiset_axioms;

        match &self.root {
            None => None,
            Some(root) => {
                let best = root.point;
                let best_dist = query.distance_squared_to(&best);
                let res = Self::nearest_recursive(&**root, query, best, best_dist);
                proof {
                    assert(node_points(**root).count(root.point) >= 1);
                    assert(self.points().count(res.0) > 0);
                    assert(self.points() != Multiset::<Point>::empty()) by {
                        assert(Multiset::<Point>::empty().count(root.point) == 0);
                    }
                }
                Some(res.0)
            },
        }
    }

    /// Depth-first search: update the running best at this node, descend
    /// into the side the query lies on, and visit the other side only
    /// when the splitting line is closer than the current best.
    fn nearest_recursive(node: &KdNode, query: &Point, best: Point, best_dist: i64) -> (r: (
        Point,
        i64,
    ))
        requires
            node_wf(*node),
            query.in_range(),
            best.in_range(),
            best_dist == dist_sq(*query, best),
        ensures
            r.1 == dist_sq(*query, r.0),
            r.1 <= best_dist,
            r.0 == best || node_points(*node).count(r.0) > 0,
            r.0.in_range(),
            forall|p: Point| #[trigger] node_points(*node).count(p) > 0 ==> dist_sq(*query, p)
                >= r.1,
        decreases *node,
    {
        broadcast use vstd::multiset::group_multiset_axioms;

        let ghost lp = opt_points(node.left);
        let ghost rp = opt_points(node.right);
        let d = query.distance_squared_to(&node.point);
        let mut cur = best;
        let mut cur_dist = best_dist;
        if d < cur_dist {
            cur = node.point;
            cur_dist = d;
        }
        let query_coord = if node.dimension == 0 {
            query.x
        } else {
            query.y
        };
        let node_coord = if node.dimension == 0 {
            node.point.x
        } else {
            node.point.y
        };
        if query_coord < node_coord {
            // Near side is the left subtree.
            if let Some(child) = &node.left {
                proof {
                    assert(lp == node_points(**child));
                }
                let res = Self::nearest_recursive(&**child, query, cur, cur_dist);
                cur = res.0;
                cur_dist = res.1;
            }
            let axis_gap = gap_sq(query_coord, node_coord);
            if axis_gap < cur_dist {
                if let Some(child) = &node.right {
                    proof {
                        assert(rp == node_points(**child));
                    }
                    let res = Self::nearest_recursive(&**child, query, cur, cur_dist);
                    cur = res.0;
                    cur_dist = res.1;
                }
            } else {
                proof {
                    if node.right is Some {
                        let far = node.right->Some_0;
                        assert(rp == node_points(*far));
                        assert forall|p: Point| #[trigger] rp.count(p) > 0 implies dist_sq(
                            *query,
                            p,
                        ) >= cur_dist by {
                            assert(node_points(*far).count(p) > 0);
                            assert(axis_key(p, node.dimension as int) >= axis_key(
                                node.point,
                                node.dimension as int,
                            ));
                            lemma_sq_le(
                                node_coord - query_coord,
                                axis_key(p, node.dimension as int) - query_coord,
                            );
                            lemma_dist_sq_dominates_axes(*query, p);
                            crate::point::lemma_sq_swap(query_coord as int, node_coord as int);
                            crate::point::lemma_sq_swap(query_coord as int, axis_key(
                                p,
                                node.dimension as int,
                            ));
                        }
                    }
                }
            }
        } else {
            // Near side is the right subtree.
            if let Some(child) = &node.right {
                proof {
                    assert(rp == node_points(**child));
                }
                let res = Self::nearest_recursive(&**child, query, cur, cur_dist);
                cur = res.0;
                cur_dist = res.1;
            }
            let axis_gap = gap_sq(query_coord, node_coord);
            if axis_gap < cur_dist {
                if let Some(child) = &node.left {
                    proof {
                        assert(lp == node_points(**child));
                    }
                    let res = Self::nearest_recursive(&**child, query, cur, cur_dist);
                    cur = res.0;
                    cur_dist = res.1;
                }
            } else {
                proof {
                    if node.left is Some {
                        let far = node.left->Some_0;
                        assert(lp == node_points(*far));
                        assert forall|p: Point| #[trigger] lp.count(p) > 0 implies dist_sq(
                            *query,
                            p,
                        ) >= cur_dist by {
                            assert(node_points(*far).count(p) > 0);
                            assert(axis_key(p, node.dimension as int) <= axis_key(
                                node.point,
                                node.dimension as int,
                            ));
                            lemma_sq_le(query_coord - node_coord, query_coord - axis_key(
                                p,
                                node.dimension as int,
                            ));
                            lemma_dist_sq_dominates_axes(*query, p);
                        }
                    }
                }
            }
        }
        proof {
            assert forall|p: Point| #[trigger] node_points(*node).count(p) > 0 implies dist_sq(
                *query,
                p,
            ) >= cur_dist by {
                assert(node_points(*node).count(p) == (if p == node.point {
                    1int
                } else {
                    0int
                }) + lp.count(p) + rp.count(p));
            }
        }
        (cur, cur_dist)
    }
}

/// A nearest neighbor over the stored multiset is a brute-force nearest
/// neighbor over any sequence holding the same points: it occurs in the
/// sequence and no entry of the sequence is closer to the query.
pub proof fn lemma_nearest_matches_brute_force(s: Seq<Point>, query: Point, p: Point)
    requires
        s.to_multiset().count(p) > 0,
        forall|z: Point| #[trigger] s.to_multiset().count(z) > 0 ==> dist_sq(query, z) >= dist_sq(
            query,
            p,
        ),
    ensures
        s.contains(p),
        forall|i: int| 0 <= i < s.len() ==> dist_sq(query, #[trigger] s[i]) >= dist_sq(query, p),
{
    broadcast use vstd::seq_lib::group_to_multiset_ensures;

    assert forall|i: int| 0 <= i < s.len() implies dist_sq(query, #[trigger] s[i]) >= dist_sq(
        query,
        p,
    ) by {
        assert(s.contains(s[i]));
        assert(s.to_multiset().count(s[i]) > 0);
    }
}

} // verus!
