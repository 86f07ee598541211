//! Sorting points by one coordinate axis: the sorted views that the
//! divide-and-conquer closest-pair search and the k-d tree builder work on.

use vstd::prelude::*;
use crate::point::Point;

verus! {

/// Coordinate of `p` on `axis`: `0` is the x-axis, any other value the y-axis.
pub open spec fn axis_key(p: Point, axis: int) -> int {
    if axis == 0 {
        p.x as int
    } else {
        p.y as int
    }
}

/// `s` is ordered by the chosen coordinate; ties may stand in any order.
pub open spec fn sorted_on(s: Seq<Point>, axis: int) -> bool {
    forall|i: int, j: int|
        0 <= i < j < s.len() ==> axis_key(#[trigger] s[i], axis) <= axis_key(#[trigger] s[j], axis)
}

/// Merge two runs that are sorted on `axis` into one.
fn merge_on_axis(v1: &Vec<Point>, v2: &Vec<Point>, axis: usize) -> (r: Vec<Point>)
    requires
        sorted_on(v1@, axis as int),
        sorted_on(v2@, axis as int),
    ensures
        r@.to_multiset() == (v1@ + v2@).to_multiset(),
        sorted_on(r@, axis as int),
{
    broadcast use vstd::seq_lib::lemma_multiset_commutative;
    broadcast use vstd::seq_lib::group_to_multiset_ensures;
    broadcast use vstd::multiset::group_multiset_axioms;

    let n1 = v1.len();
    let n2 = v2.len();
    let mut r: Vec<Point> = Vec::new();
    let mut i1: usize = 0;
    let mut i2: usize = 0;
    while i1 < n1 || i2 < n2
        invariant
            n1 == v1.len(),
            n2 == v2.len(),
            i1 <= n1,
            i2 <= n2,
            sorted_on(v1@, axis as int),
            sorted_on(v2@, axis as int),
            sorted_on(r@, axis as int),
            forall|k: int|
                0 <= k < r.len() && i1 < n1 ==> axis_key(#[trigger] r@[k], axis as int) <= axis_key(
                    v1@[i1 as int],
                    axis as int,
                ),
            forall|k: int|
                0 <= k < r.len() && i2 < n2 ==> axis_key(#[trigger] r@[k], axis as int) <= axis_key(
                    v2@[i2 as int],
                    axis as int,
                ),
            r@.to_multiset() == (v1@.subrange(0, i1 as int) + v2@.subrange(
                0,
                i2 as int,
            )).to_multiset(),
        decreases n1 - i1 + n2 - i2,
    {
        let ghost prefix1 = v1@.subrange(0, i1 as int);
        let ghost prefix2 = v2@.subrange(0, i2 as int);
        let take_first = if i1 < n1 && i2 < n2 {
            let a = v1[i1];
            let b = v2[i2];
            if axis == 0 {
                a.x <= b.x
            } else {
                a.y <= b.y
            }
        } else {
            i1 < n1
        };
        let ghost r_old = r@;
        if take_first {
            r.push(v1[i1]);
            proof {
                let a = v1@[i1 as int];
                assert(r@ =~= r_old.push(a));
                r_old.to_multiset_ensures();
                assert(r@.to_multiset() =~= r_old.to_multiset().insert(a));
                assert(v1@.subrange(0, i1 as int + 1) =~= prefix1.push(a));
                assert((prefix1.push(a) + prefix2).to_multiset() =~= (prefix1
                    + prefix2).to_multiset().insert(a)) by {
                    vstd::seq_lib::lemma_multiset_commutative(prefix1.push(a), prefix2);
                    vstd::seq_lib::lemma_multiset_commutative(prefix1, prefix2);
                    prefix1.to_multiset_ensures();
                    assert(prefix1.push(a).to_multiset() =~= prefix1.to_multiset().insert(a));
                }
                assert(r@.to_multiset() =~= (v1@.subrange(0, i1 as int + 1)
                    + prefix2).to_multiset());
            }
            i1 = i1 + 1;
        } else {
            r.push(v2[i2]);
            proof {
                let b = v2@[i2 as int];
                assert(r@ =~= r_old.push(b));
                r_old.to_multiset_ensures();
                assert(r@.to_multiset() =~= r_old.to_multiset().insert(b));
                assert(v2@.subrange(0, i2 as int + 1) =~= prefix2.push(b));
                assert((prefix1 + prefix2.push(b)).to_multiset() =~= (prefix1
                    + prefix2).to_multiset().insert(b)) by {
                    vstd::seq_lib::lemma_multiset_commutative(prefix1, prefix2.push(b));
                    vstd::seq_lib::lemma_multiset_commutative(prefix1, prefix2);
                    prefix2.to_multiset_ensures();
                    assert(prefix2.push(b).to_multiset() =~= prefix2.to_multiset().insert(b));
                }
                assert(r@.to_multiset() =~= (prefix1 + v2@.subrange(
                    0,
                    i2 as int + 1,
                )).to_multiset());
            }
            i2 = i2 + 1;
        }
    }
    proof {
        assert(v1@.subrange(0, n1 as int) =~= v1@);
        assert(v2@.subrange(0, n2 as int) =~= v2@);
    }
    r
}

/// Return a copy of `v` sorted on `axis`, holding the same points with
/// the same multiplicities.
pub(crate) fn sort_on_axis(v: &Vec<Point>, axis: usize) -> (r: Vec<Point>)
    ensures
        r@.to_multiset() == v@.to_multiset(),
        sorted_on(r@, axis as int),
    decreases v.len(),
{
    broadcast use vstd::seq_lib::lemma_multiset_commutative;

    let n = v.len();
    let mut lo = v.clone();
    if n <= 1 {
        lo
    } else {
        let hi = lo.split_off(n / 2);
        assert(lo@ + hi@ =~= v@);
        let ls = sort_on_axis(&lo, axis);
        let hs = sort_on_axis(&hi, axis);
        let r = merge_on_axis(&ls, &hs, axis);
        proof {
            assert(r@.to_multiset() =~= v@.to_multiset());
        }
        r
    }
}

} // verus!
