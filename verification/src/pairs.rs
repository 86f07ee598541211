//! Unordered pairs of distinct occurrences, seen either through the
//! indices of a sequence or through the counts of a multiset, and lemmas
//! for moving between the two views. Permutations (sorted copies,
//! partitions, strips) preserve the multiset view, so the closest-pair
//! proofs reason in multisets and cross back to sequences at the API.

use vstd::prelude::*;
use vstd::multiset::Multiset;
use crate::point::Point;
use crate::point::points_in_range;

verus! {

/// `a` and `b` occur at two distinct positions of `s`, in either order.
pub open spec fn pair_in_seq(s: Seq<Point>, a: Point, b: Point) -> bool {
    exists|i: int, j: int|
        0 <= i < j < s.len() && ((s[i] == a && s[j] == b) || (s[i] == b && s[j] == a))
}

/// `a` and `b` can be drawn from `m` as two distinct elements.
pub open spec fn pair_in_multiset(m: Multiset<Point>, a: Point, b: Point) -> bool {
    if a == b {
        m.count(a) >= 2
    } else {
        m.count(a) >= 1 && m.count(b) >= 1
    }
}

/// A pair of positions of `s` is a pair of draws from its multiset.
pub proof fn lemma_pair_seq_to_multiset(s: Seq<Point>, a: Point, b: Point)
    requires
        pair_in_seq(s, a, b),
    ensures
        pair_in_multiset(s.to_multiset(), a, b),
{
    broadcast use vstd::seq_lib::group_to_multiset_ensures;

    let (i, j) = choose|i: int, j: int|
        0 <= i < j < s.len() && ((s[i] == a && s[j] == b) || (s[i] == b && s[j] == a));
    if a == b {
        let t = s.remove(i);
        assert(t[j - 1] == s[j]);
        assert(t.contains(a));
        assert(t.to_multiset().count(a) >= 1);
        assert(s.to_multiset().count(a) >= 2);
    } else {
        assert(s.contains(a));
        assert(s.contains(b));
    }
}

/// A pair of draws from the multiset of `s` is a pair of positions of `s`.
pub proof fn lemma_pair_multiset_to_seq(s: Seq<Point>, a: Point, b: Point)
    requires
        pair_in_multiset(s.to_multiset(), a, b),
    ensures
        pair_in_seq(s, a, b),
{
    broadcast use vstd::seq_lib::group_to_multiset_ensures;

    if a == b {
        assert(s.contains(a));
        let i = choose|i: int| 0 <= i < s.len() && s[i] == a;
        let t = s.remove(i);
        assert(t.to_multiset().count(a) >= 1);
        assert(t.contains(a));
        let k = choose|k: int| 0 <= k < t.len() && t[k] == a;
        if k < i {
            assert(t[k] == s[k]);
            assert(0 <= k < i < s.len() && s[k] == a && s[i] == a);
        } else {
            assert(t[k] == s[k + 1]);
            assert(0 <= i < k + 1 < s.len() && s[i] == a && s[k + 1] == a);
        }
    } else {
        assert(s.contains(a));
        assert(s.contains(b));
        let i = choose|i: int| 0 <= i < s.len() && s[i] == a;
        let j = choose|j: int| 0 <= j < s.len() && s[j] == b;
        if i < j {
            assert(0 <= i < j < s.len() && s[i] == a && s[j] == b);
        } else {
            assert(0 <= j < i < s.len() && s[j] == b && s[i] == a);
        }
    }
}

/// A pair drawn from a sum of two multisets is a pair within one summand
/// or one draw from each.
pub proof fn lemma_pair_in_multiset_add(m1: Multiset<Point>, m2: Multiset<Point>, a: Point, b: Point)
    requires
        pair_in_multiset(m1.add(m2), a, b),
    ensures
        pair_in_multiset(m1, a, b) || pair_in_multiset(m2, a, b) || (m1.count(a) >= 1
            && m2.count(b) >= 1) || (m1.count(b) >= 1 && m2.count(a) >= 1),
{
}

/// A pair survives when the multiset grows.
pub proof fn lemma_pair_in_multiset_grows(m1: Multiset<Point>, m2: Multiset<Point>, a: Point, b: Point)
    requires
        pair_in_multiset(m1, a, b),
    ensures
        pair_in_multiset(m1.add(m2), a, b),
{
}

/// Being in range is a property of the elements, so any sequence with the
/// same multiset inherits it.
pub proof fn lemma_in_range_from_multiset(s1: Seq<Point>, s2: Seq<Point>)
    requires
        s1.to_multiset() == s2.to_multiset(),
        points_in_range(s1),
    ensures
        points_in_range(s2),
{
    broadcast use vstd::seq_lib::group_to_multiset_ensures;

    assert forall|i: int| 0 <= i < s2.len() implies (#[trigger] s2[i]).in_range() by {
        assert(s2.contains(s2[i]));
        assert(s2.to_multiset().count(s2[i]) >= 1);
        assert(s1.contains(s2[i]));
    }
}

} // verus!
