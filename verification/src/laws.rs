use vstd::prelude::*;
use vstd::multiset::Multiset;

use crate::point::{law_i32_distance_is_absolute_difference, law_i64_distance_is_absolute_difference, Point};
use crate::simple::is_nearest;

verus! {

broadcast use vstd::multiset::group_multiset_axioms;

/// Removing a point right after inserting it gives back the points that the
/// tree held before (`CoverTree::insert`, then `CoverTree::remove`).
pub proof fn law_remove_undoes_insert<P: Point>(m: Multiset<P>, p: P)
    ensures
        m.insert(p).contains(p),
        m.insert(p).remove(p) =~= m,
{
}

/// After a point is inserted, the nearest point to it is at distance zero.
pub proof fn law_nearest_after_insert<P: Point>(m: Multiset<P>, p: P, r: P)
    requires
        is_nearest(m.insert(p), p, r),
    ensures
        r.dist(p) == 0,
{
    P::lemma_metric(p, p, p);
    assert(m.insert(p).contains(p));
}

/// Whichever nearest point a search returns, its distance to the query is the
/// same.
pub proof fn law_nearest_distance_unique<P: Point>(m: Multiset<P>, q: P, r1: P, r2: P)
    requires
        is_nearest(m, q, r1),
        is_nearest(m, q, r2),
    ensures
        r1.dist(q) == r2.dist(q),
{
}

/// A point of the tree at distance zero from the query is a nearest point.
pub proof fn law_exact_match_is_nearest<P: Point>(m: Multiset<P>, q: P)
    requires
        m.contains(q),
    ensures
        is_nearest(m, q, q),
{
    P::lemma_metric(q, q, q);
}

/// Inserting a sequence of points and then removing them all gives back the
/// points that the tree held before (`insert_all`, then `remove_all`).
pub proof fn law_remove_all_undoes_insert_all<P: Point>(m: Multiset<P>, points: Seq<P>)
    ensures
        m.add(points.to_multiset()).sub(points.to_multiset()) =~= m,
        m.add(points.to_multiset()).len() == m.len() + points.len(),
{
    broadcast use vstd::seq_lib::group_to_multiset_ensures;
}

/// Among `i64` points, a nearest point is nearest by absolute difference:
/// no point of the tree differs from the query by less.
pub proof fn law_i64_nearest_by_absolute_difference(m: Multiset<i64>, q: i64, p: i64)
    requires
        is_nearest(m, q, p),
    ensures
        m.contains(p),
        forall|x: i64| #[trigger] m.contains(x) ==>
            (if p >= q { p - q } else { q - p }) <= (if x >= q { x - q } else { q - x }),
{
    assert forall|x: i64| #[trigger] m.contains(x) implies
        (if p >= q { p - q } else { q - p }) <= (if x >= q { x - q } else { q - x }) by {
        law_i64_distance_is_absolute_difference(p, q);
        law_i64_distance_is_absolute_difference(x, q);
        assert(p.dist(q) <= x.dist(q));
    }
}

/// Among `i32` points, a nearest point is nearest by absolute difference:
/// no point of the tree differs from the query by less.
pub proof fn law_i32_nearest_by_absolute_difference(m: Multiset<i32>, q: i32, p: i32)
    requires
        is_nearest(m, q, p),
    ensures
        m.contains(p),
        forall|x: i32| #[trigger] m.contains(x) ==>
            (if p >= q { p - q } else { q - p }) <= (if x >= q { x - q } else { q - x }),
{
    assert forall|x: i32| #[trigger] m.contains(x) implies
        (if p >= q { p - q } else { q - p }) <= (if x >= q { x - q } else { q - x }) by {
        law_i32_distance_is_absolute_difference(p, q);
        law_i32_distance_is_absolute_difference(x, q);
        assert(p.dist(q) <= x.dist(q));
    }
}

} // verus!
