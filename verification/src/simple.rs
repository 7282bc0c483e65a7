use vstd::prelude::*;
use vstd::multiset::Multiset;
use vstd::std_specs::cmp::PartialEqSpecImpl;

use crate::point::{Point, DEFAULT_SPAN_FACTOR};
use crate::span::{covdist, span_pow, MAX_LEVEL};

verus! {

broadcast use {vstd::seq_lib::group_seq_properties, vstd::multiset::group_multiset_axioms};

/// A node in a `CoverTree` containing a point of type P.
#[derive(Debug)]
pub struct Cover<P: Point> {
    /// The point stored in the `Cover`.
    point: P,
    /// The children of the `Cover`.
    children: Vec<Cover<P>>,
    /// The level of the `Cover`.
    level: usize,
    /// The maximum distance, when known, from the point to any of its
    /// descendents.
    max_distance: Option<u64>,
}

/// Every point of `s` is within `m` of `a`.
pub open spec fn within<P: Point>(a: P, s: Seq<P>, m: int) -> bool {
    forall|k: int| 0 <= k < s.len() ==> #[trigger] a.dist(s[k]) <= m
}

/// No point of `s` is closer to `q` than `d`.
pub open spec fn no_closer<P: Point>(q: P, s: Seq<P>, d: int) -> bool {
    forall|k: int| 0 <= k < s.len() ==> d <= #[trigger] s[k].dist(q)
}

/// The largest distance from `a` to a point of `s`, or zero when `s` is empty.
pub open spec fn max_dist<P: Point>(a: P, s: Seq<P>) -> u64
    decreases s.len(),
{
    if s.len() == 0 {
        0
    } else {
        let m = max_dist(a, s.drop_last());
        let d = a.dist(s.last());
        if m >= d {
            m
        } else {
            d
        }
    }
}

/// `max_dist` bounds every distance from `a` into `s`.
pub proof fn lemma_max_dist_bounds<P: Point>(a: P, s: Seq<P>)
    ensures
        within(a, s, max_dist(a, s) as int),
    decreases s.len(),
{
    if s.len() > 0 {
        lemma_max_dist_bounds(a, s.drop_last());
        assert forall|k: int| 0 <= k < s.len() implies #[trigger] a.dist(s[k]) <= max_dist(a, s) by {
            if k < s.len() - 1 {
                assert(s[k] == s.drop_last()[k]);
            }
        }
    }
}

/// A property of every point of a sequence carries over to any sequence whose
/// points it holds, counted with multiplicity.
pub proof fn lemma_sub_multiset_forall<P>(s1: Seq<P>, s2: Seq<P>, f: spec_fn(P) -> bool)
    requires
        s2.to_multiset().subset_of(s1.to_multiset()),
        forall|k: int| 0 <= k < s1.len() ==> #[trigger] f(s1[k]),
    ensures
        forall|k: int| 0 <= k < s2.len() ==> #[trigger] f(s2[k]),
{
    assert forall|k: int| 0 <= k < s2.len() implies #[trigger] f(s2[k]) by {
        let x = s2[k];
        assert(s2.contains(x));
        assert(s2.to_multiset().count(x) > 0);
        assert(s1.to_multiset().count(x) > 0);
        assert(s1.contains(x));
        let j = choose|j: int| 0 <= j < s1.len() && s1[j] == x;
        assert(f(s1[j]));
    }
}

/// `within` carries over to a sub-multiset.
pub proof fn lemma_within_sub<P: Point>(a: P, s1: Seq<P>, s2: Seq<P>, m: int)
    requires
        s2.to_multiset().subset_of(s1.to_multiset()),
        within(a, s1, m),
    ensures
        within(a, s2, m),
{
    let f = |x: P| a.dist(x) <= m;
    assert forall|k: int| 0 <= k < s1.len() implies #[trigger] f(s1[k]) by {
        assert(a.dist(s1[k]) <= m);
    }
    lemma_sub_multiset_forall(s1, s2, f);
    assert forall|k: int| 0 <= k < s2.len() implies #[trigger] a.dist(s2[k]) <= m by {
        assert(f(s2[k]));
    }
}

/// `no_closer` carries over to a sub-multiset.
pub proof fn lemma_no_closer_sub<P: Point>(q: P, s1: Seq<P>, s2: Seq<P>, d: int)
    requires
        s2.to_multiset().subset_of(s1.to_multiset()),
        no_closer(q, s1, d),
    ensures
        no_closer(q, s2, d),
{
    let f = |x: P| d <= x.dist(q);
    assert forall|k: int| 0 <= k < s1.len() implies #[trigger] f(s1[k]) by {
        assert(d <= s1[k].dist(q));
    }
    lemma_sub_multiset_forall(s1, s2, f);
    assert forall|k: int| 0 <= k < s2.len() implies d <= #[trigger] s2[k].dist(q) by {
        assert(f(s2[k]));
    }
}

impl<P: Point> Cover<P> {
    /// The points of the subtree rooted at this node, in pre-order.
    pub closed spec fn pts(self) -> Seq<P>
        decreases self, 1int,
    {
        seq![self.point] + Self::forest(self.children@)
    }

    /// The points of a sequence of subtrees, one subtree after the other.
    pub closed spec fn forest(cs: Seq<Cover<P>>) -> Seq<P>
        decreases cs, 0int,
    {
        if cs.len() == 0 {
            Seq::empty()
        } else {
            Self::forest(cs.drop_last()) + cs.last().pts()
        }
    }

    /// The points of the subtree rooted at this node, with multiplicity.
    pub open spec fn contents(self) -> Multiset<P> {
        self.pts().to_multiset()
    }

    /// The point held by this node.
    pub closed spec fn spec_point(self) -> P {
        self.point
    }

    /// The level of this node.
    pub closed spec fn spec_level(self) -> usize {
        self.level
    }

    /// This node has no children.
    pub closed spec fn is_leaf(self) -> bool {
        self.children@.len() == 0
    }

    /// The children of this node, in order.
    pub closed spec fn spec_children(self) -> Seq<Cover<P>> {
        self.children@
    }

    /// The cached bound on the distance to the points below this node.
    pub closed spec fn spec_max_distance(self) -> Option<u64> {
        self.max_distance
    }

    /// The points below this node, in pre-order.
    pub closed spec fn descendant_pts(self) -> Seq<P> {
        Self::forest(self.children@)
    }

    /// The nodes of the subtree rooted at this node, in pre-order.
    pub closed spec fn nodes(self) -> Seq<Cover<P>>
        decreases self, 1int,
    {
        seq![self] + Self::forest_nodes(self.children@)
    }

    /// The nodes of a sequence of subtrees, one subtree after the other.
    pub closed spec fn forest_nodes(cs: Seq<Cover<P>>) -> Seq<Cover<P>>
        decreases cs, 0int,
    {
        if cs.len() == 0 {
            Seq::empty()
        } else {
            Self::forest_nodes(cs.drop_last()) + cs.last().nodes()
        }
    }

    /// The nodes below this node, in pre-order: each child followed by the
    /// nodes below it.
    pub closed spec fn descendant_nodes(self) -> Seq<Cover<P>> {
        Self::forest_nodes(self.children@)
    }

    /// The points of the nodes of a subtree are its points.
    pub proof fn lemma_nodes_points(self)
        ensures
            self.nodes().len() == self.pts().len(),
            forall|k: int| 0 <= k < self.nodes().len() ==> (#[trigger] self.nodes()[k]).spec_point() == self.pts()[k],
            self.descendant_nodes().len() == self.descendant_pts().len(),
            forall|k: int| 0 <= k < self.descendant_nodes().len() ==>
                (#[trigger] self.descendant_nodes()[k]).spec_point() == self.descendant_pts()[k],
        decreases self, 1int,
    {
        Self::lemma_forest_nodes_points(self.children@);
        assert forall|k: int| 0 <= k < self.nodes().len() implies (#[trigger] self.nodes()[k]).spec_point() == self.pts()[k] by {
            if k > 0 {
                assert(self.nodes()[k] == Self::forest_nodes(self.children@)[k - 1]);
                assert(self.pts()[k] == Self::forest(self.children@)[k - 1]);
            }
        }
    }

    /// The points of the nodes of a forest are its points.
    pub proof fn lemma_forest_nodes_points(cs: Seq<Cover<P>>)
        ensures
            Self::forest_nodes(cs).len() == Self::forest(cs).len(),
            forall|k: int| 0 <= k < Self::forest_nodes(cs).len() ==>
                (#[trigger] Self::forest_nodes(cs)[k]).spec_point() == Self::forest(cs)[k],
        decreases cs, 0int,
    {
        if cs.len() > 0 {
            Self::lemma_forest_nodes_points(cs.drop_last());
            cs.last().lemma_nodes_points();
            let a = Self::forest_nodes(cs.drop_last());
            let b = cs.last().nodes();
            assert forall|k: int| 0 <= k < Self::forest_nodes(cs).len() implies
                (#[trigger] Self::forest_nodes(cs)[k]).spec_point() == Self::forest(cs)[k] by {
                if k < a.len() {
                    assert(Self::forest_nodes(cs)[k] == a[k]);
                } else {
                    assert(Self::forest_nodes(cs)[k] == b[k - a.len()]);
                }
            }
        }
    }

    /// A point within twice a subtree's cover distance of its root can become
    /// the root one level up: the old root lies within the new cover distance
    /// and every point within twice of it.
    proof fn lemma_new_root_covers(q: P, rest: Cover<P>, sf: u64)
        requires
            sf >= 2,
            rest.covers(sf),
            rest.point.dist(q) <= 2 * covdist(sf, rest.level as nat),
        ensures
            q.dist(rest.point) <= covdist(sf, rest.level as nat + 1),
            within(q, rest.pts(), 2 * covdist(sf, rest.level as nat + 1)),
    {
        let l = rest.level as nat;
        let p = rest.point;
        P::lemma_metric(q, p, q);
        crate::span::lemma_covdist_double(sf, l, q.dist(p) as int);
        rest.lemma_pts_ms();
        assert forall|k: int| 0 <= k < rest.pts().len() implies #[trigger] q.dist(rest.pts()[k]) <= 2 * covdist(sf, l + 1) by {
            let y = rest.pts()[k];
            P::lemma_metric(q, p, y);
            if k > 0 {
                assert(y == Self::forest(rest.children@)[k - 1]);
                assert(p.dist(y) <= 2 * covdist(sf, l));
            } else {
                P::lemma_metric(p, p, p);
            }
            crate::span::lemma_covdist_quad(sf, l, q.dist(y) as int);
        }
    }

    proof fn lemma_forest_nodes_concat(a: Seq<Cover<P>>, b: Seq<Cover<P>>)
        ensures
            Self::forest_nodes(a + b) == Self::forest_nodes(a) + Self::forest_nodes(b),
        decreases b.len(),
    {
        if b.len() == 0 {
            assert(a + b =~= a);
            assert(Self::forest_nodes(a) + Self::forest_nodes(b) =~= Self::forest_nodes(a));
        } else {
            assert((a + b).drop_last() =~= a + b.drop_last());
            Self::lemma_forest_nodes_concat(a, b.drop_last());
            assert(Self::forest_nodes(a + b) =~= Self::forest_nodes(a) + Self::forest_nodes(b));
        }
    }

    proof fn lemma_forest_nodes_split(cs: Seq<Cover<P>>, i: int)
        requires
            0 <= i < cs.len(),
        ensures
            Self::forest_nodes(cs) == Self::forest_nodes(cs.take(i)) + cs[i].nodes() + Self::forest_nodes(cs.skip(i + 1)),
    {
        let s1 = seq![cs[i]];
        assert(cs =~= cs.take(i) + s1 + cs.skip(i + 1));
        Self::lemma_forest_nodes_concat(cs.take(i) + s1, cs.skip(i + 1));
        Self::lemma_forest_nodes_concat(cs.take(i), s1);
        assert(s1.drop_last() =~= Seq::<Cover<P>>::empty());
        assert(Self::forest_nodes(s1.drop_last()) =~= Seq::<Cover<P>>::empty());
        assert(Self::forest_nodes(s1) =~= cs[i].nodes());
    }

    /// Each subtree's root is one of the forest's nodes.
    proof fn lemma_forest_nodes_member(cs: Seq<Cover<P>>, i: int)
        requires
            0 <= i < cs.len(),
        ensures
            Self::forest_nodes(cs).contains(cs[i]),
    {
        Self::lemma_forest_nodes_split(cs, i);
        let k = Self::forest_nodes(cs.take(i)).len() as int;
        assert(cs[i].nodes()[0] == cs[i]);
        assert(Self::forest_nodes(cs)[k] == cs[i]);
    }

    /// The cached distance, when there is one, is the largest distance from
    /// this node's point to a point below it.
    pub closed spec fn cache_ok(self) -> bool {
        match self.max_distance {
            Some(m) => m == max_dist(self.point, Self::forest(self.children@)),
            None => true,
        }
    }

    /// Every node of the subtree has a level in `1..=MAX_LEVEL` and a correct
    /// cached distance bound.
    pub closed spec fn wf(self) -> bool
        decreases self,
    {
        &&& 1 <= self.level <= MAX_LEVEL
        &&& self.cache_ok()
        &&& forall|j: int| 0 <= j < self.children@.len() ==> (#[trigger] self.children@[j]).wf()
    }

    /// The covering condition: every child of every node of the subtree lies
    /// within its parent's cover distance, and every point below a node within
    /// twice that distance. The second part bounds how far a leaf promoted
    /// from deep below can lie from the node it replaces.
    pub closed spec fn covers(self, span_factor: u64) -> bool
        decreases self,
    {
        &&& within(self.point, Self::forest(self.children@), 2 * covdist(span_factor, self.level as nat))
        &&& forall|j: int|
            0 <= j < self.children@.len() ==> {
                &&& self.point.dist((#[trigger] self.children@[j]).point) <= covdist(span_factor, self.level as nat)
                &&& self.children@[j].covers(span_factor)
            }
    }

    /// The points held by the roots of `cs`, in order.
    pub open spec fn child_points(cs: Seq<Cover<P>>) -> Seq<P> {
        cs.map_values(|c: Cover<P>| c.spec_point())
    }

    /// Each subtree of `cs` satisfies the covering condition and its root lies
    /// within cover distance of the point `p` at level `l`.
    pub open spec fn all_covered(p: P, l: usize, cs: Seq<Cover<P>>, span_factor: u64) -> bool {
        forall|t: int|
            0 <= t < cs.len() ==> {
                &&& p.dist((#[trigger] cs[t]).spec_point()) <= covdist(span_factor, l as nat)
                &&& cs[t].covers(span_factor)
            }
    }

    proof fn lemma_covers_children(self, sf: u64)
        ensures
            self.covers(sf) == (within(self.point, Self::forest(self.children@), 2 * covdist(sf, self.level as nat))
                && Self::all_covered(self.point, self.level, self.children@, sf)),
    {
        if self.covers(sf) {
            assert forall|t: int| 0 <= t < self.children@.len() implies {
                &&& self.point.dist((#[trigger] self.children@[t]).spec_point()) <= covdist(sf, self.level as nat)
                &&& self.children@[t].covers(sf)
            } by {}
        }
        if Self::all_covered(self.point, self.level, self.children@, sf) {
            assert forall|j: int| 0 <= j < self.children@.len() implies {
                &&& self.point.dist((#[trigger] self.children@[j]).point) <= covdist(sf, self.level as nat)
                &&& self.children@[j].covers(sf)
            } by {
                assert(self.children@[j].spec_point() == self.children@[j].point);
            }
        }
    }

    proof fn lemma_all_covered_swap(p: P, l: usize, cs: Seq<Cover<P>>, j: int, sf: u64)
        requires
            0 < j < cs.len(),
            Self::all_covered(p, l, cs, sf),
        ensures
            Self::all_covered(p, l, cs.update(j - 1, cs[j]).update(j, cs[j - 1]), sf),
    {
        let cs2 = cs.update(j - 1, cs[j]).update(j, cs[j - 1]);
        assert forall|t: int| 0 <= t < cs2.len() implies {
            &&& p.dist((#[trigger] cs2[t]).spec_point()) <= covdist(sf, l as nat)
            &&& cs2[t].covers(sf)
        } by {
            let k = if t == j - 1 { j } else if t == j { j - 1 } else { t };
            assert(cs2[t] == cs[k]);
        }
    }

    proof fn lemma_forest_empty()
        ensures
            Self::forest(Seq::<Cover<P>>::empty()) == Seq::<P>::empty(),
    {
    }

    proof fn lemma_forest_single(c: Cover<P>)
        ensures
            Self::forest(seq![c]) == c.pts(),
    {
        let s1 = seq![c];
        assert(s1.drop_last() =~= Seq::<Cover<P>>::empty());
        assert(Self::forest(s1.drop_last()) =~= Seq::<P>::empty());
        assert(Self::forest(s1) =~= c.pts());
    }

    proof fn lemma_forest_concat(a: Seq<Cover<P>>, b: Seq<Cover<P>>)
        ensures
            Self::forest(a + b) == Self::forest(a) + Self::forest(b),
        decreases b.len(),
    {
        if b.len() == 0 {
            assert(a + b =~= a);
            assert(Self::forest(a) + Self::forest(b) =~= Self::forest(a));
        } else {
            assert((a + b).drop_last() =~= a + b.drop_last());
            Self::lemma_forest_concat(a, b.drop_last());
            assert(Self::forest(a + b) =~= Self::forest(a) + Self::forest(b));
        }
    }

    proof fn lemma_forest_push(cs: Seq<Cover<P>>, c: Cover<P>)
        ensures
            Self::forest(cs.push(c)) == Self::forest(cs) + c.pts(),
    {
        assert(cs.push(c).drop_last() =~= cs);
    }

    proof fn lemma_forest_split(cs: Seq<Cover<P>>, i: int)
        requires
            0 <= i < cs.len(),
        ensures
            Self::forest(cs) == Self::forest(cs.take(i)) + cs[i].pts() + Self::forest(cs.skip(i + 1)),
    {
        let s1 = seq![cs[i]];
        assert(cs =~= cs.take(i) + s1 + cs.skip(i + 1));
        Self::lemma_forest_concat(cs.take(i) + s1, cs.skip(i + 1));
        Self::lemma_forest_concat(cs.take(i), s1);
        Self::lemma_forest_single(cs[i]);
    }

    proof fn lemma_forest_update(cs: Seq<Cover<P>>, i: int, c: Cover<P>)
        requires
            0 <= i < cs.len(),
        ensures
            Self::forest(cs.update(i, c)) == Self::forest(cs.take(i)) + c.pts() + Self::forest(cs.skip(i + 1)),
    {
        let cs2 = cs.update(i, c);
        Self::lemma_forest_split(cs2, i);
        assert(cs2.take(i) =~= cs.take(i));
        assert(cs2.skip(i + 1) =~= cs.skip(i + 1));
    }

    /// Replacing one subtree of a forest changes the forest's points by exactly
    /// the change of that subtree's points.
    proof fn lemma_forest_update_ms(cs: Seq<Cover<P>>, i: int, c: Cover<P>)
        requires
            0 <= i < cs.len(),
        ensures
            Self::forest(cs.update(i, c)).to_multiset().add(cs[i].pts().to_multiset())
                =~= Self::forest(cs).to_multiset().add(c.pts().to_multiset()),
    {
        Self::lemma_forest_update(cs, i, c);
        Self::lemma_forest_split(cs, i);
        let a = Self::forest(cs.take(i));
        let b = Self::forest(cs.skip(i + 1));
        vstd::seq_lib::lemma_multiset_commutative(a + c.pts(), b);
        vstd::seq_lib::lemma_multiset_commutative(a, c.pts());
        vstd::seq_lib::lemma_multiset_commutative(a + cs[i].pts(), b);
        vstd::seq_lib::lemma_multiset_commutative(a, cs[i].pts());
    }

    /// The points of one subtree are among the points of the forest.
    proof fn lemma_forest_child_ms(cs: Seq<Cover<P>>, i: int)
        requires
            0 <= i < cs.len(),
        ensures
            cs[i].pts().to_multiset().subset_of(Self::forest(cs).to_multiset()),
    {
        Self::lemma_forest_split(cs, i);
        let a = Self::forest(cs.take(i));
        let b = Self::forest(cs.skip(i + 1));
        vstd::seq_lib::lemma_multiset_commutative(a + cs[i].pts(), b);
        vstd::seq_lib::lemma_multiset_commutative(a, cs[i].pts());
    }

    proof fn lemma_child_smaller(self, j: int)
        requires
            0 <= j < self.children@.len(),
        ensures
            self.children@[j].pts().len() < self.pts().len(),
    {
        Self::lemma_forest_split(self.children@, j);
    }

    proof fn lemma_pts_ms(self)
        ensures
            self.pts().to_multiset() =~= Self::forest(self.children@).to_multiset().insert(self.point),
            self.pts()[0] == self.point,
            self.pts().len() == Self::forest(self.children@).len() + 1,
    {
        vstd::seq_lib::lemma_multiset_commutative(seq![self.point], Self::forest(self.children@));
        assert(seq![self.point].to_multiset() =~= Multiset::<P>::empty().insert(self.point)) by {
            assert(seq![self.point] =~= Seq::<P>::empty().push(self.point));
        }
    }

    /// A node's points are its own point followed by the points below it,
    /// which are the points of its children's subtrees, one after the other.
    pub proof fn lemma_pts_unfold(self)
        ensures
            self.pts() == seq![self.spec_point()] + self.descendant_pts(),
            self.descendant_pts() == Self::forest(self.spec_children()),
            self.is_leaf() <==> self.spec_children().len() == 0,
            self.is_leaf() ==> self.descendant_pts() == Seq::<P>::empty(),
    {
        if self.is_leaf() {
            assert(self.children@ =~= Seq::<Cover<P>>::empty());
        }
    }

    /// Constructs a new `Cover` with the given point and level.
    pub fn new(point: P, level: usize) -> (c: Cover<P>)
        ensures
            c.spec_point() == point,
            c.is_leaf(),
            c.spec_level() == level,
            c.spec_max_distance() is None,
            c.descendant_pts() == Seq::<P>::empty(),
            c.pts() == seq![point],
            c.contents() =~= Multiset::<P>::empty().insert(point),
            1 <= level <= MAX_LEVEL ==> c.wf(),
    {
        let c = Cover { point, children: Vec::new(), level, max_distance: None };
        proof {
            Self::lemma_forest_empty();
            assert(c.children@ =~= Seq::<Cover<P>>::empty());
            assert(c.pts() =~= seq![point]);
            assert(seq![point] =~= Seq::<P>::empty().push(point));
            assert(c.descendant_pts() =~= Seq::<P>::empty());
        }
        c
    }
}


impl<P: Point> Cover<P> {
    /// Returns the size of the cover: `span_factor^level`, saturated at `u64::MAX`.
    fn cover_distance(&self, span_factor: u64) -> (d: u64)
        requires
            span_factor >= 2,
        ensures
            d == covdist(span_factor, self.level as nat),
    {
        let mut d: u64 = 1;
        let mut i: usize = 0;
        while i < self.level
            invariant
                i <= self.level,
                span_factor >= 2,
                d == covdist(span_factor, i as nat),
            decreases self.level - i,
        {
            proof {
                let p = span_pow(span_factor as nat, i as nat);
                assert(span_pow(span_factor as nat, (i + 1) as nat) == span_factor * p);
                if p >= u64::MAX {
                    assert(span_factor * p >= p) by (nonlinear_arith)
                        requires
                            span_factor >= 2,
                            p >= 0,
                    ;
                }
                assert(span_factor * p == p * span_factor) by (nonlinear_arith);
            }
            if d < u64::MAX {
                match d.checked_mul(span_factor) {
                    Some(x) => {
                        d = x;
                    },
                    None => {
                        d = u64::MAX;
                    },
                }
            }
            i += 1;
        }
        d
    }

    /// Returns all of the `Cover`s under this one, in pre-order.
    fn descendents(&self) -> (ds: Vec<&Cover<P>>)
        ensures
            ds@.len() == self.descendant_nodes().len(),
            forall|k: int| 0 <= k < ds@.len() ==> *(#[trigger] ds@[k]) == self.descendant_nodes()[k],
            ds@.len() == Self::forest(self.children@).len(),
            forall|k: int| 0 <= k < ds@.len() ==> (#[trigger] ds@[k]).point == Self::forest(self.children@)[k],
        decreases self.pts().len(),
    {
        let mut descendents: Vec<&Cover<P>> = Vec::new();
        let mut i: usize = 0;
        while i < self.children.len()
            invariant
                i <= self.children.len(),
                descendents@.len() == Self::forest_nodes(self.children@.take(i as int)).len(),
                forall|k: int| 0 <= k < descendents@.len() ==> *(#[trigger] descendents@[k])
                    == Self::forest_nodes(self.children@.take(i as int))[k],
            decreases self.children.len() - i,
        {
            let child = &self.children[i];
            proof {
                self.lemma_child_smaller(i as int);
                assert(self.children@.take(i + 1) =~= self.children@.take(i as int).push(*child));
                assert(self.children@.take(i + 1).drop_last() =~= self.children@.take(i as int));
            }
            let ghost before = Self::forest_nodes(self.children@.take(i as int));
            descendents.push(child);
            let sub = child.descendents();
            let mut j: usize = 0;
            while j < sub.len()
                invariant
                    j <= sub.len(),
                    sub@.len() == child.descendant_nodes().len(),
                    forall|k: int| 0 <= k < sub@.len() ==> *(#[trigger] sub@[k]) == child.descendant_nodes()[k],
                    descendents@.len() == before.len() + 1 + j,
                    forall|k: int| 0 <= k < descendents@.len() ==> *(#[trigger] descendents@[k])
                        == (before + child.nodes())[k],
                decreases sub.len() - j,
            {
                descendents.push(sub[j]);
                j += 1;
            }
            i += 1;
        }
        proof {
            assert(self.children@.take(self.children@.len() as int) =~= self.children@);
            Self::lemma_forest_nodes_points(self.children@);
        }
        descendents
    }
}

impl<P: Point> Cover<P> {
    /// Calculates the maximum distance between the `Cover`s point and any of
    /// its descendents. Ignores any cached value.
    fn max_distance_(&self) -> (m: u64)
        ensures
            m == max_dist(self.point, Self::forest(self.children@)),
    {
        let ghost f = Self::forest(self.children@);
        let descendents = self.descendents();
        let mut dist: u64 = 0;
        let mut k: usize = 0;
        while k < descendents.len()
            invariant
                k <= descendents@.len(),
                descendents@.len() == f.len(),
                forall|i: int| 0 <= i < descendents@.len() ==> (#[trigger] descendents@[i]).point == f[i],
                dist == max_dist(self.point, f.take(k as int)),
            decreases descendents.len() - k,
        {
            let d = self.point.distance(descendents[k].point);
            proof {
                assert(f.take(k + 1).drop_last() =~= f.take(k as int));
                assert(f.take(k + 1).last() == f[k as int]);
            }
            if d > dist {
                dist = d;
            }
            k += 1;
        }
        proof {
            assert(f.take(f.len() as int) =~= f);
        }
        dist
    }

    /// Returns the maximum distance between the `Cover`s point and any of its
    /// descendents: the cached one when there is one, else the one computed,
    /// which is then cached.
    fn max_distance(&mut self) -> (m: u64)
        requires
            old(self).wf(),
        ensures
            *final(self) == (Cover { max_distance: Some(m), ..*old(self) }),
            final(self).wf(),
            forall|sf: u64| #[trigger] old(self).covers(sf) ==> final(self).covers(sf),
            within(old(self).point, Self::forest(old(self).children@), m as int),
            m == max_dist(old(self).point, Self::forest(old(self).children@)),
    {
        proof {
            lemma_max_dist_bounds(self.point, Self::forest(self.children@));
        }
        match self.max_distance {
            Some(dist) => dist,
            None => {
                let dist = self.max_distance_();
                proof {
                    lemma_max_dist_bounds(self.point, Self::forest(self.children@));
                }
                self.max_distance = Some(dist);
                proof {
                    assert forall|sf: u64| #[trigger] old(self).covers(sf) implies self.covers(sf) by {
                        old(self).lemma_covers_children(sf);
                        self.lemma_covers_children(sf);
                    }
                }
                dist
            },
        }
    }

    /// Adds a new child `Cover` to this node.
    fn add_child(&mut self, cover: Cover<P>)
        ensures
            *final(self) == (Cover { children: final(self).children, ..*old(self) }),
            final(self).children@ == old(self).children@.push(cover),
    {
        self.children.push(cover);
    }
}

impl<P: Point> Cover<P> {
    /// Swapping two neighbouring subtrees keeps the points of a forest.
    proof fn lemma_forest_swap_ms(cs: Seq<Cover<P>>, j: int)
        requires
            0 < j < cs.len(),
        ensures
            Self::forest(cs.update(j - 1, cs[j]).update(j, cs[j - 1])).to_multiset()
                =~= Self::forest(cs).to_multiset(),
    {
        let a = cs[j - 1];
        let b = cs[j];
        let cs1 = cs.update(j - 1, b);
        let cs2 = cs1.update(j, a);
        Self::lemma_forest_update_ms(cs, j - 1, b);
        Self::lemma_forest_update_ms(cs1, j, a);
        let f = Self::forest(cs).to_multiset();
        let f1 = Self::forest(cs1).to_multiset();
        let f2 = Self::forest(cs2).to_multiset();
        let ma = a.pts().to_multiset();
        let mb = b.pts().to_multiset();
        assert(cs1[j] == b);
        assert(f1.add(ma) == f.add(mb));
        assert(f2.add(mb) == f1.add(ma));
        assert forall|x: P| f2.count(x) == f.count(x) by {
            assert(f1.add(ma).count(x) == f.add(mb).count(x));
            assert(f2.add(mb).count(x) == f1.add(ma).count(x));
        }
    }

    /// All of `ks[..=i]` but position `j` is in order.
    spec fn sorted_except(ks: Seq<u64>, j: int, i: int) -> bool {
        forall|a: int, b: int| 0 <= a < b <= i && a != j && b != j ==> ks[a] <= ks[b]
    }

    /// `ks[j]` is below everything after it up to `i`.
    spec fn below_rest(ks: Seq<u64>, j: int, i: int) -> bool {
        forall|b: int| j < b <= i ==> ks[j] < ks[b]
    }

    proof fn lemma_sort_step(ks: Seq<u64>, j: int, i: int)
        requires
            0 < j <= i < ks.len(),
            ks[j - 1] > ks[j],
            Self::sorted_except(ks, j, i),
            Self::below_rest(ks, j, i),
        ensures
            Self::sorted_except(ks.update(j - 1, ks[j]).update(j, ks[j - 1]), j - 1, i),
            Self::below_rest(ks.update(j - 1, ks[j]).update(j, ks[j - 1]), j - 1, i),
    {
    }

    proof fn lemma_sort_done(ks: Seq<u64>, j: int, i: int)
        requires
            0 <= j <= i < ks.len(),
            j == 0 || ks[j - 1] <= ks[j],
            Self::sorted_except(ks, j, i),
            Self::below_rest(ks, j, i),
        ensures
            forall|a: int, b: int| 0 <= a < b < i + 1 ==> ks[a] <= ks[b],
    {
        assert forall|a: int, b: int| 0 <= a < b < i + 1 implies ks[a] <= ks[b] by {
            if b == j && a < j - 1 {
                assert(ks[a] <= ks[j - 1]);
            }
        }
    }

    /// Sorts the children by the distance of their points to `query`
    /// (a stable insertion sort).
    #[verifier::rlimit(40)]
    fn sort_children_by_distance(&mut self, query: P)
        requires
            old(self).wf(),
        ensures
            final(self).wf(),
            final(self).point == old(self).point,
            final(self).level == old(self).level,
            final(self).max_distance == old(self).max_distance,
            final(self).children@.len() == old(self).children@.len(),
            Self::forest(final(self).children@).to_multiset() == Self::forest(old(self).children@).to_multiset(),
            final(self).pts().to_multiset() == old(self).pts().to_multiset(),
            forall|a: int, b: int|
                0 <= a < b < final(self).children@.len() ==> (#[trigger] final(self).children@[a]).point.dist(query)
                    <= (#[trigger] final(self).children@[b]).point.dist(query),
            forall|sf: u64| #[trigger] old(self).covers(sf) ==> final(self).covers(sf),
            Self::child_points(final(self).children@).to_multiset() =~= Self::child_points(old(self).children@).to_multiset(),
    {
        proof {
            assert forall|sf: u64| #[trigger] old(self).covers(sf) implies
                Self::all_covered(self.point, self.level, self.children@, sf) by {
                old(self).lemma_covers_children(sf);
            }
        }
        let n = self.children.len();
        let ghost f0 = Self::forest(self.children@).to_multiset();
        let mut keys: Vec<u64> = Vec::new();
        let mut i: usize = 0;
        while i < n
            invariant
                i <= n,
                n == self.children@.len(),
                keys@.len() == i,
                forall|t: int| 0 <= t < i ==> keys@[t] == (#[trigger] self.children@[t]).point.dist(query),
            decreases n - i,
        {
            keys.push(self.children[i].point.distance(query));
            i += 1;
        }
        let mut i: usize = 1;
        while i < n
            invariant
                n == self.children@.len(),
                keys@.len() == n,
                forall|t: int| 0 <= t < n ==> keys@[t] == (#[trigger] self.children@[t]).point.dist(query),
                forall|t: int| 0 <= t < n ==> (#[trigger] self.children@[t]).wf(),
                Self::forest(self.children@).to_multiset() == f0,
                self.point == old(self).point,
                self.level == old(self).level,
                self.max_distance == old(self).max_distance,
                forall|sf: u64| #[trigger] old(self).covers(sf) ==>
                    Self::all_covered(old(self).point, old(self).level, self.children@, sf),
                Self::child_points(self.children@).to_multiset() =~= Self::child_points(old(self).children@).to_multiset(),
                n > 0 ==> 1 <= i <= n,
                forall|a: int, b: int| 0 <= a < b < i ==> keys@[a] <= keys@[b],
            decreases n - i,
        {
            let mut j: usize = i;
            proof {
                assert(Self::sorted_except(keys@, j as int, i as int));
            }
            while j > 0 && keys[j - 1] > keys[j]
                invariant
                    0 <= j <= i < n,
                    n == self.children@.len(),
                    keys@.len() == n,
                    forall|t: int| 0 <= t < n ==> keys@[t] == (#[trigger] self.children@[t]).point.dist(query),
                    forall|t: int| 0 <= t < n ==> (#[trigger] self.children@[t]).wf(),
                    Self::forest(self.children@).to_multiset() == f0,
                    self.point == old(self).point,
                    self.level == old(self).level,
                    self.max_distance == old(self).max_distance,
                    forall|sf: u64| #[trigger] old(self).covers(sf) ==>
                        Self::all_covered(old(self).point, old(self).level, self.children@, sf),
                    Self::child_points(self.children@).to_multiset() =~= Self::child_points(old(self).children@).to_multiset(),
                    Self::sorted_except(keys@, j as int, i as int),
                    Self::below_rest(keys@, j as int, i as int),
                decreases j,
            {
                let ghost cs = self.children@;
                let ghost ks = keys@;
                let c = self.children.remove(j);
                self.children.insert(j - 1, c);
                let k = keys.remove(j);
                keys.insert(j - 1, k);
                proof {
                    assert(self.children@ =~= cs.update(j - 1, cs[j as int]).update(j as int, cs[j - 1]));
                    assert(keys@ =~= ks.update(j - 1, ks[j as int]).update(j as int, ks[j - 1]));
                    Self::lemma_forest_swap_ms(cs, j as int);
                    Self::lemma_sort_step(ks, j as int, i as int);
                    let ps = Self::child_points(cs);
                    lemma_swap_ms(ps, j as int);
                    assert(Self::child_points(self.children@) =~= ps.update(j - 1, ps[j as int]).update(j as int, ps[j - 1]));
                    assert forall|sf: u64| #[trigger] old(self).covers(sf) implies
                        Self::all_covered(old(self).point, old(self).level, self.children@, sf) by {
                        Self::lemma_all_covered_swap(old(self).point, old(self).level, cs, j as int, sf);
                    }
                }
                j -= 1;
            }
            proof {
                Self::lemma_sort_done(keys@, j as int, i as int);
            }
            i += 1;
        }
        proof {
            let cs = self.children@;
            assert forall|a: int, b: int| 0 <= a < b < cs.len() implies (#[trigger] cs[a]).point.dist(query)
                <= (#[trigger] cs[b]).point.dist(query) by {
                assert(keys@[a] <= keys@[b]);
            }
            self.lemma_pts_ms();
            old(self).lemma_pts_ms();
            if let Some(m) = self.max_distance {
                lemma_max_dist_ms(self.point, Self::forest(old(self).children@), Self::forest(cs));
            }
            assert forall|sf: u64| #[trigger] old(self).covers(sf) implies self.covers(sf) by {
                self.lemma_covers_children(sf);
                old(self).lemma_covers_children(sf);
                lemma_within_sub(self.point, Self::forest(old(self).children@), Self::forest(cs),
                    2 * covdist(sf, self.level as nat));
            }
        }
    }
}

impl<P: Point> Cover<P> {
    /// A node's own point and the points below it make up its points.
    proof fn lemma_pts_index(self, k: int)
        requires
            0 <= k < self.pts().len(),
        ensures
            k == 0 ==> self.pts()[k] == self.point,
            k > 0 ==> self.pts()[k] == Self::forest(self.children@)[k - 1],
    {
    }

    /// No point of a subtree whose cached bound `md` satisfies
    /// `nd + md <= dist(query, point)` is closer to `query` than `nd`.
    proof fn lemma_prune(self, query: P, nd: int, md: int)
        requires
            within(self.point, Self::forest(self.children@), md),
            0 <= md,
            nd + md <= query.dist(self.point),
        ensures
            no_closer(query, self.pts(), nd),
    {
        assert forall|k: int| 0 <= k < self.pts().len() implies nd <= #[trigger] self.pts()[k].dist(query) by {
            self.lemma_pts_index(k);
            let x = self.pts()[k];
            P::lemma_metric(query, x, self.point);
            P::lemma_metric(x, query, self.point);
            P::lemma_metric(self.point, x, query);
            if k > 0 {
                assert(self.point.dist(Self::forest(self.children@)[k - 1]) <= md);
            }
        }
    }

    /// `no_closer` of a concatenation.
    proof fn lemma_no_closer_concat(q: P, s1: Seq<P>, s2: Seq<P>, d: int)
        requires
            no_closer(q, s1, d),
            no_closer(q, s2, d),
        ensures
            no_closer(q, s1 + s2, d),
    {
        assert forall|k: int| 0 <= k < (s1 + s2).len() implies d <= #[trigger] (s1 + s2)[k].dist(q) by {
            if k < s1.len() {
                assert((s1 + s2)[k] == s1[k]);
            } else {
                assert((s1 + s2)[k] == s2[k - s1.len()]);
            }
        }
    }

    /// Returns the point nearest to `query` among this subtree's points and
    /// `nearest_yet`, visiting children by increasing distance and skipping
    /// those whose cached bound shows they cannot hold a nearer point.
    pub fn find_nearest(&mut self, query: P, nearest_yet: Option<P>) -> (nearest: P)
        requires
            old(self).wf(),
        ensures
            final(self).wf(),
            final(self).contents() == old(self).contents(),
            final(self).spec_point() == old(self).spec_point(),
            old(self).contents().contains(nearest) || nearest_yet == Some(nearest),
            no_closer(query, old(self).pts(), nearest.dist(query) as int),
            nearest_yet matches Some(y) ==> nearest.dist(query) <= y.dist(query),
            // On a tie, the nearest point given is kept.
            nearest_yet matches Some(y) ==> (no_closer(query, old(self).pts(), y.dist(query) as int)
                ==> nearest == y),
            final(self).spec_level() == old(self).spec_level(),
            final(self).spec_children().len() == old(self).spec_children().len(),
            // The children are the old ones, reordered by distance to `query`.
            Self::child_points(final(self).spec_children()).to_multiset()
                =~= Self::child_points(old(self).spec_children()).to_multiset(),
            forall|a: int, b: int|
                0 <= a < b < final(self).spec_children().len() ==>
                    (#[trigger] final(self).spec_children()[a]).spec_point().dist(query)
                    <= (#[trigger] final(self).spec_children()[b]).spec_point().dist(query),
            forall|sf: u64| #[trigger] old(self).covers(sf) ==> final(self).covers(sf),
        decreases old(self).pts().len(),
    {
        let mut nearest: P = match nearest_yet {
            None => self.point,
            Some(y) => {
                if self.point.distance(query) < y.distance(query) {
                    self.point
                } else {
                    y
                }
            },
        };
        proof {
            old(self).lemma_pts_ms();
        }
        self.sort_children_by_distance(query);
        let ghost cs0 = self.children@;
        proof {
            assert forall|sf: u64| #[trigger] old(self).covers(sf) implies
                Self::all_covered(old(self).point, old(self).level, self.children@, sf) by {
                self.lemma_covers_children(sf);
            }
        }
        let ghost f_old = Self::forest(old(self).children@).to_multiset();
        proof {
            Self::lemma_forest_empty();
            assert(cs0.take(0) =~= Seq::<Cover<P>>::empty());
        }
        let mut i: usize = 0;
        while i < self.children.len()
            invariant
                self.children@.len() == cs0.len(),
                i <= cs0.len(),
                forall|t: int| i <= t < cs0.len() ==> self.children@[t] == cs0[t],
                forall|t: int| 0 <= t < cs0.len() ==> (#[trigger] self.children@[t]).wf(),
                Self::forest(self.children@).to_multiset() == f_old,
                old(self).pts().to_multiset() =~= f_old.insert(old(self).point),
                self.point == old(self).point,
                self.level == old(self).level,
                self.max_distance == old(self).max_distance,
                old(self).wf(),
                old(self).contents().contains(nearest) || nearest_yet == Some(nearest),
                nearest.dist(query) <= old(self).point.dist(query),
                nearest_yet matches Some(y) ==> nearest.dist(query) <= y.dist(query),
                no_closer(query, Self::forest(self.children@.take(i as int)), nearest.dist(query) as int),
                nearest_yet matches Some(y) ==> (no_closer(query, old(self).pts(), y.dist(query) as int)
                    ==> nearest == y),
                forall|t: int| 0 <= t < cs0.len() ==> (#[trigger] self.children@[t]).point == cs0[t].point,
                forall|a: int, b: int|
                    0 <= a < b < cs0.len() ==> (#[trigger] cs0[a]).point.dist(query) <= (#[trigger] cs0[b]).point.dist(query),
                forall|sf: u64| #[trigger] old(self).covers(sf) ==>
                    Self::all_covered(old(self).point, old(self).level, self.children@, sf),
            decreases cs0.len() - i,
        {
            let ghost cs = self.children@;
            let nd = nearest.distance(query);
            let qd = query.distance(self.children[i].point);
            let md = self.children[i].max_distance();
            let ghost cs1 = self.children@;
            proof {
                assert(cs1 =~= cs.update(i as int, cs1[i as int]));
                assert(cs1[i as int].pts() == cs[i as int].pts());
                Self::lemma_forest_update(cs, i as int, cs1[i as int]);
                Self::lemma_forest_split(cs, i as int);
                assert(Self::forest(cs1) == Self::forest(cs));
                assert(Self::forest(cs1).to_multiset() == f_old);
                assert(cs1.take(i as int) =~= cs.take(i as int));
                self.lemma_pts_ms();
                self.lemma_child_smaller(i as int);
                assert(self.pts().to_multiset().len() == old(self).pts().to_multiset().len());
                assert(self.pts().len() == old(self).pts().len());
                Self::lemma_forest_child_ms(cs1, i as int);
                assert(cs1.take(i + 1) =~= cs1.take(i as int).push(cs1[i as int]));
                Self::lemma_forest_push(cs1.take(i as int), cs1[i as int]);
            }
            if (nd as u128) + (md as u128) > (qd as u128) {
                let ghost prev = nearest;
                nearest = self.children[i].find_nearest(query, Some(nearest));
                proof {
                    let cs2 = self.children@;
                    let c2 = cs2[i as int];
                    assert(cs2 =~= cs1.update(i as int, c2));
                    Self::lemma_forest_update_ms(cs1, i as int, c2);
                    let m1 = Self::forest(cs1).to_multiset();
                    let m2 = Self::forest(cs2).to_multiset();
                    let mc = c2.pts().to_multiset();
                    assert(cs1[i as int].pts().to_multiset() == mc);
                    assert forall|x: P| m2.count(x) == m1.count(x) by {
                        assert(m2.add(mc).count(x) == m1.add(mc).count(x));
                    }
                    assert(m2 =~= m1);
                    assert(Self::forest(cs2).to_multiset() == f_old);
                    assert(cs2.take(i as int) =~= cs1.take(i as int));
                    assert(cs2.take(i + 1) =~= cs2.take(i as int).push(c2));
                    Self::lemma_forest_push(cs2.take(i as int), c2);
                    lemma_no_closer_sub(query, cs1[i as int].pts(), c2.pts(), nearest.dist(query) as int);
                    assert forall|k: int| 0 <= k < Self::forest(cs2.take(i as int)).len() implies
                        nearest.dist(query) <= #[trigger] Self::forest(cs2.take(i as int))[k].dist(query) by {
                        assert(prev.dist(query) <= Self::forest(cs1.take(i as int))[k].dist(query));
                    }
                    Self::lemma_no_closer_concat(query, Self::forest(cs2.take(i as int)), c2.pts(), nearest.dist(query) as int);
                    if !(nearest == prev) {
                        assert(cs1[i as int].pts().to_multiset().contains(nearest));
                        assert(f_old.contains(nearest));
                    }
                    if let Some(y) = nearest_yet {
                        if no_closer(query, old(self).pts(), y.dist(query) as int) {
                            assert(f_old.subset_of(old(self).pts().to_multiset()));
                            lemma_no_closer_sub(query, old(self).pts(), cs1[i as int].pts(), y.dist(query) as int);
                        }
                    }
                    assert forall|sf: u64| #[trigger] old(self).covers(sf) implies
                        Self::all_covered(old(self).point, old(self).level, cs2, sf) by {
                        assert forall|t: int| 0 <= t < cs2.len() implies {
                            &&& old(self).point.dist((#[trigger] cs2[t]).spec_point()) <= covdist(sf, old(self).level as nat)
                            &&& cs2[t].covers(sf)
                        } by {
                            assert(cs1[t].covers(sf));
                        }
                    }
                }
            } else {
                proof {
                    P::lemma_metric(query, cs1[i as int].point, query);
                    cs1[i as int].lemma_prune(query, nd as int, md as int);
                    Self::lemma_no_closer_concat(query, Self::forest(cs1.take(i as int)), cs1[i as int].pts(), nd as int);
                }
            }
            i += 1;
        }
        proof {
            let cs = self.children@;
            assert(cs.take(cs.len() as int) =~= cs);
            self.lemma_pts_ms();
            Self::lemma_no_closer_concat(query, seq![self.point], Self::forest(cs), nearest.dist(query) as int);
            lemma_no_closer_sub(query, self.pts(), old(self).pts(), nearest.dist(query) as int);
            if let Some(m) = self.max_distance {
                lemma_max_dist_ms(self.point, Self::forest(old(self).children@), Self::forest(cs));
            }
            assert forall|sf: u64| #[trigger] old(self).covers(sf) implies self.covers(sf) by {
                self.lemma_covers_children(sf);
                old(self).lemma_covers_children(sf);
                lemma_within_sub(self.point, Self::forest(old(self).children@), Self::forest(cs),
                    2 * covdist(sf, self.level as nat));
            }
            assert(Self::child_points(cs) =~= Self::child_points(cs0));
            assert forall|a: int, b: int| 0 <= a < b < cs.len() implies
                (#[trigger] cs[a]).spec_point().dist(query) <= (#[trigger] cs[b]).spec_point().dist(query) by {
                assert(cs0[a].point.dist(query) <= cs0[b].point.dist(query));
            }
        }
        nearest
    }
}

/// Swapping two neighbouring items keeps a sequence's items.
pub proof fn lemma_swap_ms<A>(s: Seq<A>, j: int)
    requires
        0 < j < s.len(),
    ensures
        s.update(j - 1, s[j]).update(j, s[j - 1]).to_multiset() =~= s.to_multiset(),
{
    let a = s[j - 1];
    let b = s[j];
    let s2 = s.update(j - 1, b).update(j, a);
    let pre = s.take(j - 1);
    let post = s.skip(j + 1);
    assert(s =~= pre + seq![a, b] + post);
    assert(s2 =~= pre + seq![b, a] + post);
    vstd::seq_lib::lemma_multiset_commutative(pre + seq![a, b], post);
    vstd::seq_lib::lemma_multiset_commutative(pre, seq![a, b]);
    vstd::seq_lib::lemma_multiset_commutative(pre + seq![b, a], post);
    vstd::seq_lib::lemma_multiset_commutative(pre, seq![b, a]);
    assert(seq![a, b] =~= seq![a].push(b));
    assert(seq![b, a] =~= seq![b].push(a));
    assert(seq![a] =~= Seq::<A>::empty().push(a));
    assert(seq![b] =~= Seq::<A>::empty().push(b));
}

/// `max_dist` is the distance to one of the points, or zero without points.
pub proof fn lemma_max_dist_attained<P: Point>(a: P, s: Seq<P>)
    ensures
        s.len() == 0 ==> max_dist(a, s) == 0,
        s.len() > 0 ==> exists|k: int| 0 <= k < s.len() && max_dist(a, s) == a.dist(#[trigger] s[k]),
    decreases s.len(),
{
    if s.len() > 0 {
        lemma_max_dist_attained(a, s.drop_last());
        if s.len() > 1 && max_dist(a, s.drop_last()) >= a.dist(s.last()) {
            let k = choose|k: int| 0 <= k < s.drop_last().len() && max_dist(a, s.drop_last()) == a.dist(#[trigger] s.drop_last()[k]);
            assert(s[k] == s.drop_last()[k]);
        } else {
            assert(s[s.len() - 1] == s.last());
            if s.len() == 1 {
                assert(max_dist(a, s.drop_last()) == 0);
            }
        }
    }
}

/// Sequences holding the same points have the same `max_dist`.
pub proof fn lemma_max_dist_ms<P: Point>(a: P, s1: Seq<P>, s2: Seq<P>)
    requires
        s1.to_multiset() == s2.to_multiset(),
    ensures
        max_dist(a, s1) == max_dist(a, s2),
{
    lemma_max_dist_attained(a, s1);
    lemma_max_dist_attained(a, s2);
    lemma_max_dist_bounds(a, s1);
    lemma_max_dist_bounds(a, s2);
    s1.to_multiset_ensures();
    s2.to_multiset_ensures();
    if s1.len() > 0 {
        let k1 = choose|k: int| 0 <= k < s1.len() && max_dist(a, s1) == a.dist(#[trigger] s1[k]);
        let k2 = choose|k: int| 0 <= k < s2.len() && max_dist(a, s2) == a.dist(#[trigger] s2[k]);
        lemma_within_member(a, s2, max_dist(a, s2) as int, s1[k1]);
        lemma_within_member(a, s1, max_dist(a, s1) as int, s2[k2]);
    }
}

/// A point counted in `s` is within the bound of `within`.
pub proof fn lemma_within_member<P: Point>(a: P, s: Seq<P>, m: int, x: P)
    requires
        within(a, s, m),
        s.to_multiset().count(x) > 0,
    ensures
        a.dist(x) <= m,
{
    assert(s.contains(x));
    let k = choose|k: int| 0 <= k < s.len() && s[k] == x;
    assert(a.dist(s[k]) <= m);
}

/// `within` of a sequence extended by one point that is itself within the bound.
pub proof fn lemma_within_push<P: Point>(a: P, s: Seq<P>, x: P, m: int, m2: int)
    requires
        within(a, s, m),
        m <= m2,
        a.dist(x) <= m2,
    ensures
        within(a, s.push(x), m2),
{
    assert forall|k: int| 0 <= k < s.push(x).len() implies #[trigger] a.dist(s.push(x)[k]) <= m2 by {
        if k < s.len() {
            assert(s.push(x)[k] == s[k]);
        }
    }
}

impl<P: Point> Cover<P> {
    /// Removing a subtree by `swap_remove` takes its points out of the forest.
    proof fn lemma_forest_swap_remove_ms(cs: Seq<Cover<P>>, i: int)
        requires
            0 <= i < cs.len(),
        ensures
            Self::forest(cs.update(i, cs.last()).drop_last()).to_multiset().add(cs[i].pts().to_multiset())
                =~= Self::forest(cs).to_multiset(),
    {
        let n = cs.len() - 1;
        let cs1 = cs.update(i, cs.last());
        let cs2 = cs1.drop_last();
        if i == n {
            assert(cs2 =~= cs.drop_last());
            vstd::seq_lib::lemma_multiset_commutative(Self::forest(cs.drop_last()), cs.last().pts());
        } else {
            Self::lemma_forest_update_ms(cs, i, cs.last());
            assert(cs1.last() == cs.last());
            vstd::seq_lib::lemma_multiset_commutative(Self::forest(cs2), cs.last().pts());
            let f = Self::forest(cs).to_multiset();
            let f1 = Self::forest(cs1).to_multiset();
            let f2 = Self::forest(cs2).to_multiset();
            let ml = cs.last().pts().to_multiset();
            let mi = cs[i].pts().to_multiset();
            assert forall|x: P| f2.add(mi).count(x) == f.count(x) by {
                assert(f1.add(mi).count(x) == f.add(ml).count(x));
                assert(f1.count(x) == f2.add(ml).count(x));
            }
        }
    }

    /// Replacing a subtree by one with the same points plus `x` adds `x` to the forest.
    proof fn lemma_forest_replace_ms(cs: Seq<Cover<P>>, i: int, c: Cover<P>, x: P)
        requires
            0 <= i < cs.len(),
            c.pts().to_multiset() =~= cs[i].pts().to_multiset().insert(x),
        ensures
            Self::forest(cs.update(i, c)).to_multiset() =~= Self::forest(cs).to_multiset().insert(x),
    {
        Self::lemma_forest_update_ms(cs, i, c);
        let f = Self::forest(cs).to_multiset();
        let f1 = Self::forest(cs.update(i, c)).to_multiset();
        let mi = cs[i].pts().to_multiset();
        assert forall|y: P| f1.count(y) == f.insert(x).count(y) by {
            assert(f1.add(mi).count(y) == f.add(mi.insert(x)).count(y));
        }
    }

    /// The cover distance of `c` reaches `x`.
    spec fn reaches(c: Cover<P>, x: P, span_factor: u64) -> bool {
        c.point.dist(x) <= covdist(span_factor, c.level as nat)
    }

    /// Inserts `point` into the subtree, whose cover distance reaches it: into
    /// the first child that covers it, or else as a new child.
    fn insert_(self, point: P, span_factor: u64) -> (c: Cover<P>)
        requires
            self.wf(),
            span_factor >= 2,
            self.point.dist(point) <= covdist(span_factor, self.level as nat),
        ensures
            c.wf(),
            c.contents() =~= self.contents().insert(point),
            c.point == self.point,
            c.max_distance == (match self.max_distance {
                Some(x) => Some(if x >= self.point.dist(point) { x } else { self.point.dist(point) }),
                None => None,
            }),
            // The point goes into the first child that covers it, ...
            (exists|j: int| 0 <= j < self.children@.len() && Self::reaches(#[trigger] self.children@[j], point, span_factor))
                ==> exists|i: int| {
                &&& 0 <= i < self.children@.len()
                &&& Self::reaches(#[trigger] self.children@[i], point, span_factor)
                &&& forall|j: int| 0 <= j < i ==> !Self::reaches(#[trigger] self.children@[j], point, span_factor)
                &&& c.level == self.level
                &&& c.children@.len() == self.children@.len()
                &&& forall|t: int| 0 <= t < c.children@.len() && t != i ==> #[trigger] c.children@[t] == self.children@[t]
                &&& c.children@[i].point == self.children@[i].point
                &&& c.children@[i].contents() =~= self.children@[i].contents().insert(point)
            },
            // ... or else becomes a new last child one level below this node,
            // which moves from level 1 to level 2 to make room.
            (forall|j: int| 0 <= j < self.children@.len() ==> !Self::reaches(#[trigger] self.children@[j], point, span_factor))
                ==> {
                &&& c.level == (if self.level == 1 { 2 } else { self.level })
                &&& c.children@.len() == self.children@.len() + 1
                &&& forall|t: int| 0 <= t < self.children@.len() ==> #[trigger] c.children@[t] == self.children@[t]
                &&& c.children@.last().point == point
                &&& c.children@.last().children@.len() == 0
                &&& c.children@.last().level == c.level - 1
                &&& c.children@.last().max_distance is None
            },
            self.covers(span_factor) ==> c.covers(span_factor),
        decreases self.pts().len(),
    {
        let ghost s0 = self;
        let mut this = self;
        // Verify that the Cover can be inserted here: the precondition gives
        // `dist <= covdist`.
        let dist = this.point.distance(point);
        // Cache the maximum distance for this Cover.
        this.max_distance = match this.max_distance {
            Some(x) => Some(if x >= dist { x } else { dist }),
            None => None,
        };
        let n = this.children.len();
        let mut i: usize = 0;
        while i < n && !(this.children[i].point.distance(point) <= this.children[i].cover_distance(span_factor))
            invariant
                i <= n,
                n == this.children@.len(),
                this.children@ == s0.children@,
                s0.wf(),
                span_factor >= 2,
                forall|t: int| 0 <= t < i ==> !Self::reaches(#[trigger] s0.children@[t], point, span_factor),
            decreases n - i,
        {
            i += 1;
        }
        proof {
            s0.lemma_pts_ms();
        }
        if i < n {
            // Gain ownership over the child and insert the point there.
            let mut child = Cover::new(point, 0);
            std::mem::swap(&mut child, &mut this.children[i]);
            proof {
                assert(child == s0.children@[i as int]);
                s0.lemma_child_smaller(i as int);
            }
            let mut child_new = child.insert_(point, span_factor);
            // Restore the child to where it was.
            std::mem::swap(&mut this.children[i], &mut child_new);
            proof {
                let cs = this.children@;
                assert(cs =~= s0.children@.update(i as int, cs[i as int]));
                Self::lemma_forest_replace_ms(s0.children@, i as int, cs[i as int], point);
                Self::lemma_forest_update(s0.children@, i as int, cs[i as int]);
                assert(Self::reaches(s0.children@[i as int], point, span_factor));
                if s0.covers(span_factor) {
                    s0.lemma_covers_children(span_factor);
                    assert(s0.children@[i as int].covers(span_factor));
                    assert forall|j: int| 0 <= j < cs.len() implies {
                        &&& this.point.dist((#[trigger] cs[j]).point) <= covdist(span_factor, this.level as nat)
                        &&& cs[j].covers(span_factor)
                    } by {
                        assert(s0.children@[j].spec_point() == s0.children@[j].point);
                    }
                }
            }
        } else {
            // No child covers the point: add it as a new child.
            if this.level == 1 {
                this.level += 1;
            }
            let new_cover = Cover::new(point, this.level - 1);
            this.add_child(new_cover);
            proof {
                assert(this.children@.last() == new_cover);
                crate::span::lemma_covdist_monotone(span_factor, 1);
                if s0.covers(span_factor) {
                    s0.lemma_covers_children(span_factor);
                    assert forall|j: int| 0 <= j < this.children@.len() implies {
                        &&& this.point.dist((#[trigger] this.children@[j]).point) <= covdist(span_factor, this.level as nat)
                        &&& this.children@[j].covers(span_factor)
                    } by {
                        if j < s0.children@.len() {
                            assert(this.children@[j] == s0.children@[j]);
                            assert(s0.children@[j].spec_point() == s0.children@[j].point);
                        } else {
                            assert(this.children@[j] == new_cover);
                            assert(new_cover.children@.len() == 0);
                        }
                    }
                }
                Self::lemma_forest_push(s0.children@, new_cover);
                vstd::seq_lib::lemma_multiset_commutative(Self::forest(s0.children@), seq![point]);
                assert(seq![point] =~= Seq::<P>::empty().push(point));
            }
        }
        proof {
            this.lemma_pts_ms();
            let f0 = Self::forest(s0.children@);
            let f1 = Self::forest(this.children@);
            assert(f1.to_multiset() =~= f0.to_multiset().insert(point));
            if let Some(m) = this.max_distance {
                let m0 = s0.max_distance->0;
                vstd::seq_lib::lemma_multiset_commutative(f0, seq![point]);
                assert(f0.push(point) =~= f0 + seq![point]);
                assert(seq![point] =~= Seq::<P>::empty().push(point));
                assert(f0.push(point).drop_last() =~= f0);
                lemma_max_dist_ms(this.point, f0.push(point), f1);
            }
            assert forall|j: int| 0 <= j < this.children@.len() implies (#[trigger] this.children@[j]).wf() by {
                if j < s0.children@.len() && j != i {
                    assert(this.children@[j] == s0.children@[j]);
                }
            }
            if s0.covers(span_factor) {
                s0.lemma_covers_children(span_factor);
                crate::span::lemma_covdist_monotone(span_factor, 1);
                let c0 = 2 * covdist(span_factor, s0.level as nat);
                let c1 = 2 * covdist(span_factor, this.level as nat);
                lemma_within_push(this.point, f0, point, c0, c1);
                vstd::seq_lib::lemma_multiset_commutative(f0, seq![point]);
                assert(f0.push(point) =~= f0 + seq![point]);
                assert(seq![point] =~= Seq::<P>::empty().push(point));
                lemma_within_sub(this.point, f0.push(point), f1, c1);
            }
        }
        this
    }
}

impl<P: Point> Cover<P> {
    /// Removing a point from a subtree removes it from the forest.
    proof fn lemma_forest_shrink_ms(cs: Seq<Cover<P>>, i: int, c: Cover<P>, x: P)
        requires
            0 <= i < cs.len(),
            cs[i].pts().to_multiset() =~= c.pts().to_multiset().insert(x),
        ensures
            Self::forest(cs.update(i, c)).to_multiset().insert(x) =~= Self::forest(cs).to_multiset(),
    {
        Self::lemma_forest_update_ms(cs, i, c);
        let f = Self::forest(cs).to_multiset();
        let f1 = Self::forest(cs.update(i, c)).to_multiset();
        let mc = c.pts().to_multiset();
        assert forall|y: P| f1.insert(x).count(y) == f.count(y) by {
            assert(f1.add(mc.insert(x)).count(y) == f.add(mc).count(y));
        }
    }

    /// Removes a leaf from below this node and returns it: the first child
    /// that is a leaf, or else a leaf from below the first child. The cached
    /// distance of each node it is taken from is cleared. Returns `None`,
    /// changing nothing, when the node has no children.
    fn remove_leaf(&mut self) -> (leaf: Option<Cover<P>>)
        requires
            old(self).wf(),
        ensures
            final(self).wf(),
            final(self).point == old(self).point,
            final(self).level == old(self).level,
            final(self).max_distance == (if leaf is None { old(self).max_distance } else { None }),
            forall|sf: u64| #[trigger] old(self).covers(sf) ==> final(self).covers(sf),
            leaf is None <==> old(self).children@.len() == 0,
            leaf is None ==> final(self).children@ == old(self).children@,
            leaf matches Some(l) ==> {
                &&& l.wf()
                &&& l.is_leaf()
                &&& old(self).descendant_nodes().contains(l)
                &&& final(self).contents().insert(l.point) =~= old(self).contents()
                &&& forall|sf: u64| #[trigger] old(self).covers(sf)
                    ==> old(self).point.dist(l.point) <= 2 * covdist(sf, old(self).level as nat)
            },
            // A leaf child goes first, ...
            (exists|j: int| 0 <= j < old(self).children@.len() && (#[trigger] old(self).children@[j]).is_leaf())
                ==> exists|i: int| {
                &&& 0 <= i < old(self).children@.len()
                &&& leaf == Some(#[trigger] old(self).children@[i])
                &&& (forall|j: int| 0 <= j < i ==> !(#[trigger] old(self).children@[j]).is_leaf())
                &&& final(self).children@ == old(self).children@.update(i, old(self).children@.last()).drop_last()
            },
            // ... else the leaf comes from below the first child.
            (old(self).children@.len() > 0
                && forall|j: int| 0 <= j < old(self).children@.len() ==> !(#[trigger] old(self).children@[j]).is_leaf())
                ==> {
                &&& final(self).children@.len() == old(self).children@.len()
                &&& final(self).children@ == old(self).children@.update(0, final(self).children@[0])
                &&& old(self).children@[0].descendant_nodes().contains(leaf->0)
            },
        decreases old(self).pts().len(),
    {
        let ghost cs = self.children@;
        proof {
            old(self).lemma_pts_ms();
        }
        // Find index of leaf.
        let n = self.children.len();
        let mut i: usize = 0;
        while i < n && self.children[i].children.len() != 0
            invariant
                i <= n,
                n == self.children@.len(),
                self.children@ == cs,
                forall|t: int| 0 <= t < i ==> !(#[trigger] cs[t]).is_leaf(),
            decreases n - i,
        {
            i += 1;
        }
        if n == 0 {
            return None;
        }
        if i < n {
            let leaf = self.children.swap_remove(i);
            // The points below changed: forget the cached distance.
            self.max_distance = None;
            proof {
                assert(self.children@ =~= cs.update(i as int, cs.last()).drop_last());
                Self::lemma_forest_swap_remove_ms(cs, i as int);
                leaf.lemma_pts_ms();
                Self::lemma_forest_empty();
                assert(leaf.children@ =~= Seq::<Cover<P>>::empty());
                assert forall|j: int| 0 <= j < self.children@.len() implies (#[trigger] self.children@[j]).wf()
                    && (forall|sf: u64| #[trigger] old(self).covers(sf) ==> self.children@[j].covers(sf)
                        && self.point.dist(self.children@[j].point) <= covdist(sf, self.level as nat)) by {
                    let k = if j == i { cs.len() - 1 } else { j };
                    assert(self.children@[j] == cs[k]);
                    assert forall|sf: u64| #[trigger] old(self).covers(sf) implies self.children@[j].covers(sf)
                        && self.point.dist(self.children@[j].point) <= covdist(sf, self.level as nat) by {
                        assert(cs[k] == old(self).children@[k]);
                    }
                }
                assert(old(self).children@[i as int] == leaf);
                Self::lemma_forest_nodes_member(cs, i as int);
                assert(leaf.nodes()[0] == leaf);
            }
            proof {
                self.lemma_pts_ms();
                let f0 = Self::forest(cs);
                let f1 = Self::forest(self.children@);
                assert(f1.to_multiset().subset_of(f0.to_multiset())) by {
                    assert forall|y: P| f1.to_multiset().count(y) <= f0.to_multiset().count(y) by {
                        assert(f1.to_multiset().add(leaf.pts().to_multiset()).count(y) == f0.to_multiset().count(y));
                    }
                }

                assert(f0.to_multiset().count(leaf.point) > 0) by {
                    assert(f1.to_multiset().add(leaf.pts().to_multiset()).count(leaf.point) == f0.to_multiset().count(leaf.point));
                }
                assert forall|sf: u64| #[trigger] old(self).covers(sf) implies self.covers(sf)
                    && old(self).point.dist(leaf.point) <= 2 * covdist(sf, old(self).level as nat) by {
                    old(self).lemma_covers_children(sf);
                    lemma_within_sub(self.point, f0, f1, 2 * covdist(sf, self.level as nat));
                    lemma_within_member(self.point, f0, 2 * covdist(sf, self.level as nat), leaf.point);
                }
            }
            Some(leaf)
        } else {
            // There are no leaves at this level, so recurse into the first child.
            proof {
                old(self).lemma_child_smaller(0);
            }
            let leaf = self.children[0].remove_leaf();
            // The points below changed: forget the cached distance.
            self.max_distance = None;
            proof {
                let l = leaf->0;
                let c = self.children@[0];
                assert(self.children@ =~= cs.update(0, c));
                c.lemma_pts_ms();
                cs[0].lemma_pts_ms();
                Self::lemma_forest_shrink_ms(cs, 0, c, l.point);
                self.lemma_pts_ms();
                let f0 = Self::forest(cs);
                let f1 = Self::forest(self.children@);
                assert(f1.to_multiset().subset_of(f0.to_multiset())) by {
                    assert forall|y: P| f1.to_multiset().count(y) <= f0.to_multiset().count(y) by {
                        assert(f1.to_multiset().insert(l.point).count(y) == f0.to_multiset().count(y));
                    }
                }
                assert(f0.to_multiset().count(l.point) > 0) by {
                    assert(f1.to_multiset().insert(l.point).count(l.point) == f0.to_multiset().count(l.point));
                }

                assert forall|j: int| 0 <= j < self.children@.len() implies (#[trigger] self.children@[j]).wf() by {
                    if j != 0 {
                        assert(self.children@[j] == cs[j]);
                    }
                }
                assert forall|sf: u64| #[trigger] old(self).covers(sf) implies self.covers(sf)
                    && old(self).point.dist(l.point) <= 2 * covdist(sf, old(self).level as nat) by {
                    old(self).lemma_covers_children(sf);
                    lemma_within_sub(self.point, f0, f1, 2 * covdist(sf, self.level as nat));
                    lemma_within_member(self.point, f0, 2 * covdist(sf, self.level as nat), l.point);
                    assert(cs[0].covers(sf));
                    assert forall|j: int| 0 <= j < self.children@.len() implies {
                        &&& self.point.dist((#[trigger] self.children@[j]).point) <= covdist(sf, self.level as nat)
                        &&& self.children@[j].covers(sf)
                    } by {
                        if j != 0 {
                            assert(self.children@[j] == cs[j]);
                        }
                        assert(cs[j].spec_point() == cs[j].point);
                    }
                }
                // The leaf lies below the first child, hence below this node.
                assert(cs[0].nodes() == seq![cs[0]] + cs[0].descendant_nodes());
                let k = choose|k: int| 0 <= k < cs[0].descendant_nodes().len() && cs[0].descendant_nodes()[k] == l;
                assert(cs[0].nodes()[k + 1] == l);
                Self::lemma_forest_nodes_split(cs, 0);
                assert(Self::forest_nodes(cs)[Self::forest_nodes(cs.take(0)).len() + k + 1] == l);
            }
            leaf
        }
    }

    /// Makes a leaf from below this node the new root, with the rest of the
    /// tree as its only child, one level up. A node without children only
    /// moves one level up.
    fn promote_leaf(&mut self)
        requires
            old(self).wf(),
            old(self).level < MAX_LEVEL,
        ensures
            final(self).wf(),
            final(self).contents() =~= old(self).contents(),
            final(self).level == old(self).level + 1,
            forall|sf: u64| sf >= 2 && #[trigger] old(self).covers(sf) ==> final(self).covers(sf),
            old(self).children@.len() == 0 ==> {
                &&& final(self).point == old(self).point
                &&& final(self).children@.len() == 0
                &&& final(self).max_distance == old(self).max_distance
            },
            old(self).children@.len() > 0 ==> {
                &&& final(self).children@.len() == 1
                &&& final(self).children@[0].point == old(self).point
                &&& final(self).children@[0].level == old(self).level
                &&& final(self).children@[0].contents().insert(final(self).point) =~= old(self).contents()
                &&& final(self).max_distance is None
                &&& exists|l: Cover<P>| #[trigger] old(self).descendant_nodes().contains(l) && l.is_leaf()
                    && l.point == final(self).point
            },
    {
        if self.children.len() == 0 {
            self.level += 1;
            proof {
                assert(self.pts() == old(self).pts());
                assert forall|sf: u64| sf >= 2 && #[trigger] old(self).covers(sf) implies self.covers(sf) by {
                    Self::lemma_forest_empty();
                    assert(self.children@ =~= Seq::<Cover<P>>::empty());
                }
            }
        } else if let Some(leaf) = self.remove_leaf() {
            let ghost rest = *self;
            let mut old_root = leaf;
            std::mem::swap(self, &mut old_root);
            self.level = old_root.level + 1;
            // The leaf's cached bound knew no children.
            self.max_distance = None;
            self.add_child(old_root);
            proof {
                leaf.lemma_pts_ms();
                self.lemma_pts_ms();
                Self::lemma_forest_empty();
                assert(leaf.children@ =~= Seq::<Cover<P>>::empty());
                assert(self.children@ =~= seq![rest]);
                Self::lemma_forest_single(rest);
                assert forall|j: int| 0 <= j < self.children@.len() implies (#[trigger] self.children@[j]).wf() by {
                    assert(self.children@[j] == rest);
                }
                assert(self.children@[0] == rest);
                assert forall|sf: u64| sf >= 2 && #[trigger] old(self).covers(sf) implies self.covers(sf) by {
                    assert(rest.covers(sf));
                    P::lemma_metric(leaf.point, old(self).point, leaf.point);
                    Self::lemma_new_root_covers(leaf.point, rest, sf);
                    assert forall|j: int| 0 <= j < self.children@.len() implies {
                        &&& self.point.dist((#[trigger] self.children@[j]).point) <= covdist(sf, self.level as nat)
                        &&& self.children@[j].covers(sf)
                    } by {
                        assert(self.children@[j] == rest);
                    }
                }
                assert(old(self).descendant_nodes().contains(leaf));
            }
        }
    }
}

impl<P: Point> Cover<P> {
    /// Inserts `point` into the tree rooted at this node and returns the new
    /// root. When the point lies beyond this node's cover distance, leaves are
    /// promoted until it lies within twice that distance, and the point
    /// becomes the new root with the old tree as its only child.
    fn insert(self, point: P, span_factor: u64) -> (c: Cover<P>)
        requires
            self.wf(),
            span_factor >= 2,
        ensures
            c.wf(),
            c.contents() =~= self.contents().insert(point),
            self.covers(span_factor) ==> c.covers(span_factor),
            // A point beyond the cover distance becomes the new root, with the
            // rest of the tree as its only child one level below. Leaves are
            // promoted until the point lies within twice the cover distance:
            // the roots met on the way, one level apart, all lie beyond it.
            self.point.dist(point) > covdist(span_factor, self.level as nat) ==> {
                &&& c.point == point
                &&& c.max_distance is None
                &&& c.children@.len() == 1
                &&& c.level == c.children@[0].level + 1
                &&& c.children@[0].level >= self.level
                &&& c.children@[0].point.dist(point) <= 2 * covdist(span_factor, c.children@[0].level as nat)
                &&& c.children@[0].contents() =~= self.contents()
                &&& c.children@[0].level == self.level ==> c.children@[0].max_distance == self.max_distance
                &&& self.children@.len() == 0 ==> c.children@[0].max_distance == self.max_distance
                    && c.children@[0].point == self.point
                &&& self.children@.len() > 0 && c.children@[0].level > self.level ==> c.children@[0].max_distance is None
                &&& exists|roots: Seq<P>| {
                    &&& roots.len() == c.children@[0].level - self.level + 1
                    &&& roots[0] == self.point
                    &&& roots.last() == c.children@[0].point
                    &&& forall|j: int| 0 <= j < roots.len() - 1 ==>
                        #[trigger] roots[j].dist(point) > 2 * covdist(span_factor, (self.level + j) as nat)
                }
            },
            // A point within the cover distance goes below the root.
            self.point.dist(point) <= covdist(span_factor, self.level as nat) ==> c.point == self.point,
    {
        let ghost s0 = self;
        let mut this = self;
        let dist = this.point.distance(point);
        if dist > this.cover_distance(span_factor) {
            proof {
                crate::span::lemma_pow2_63_64();
                crate::span::lemma_level_below(span_factor, this.level as nat, 64, u64::MAX as int);
            }
            let ghost mut roots: Seq<P> = seq![this.point];
            while (this.point.distance(point) as u128) > 2 * (this.cover_distance(span_factor) as u128)
                invariant
                    this.wf(),
                    this.contents() =~= s0.contents(),
                    this.level < MAX_LEVEL,
                    this.level >= s0.level,
                    span_factor >= 2,
                    s0.covers(span_factor) ==> this.covers(span_factor),
                    this.level == s0.level ==> this.max_distance == s0.max_distance,
                    s0.children@.len() == 0 ==> this.max_distance == s0.max_distance && this.point == s0.point
                        && this.children@.len() == 0,
                    s0.children@.len() > 0 && this.level > s0.level ==> this.max_distance is None,
                    s0.children@.len() > 0 ==> this.children@.len() > 0,
                    roots.len() == this.level - s0.level + 1,
                    roots[0] == s0.point,
                    roots.last() == this.point,
                    forall|j: int| 0 <= j < roots.len() - 1 ==>
                        #[trigger] roots[j].dist(point) > 2 * covdist(span_factor, (s0.level + j) as nat),
                decreases MAX_LEVEL - this.level,
            {
                proof {
                    crate::span::lemma_pow2_63_64();
                    crate::span::lemma_level_below(
                        span_factor,
                        this.level as nat,
                        63,
                        0x8000_0000_0000_0000int,
                    );
                }
                let ghost before = roots;
                this.promote_leaf();
                proof {
                    roots = before.push(this.point);
                    assert forall|j: int| 0 <= j < roots.len() - 1 implies
                        #[trigger] roots[j].dist(point) > 2 * covdist(span_factor, (s0.level + j) as nat) by {
                        assert(roots[j] == before[j]);
                    }
                }
            }
            let mut root = Cover::new(point, this.level + 1);
            root.add_child(this);
            proof {
                root.lemma_pts_ms();
                this.lemma_pts_ms();
                assert(root.children@ =~= seq![this]);
                Self::lemma_forest_single(this);
                assert forall|j: int| 0 <= j < root.children@.len() implies (#[trigger] root.children@[j]).wf() by {
                    assert(root.children@[j] == this);
                }
                assert(root.children@[0] == this);
                if s0.covers(span_factor) {
                    Self::lemma_new_root_covers(point, this, span_factor);
                    assert forall|j: int| 0 <= j < root.children@.len() implies {
                        &&& root.point.dist((#[trigger] root.children@[j]).point) <= covdist(span_factor, root.level as nat)
                        &&& root.children@[j].covers(span_factor)
                    } by {
                        assert(root.children@[j] == this);
                    }
                }
            }
            return root;
        }
        this.insert_(point, span_factor)
    }
}

impl<P: Point> Cover<P> {
    /// A point of a forest is a point of one of its subtrees.
    proof fn lemma_forest_member(cs: Seq<Cover<P>>, x: P)
        requires
            Self::forest(cs).to_multiset().count(x) > 0,
        ensures
            exists|t: int| 0 <= t < cs.len() && (#[trigger] cs[t]).pts().to_multiset().count(x) > 0,
        decreases cs.len(),
    {
        if cs.len() == 0 {
            Self::lemma_forest_empty();
            assert(cs =~= Seq::<Cover<P>>::empty());
        } else {
            let n = cs.len() - 1;
            vstd::seq_lib::lemma_multiset_commutative(Self::forest(cs.drop_last()), cs.last().pts());
            if Self::forest(cs.drop_last()).to_multiset().count(x) > 0 {
                Self::lemma_forest_member(cs.drop_last(), x);
                let t = choose|t: int| 0 <= t < cs.drop_last().len() && (#[trigger] cs.drop_last()[t]).pts().to_multiset().count(x) > 0;
                assert(cs[t] == cs.drop_last()[t]);
            } else {
                assert(cs[n] == cs.last());
            }
        }
    }

    /// Removes one occurrence of `query` from below this node; the children of
    /// the removed node move up to this node. Returns the removed point, or
    /// `None` when no point below this node equals `query`.
    pub fn remove(&mut self, query: P) -> (removed: Option<P>)
        requires
            old(self).wf(),
        ensures
            final(self).wf(),
            final(self).spec_point() == old(self).spec_point(),
            old(self).descendant_pts().contains(query) ==> removed == Some(query)
                && final(self).contents() =~= old(self).contents().remove(query),
            !old(self).descendant_pts().contains(query) ==> removed is None
                && final(self).contents() =~= old(self).contents(),
            final(self).spec_level() == old(self).spec_level(),
            final(self).spec_max_distance() == (if removed is Some { None } else { old(self).spec_max_distance() }),
            old(self).is_leaf() ==> final(self).is_leaf(),
        decreases old(self).pts().len(),
    {
        let mut removed: Option<P> = None;
        let mut was_last = false;
        proof {
            old(self).lemma_pts_ms();
        }
        // Sort children by distance to query point.
        self.sort_children_by_distance(query);
        let ghost cs = self.children@;
        let ghost f0 = Self::forest(cs).to_multiset();
        let n = self.children.len();
        let mut i: usize = 0;
        while i < n && !self.children[i].point.same_as(&query)
            invariant
                i <= n,
                n == self.children@.len(),
                self.children@ == cs,
                forall|t: int| 0 <= t < i ==> (#[trigger] cs[t]).point != query,
            decreases n - i,
        {
            i += 1;
        }
        if i < n {
            // Remove the node; its children stay in the tree, under this node.
            let node = self.children.swap_remove(i);
            let ghost rest = self.children@;
            let Cover { point: removed_point, children: mut orphans, .. } = node;
            let ghost orphan_seq = orphans@;
            self.children.append(&mut orphans);
            removed = Some(removed_point);
            if self.children.len() == 0 {
                was_last = true;
            }
            proof {
                assert(rest =~= cs.update(i as int, cs.last()).drop_last());
                Self::lemma_forest_swap_remove_ms(cs, i as int);
                node.lemma_pts_ms();
                assert(self.children@ =~= rest + orphan_seq);
                Self::lemma_forest_concat(rest, orphan_seq);
                vstd::seq_lib::lemma_multiset_commutative(Self::forest(rest), Self::forest(orphan_seq));
                let f1 = Self::forest(self.children@).to_multiset();
                assert(f1.insert(query) =~= f0);
                assert(f0.count(query) > 0);
                assert forall|j: int| 0 <= j < self.children@.len() implies (#[trigger] self.children@[j]).wf() by {
                    if j < rest.len() {
                        assert(self.children@[j] == rest[j]);
                        if j == i {
                            assert(rest[j] == cs.last());
                        } else {
                            assert(rest[j] == cs[j]);
                        }
                    } else {
                        assert(self.children@[j] == orphan_seq[j - rest.len()]);
                        assert(node == cs[i as int]);
                        assert(node.wf());
                        assert(node.children@[j - rest.len()].wf());
                    }
                }
            }
        } else {
            proof {
                assert forall|t: int| 0 <= t < n implies (#[trigger] cs[t]).point != query by {}
            }
            let mut j: usize = 0;
            while j < n && removed.is_none()
                invariant
                    j <= n,
                    n == self.children@.len(),
                    forall|t: int| 0 <= t < n ==> (#[trigger] self.children@[t]).wf(),
                    forall|t: int| 0 <= t < n ==> (#[trigger] self.children@[t]).point != query,
                    removed is None ==> Self::forest(self.children@).to_multiset() == f0,
                    f0 == Self::forest(old(self).children@).to_multiset(),
                    self.point == old(self).point,
                    self.level == old(self).level,
                    self.max_distance == old(self).max_distance,
                    old(self).pts().to_multiset() =~= Self::forest(old(self).children@).to_multiset().insert(old(self).point),
                    removed is None ==> forall|t: int| 0 <= t < j ==> !(#[trigger] self.children@[t]).pts().to_multiset().contains(query),
                    removed is Some ==> removed == Some(query) && f0.contains(query)
                        && Self::forest(self.children@).to_multiset() =~= f0.remove(query),
                decreases n - j,
            {
                let ghost cs1 = self.children@;
                proof {
                    self.lemma_child_smaller(j as int);
                    self.lemma_pts_ms();
                    assert(self.pts().to_multiset().len() == old(self).pts().to_multiset().len());
                }
                removed = self.children[j].remove(query);
                proof {
                    let c0 = cs1[j as int];
                    let c1 = self.children@[j as int];
                    assert(self.children@ =~= cs1.update(j as int, c1));
                    c0.lemma_pts_ms();
                    c1.lemma_pts_ms();
                    assert(c0.descendant_pts().to_multiset() == Self::forest(c0.children@).to_multiset());
                    if removed is Some {
                        assert(c0.descendant_pts().contains(query));
                        assert(c0.pts().to_multiset() =~= c1.pts().to_multiset().insert(query));
                        Self::lemma_forest_shrink_ms(cs1, j as int, c1, query);
                    } else {
                        Self::lemma_forest_update(cs1, j as int, c1);
                        Self::lemma_forest_split(cs1, j as int);
                        assert(c1.pts().to_multiset() == c0.pts().to_multiset());
                        vstd::seq_lib::lemma_multiset_commutative(
                            Self::forest(cs1.take(j as int)) + c0.pts(), Self::forest(cs1.skip(j + 1)));
                        vstd::seq_lib::lemma_multiset_commutative(Self::forest(cs1.take(j as int)), c0.pts());
                        vstd::seq_lib::lemma_multiset_commutative(
                            Self::forest(cs1.take(j as int)) + c1.pts(), Self::forest(cs1.skip(j + 1)));
                        vstd::seq_lib::lemma_multiset_commutative(Self::forest(cs1.take(j as int)), c1.pts());
                        assert(!c0.descendant_pts().contains(query));
                        assert(c0.descendant_pts().to_multiset().count(query) == 0);
                    }
                    assert forall|t: int| 0 <= t < n implies (#[trigger] self.children@[t]).wf() by {
                        if t != j {
                            assert(self.children@[t] == cs1[t]);
                        }
                    }
                }
                j += 1;
            }
            proof {
                if removed is None {
                    if f0.count(query) > 0 {
                        Self::lemma_forest_member(self.children@, query);
                        let t = choose|t: int| 0 <= t < self.children@.len()
                            && (#[trigger] self.children@[t]).pts().to_multiset().count(query) > 0;
                        assert(!self.children@[t].pts().to_multiset().contains(query));
                    }
                }
            }
        }
        if was_last {
            // Erase empty Vec.
            self.children = Vec::new();
            proof {
                assert(self.children@ =~= Seq::<Cover<P>>::empty());
            }
        }
        if removed.is_some() {
            // Clear cache.
            self.max_distance = None;
        }
        proof {
            self.lemma_pts_ms();
            old(self).lemma_pts_ms();
            assert(old(self).descendant_pts().to_multiset() == f0);
            assert(old(self).descendant_pts().contains(query) <==> f0.count(query) > 0);
            let f1 = Self::forest(self.children@);
            if removed is None {
                if let Some(m) = self.max_distance {
                    lemma_max_dist_ms(self.point, Self::forest(old(self).children@), f1);
                }
            }
        }
        removed
    }
}

impl<P: Point> Cover<P> {
    /// Takes this node's own point out of its tree: the last child becomes the
    /// root and the other children become its children. Returns `None` when
    /// the node has no children.
    fn remove_root(self) -> (rest: Option<Cover<P>>)
        requires
            self.wf(),
        ensures
            rest is None <==> self.is_leaf(),
            rest matches Some(r) ==> r.wf() && r.contents().insert(self.point) =~= self.contents(),
    {
        let ghost s0 = self;
        let Cover { point: _, children: mut children, level, .. } = self;
        match children.pop() {
            None => None,
            Some(mut root) => {
                let ghost r0 = root;
                let ghost others = children@;
                root.children.append(&mut children);
                root.max_distance = None;
                if root.level < level {
                    root.level = level;
                }
                proof {
                    assert(s0.children@ =~= others.push(r0));
                    assert(r0.wf());
                    Self::lemma_forest_push(others, r0);
                    Self::lemma_forest_concat(r0.children@, others);
                    s0.lemma_pts_ms();
                    r0.lemma_pts_ms();
                    root.lemma_pts_ms();
                    vstd::seq_lib::lemma_multiset_commutative(Self::forest(others), r0.pts());
                    vstd::seq_lib::lemma_multiset_commutative(Self::forest(r0.children@), Self::forest(others));
                    assert forall|j: int| 0 <= j < root.children@.len() implies (#[trigger] root.children@[j]).wf() by {
                        if j < r0.children@.len() {
                            assert(root.children@[j] == r0.children@[j]);
                        } else {
                            assert(root.children@[j] == others[j - r0.children@.len()]);
                            assert(s0.children@[j - r0.children@.len()].wf());
                        }
                    }
                }
                Some(root)
            },
        }
    }
}

/// `p` is a point of `m` and no point of `m` is closer to `q`.
pub open spec fn is_nearest<P: Point>(m: Multiset<P>, q: P, p: P) -> bool {
    &&& m.contains(p)
    &&& forall|x: P| m.contains(x) ==> p.dist(q) <= #[trigger] x.dist(q)
}

/// A cover tree containing [`Point`]s of type P.
#[derive(Debug)]
pub struct CoverTree<P: Point> {
    /// The root of the tree.
    root: Option<Cover<P>>,
    /// The span factor for each Cover.
    span_factor: u64,
    /// The number of items in the tree.
    len: usize,
}

impl<P: Point> View for CoverTree<P> {
    type V = Multiset<P>;

    /// The points in the tree, with multiplicity.
    closed spec fn view(&self) -> Multiset<P> {
        match self.root {
            Some(c) => c.contents(),
            None => Multiset::empty(),
        }
    }
}

impl<P: Point> CoverTree<P> {
    /// The tree is well formed: its nodes are well formed and its length
    /// counts its points.
    pub closed spec fn wf(self) -> bool {
        &&& (self.root matches Some(c) ==> c.wf())
        &&& self.len == self@.len()
    }

    /// The covering condition holds throughout the tree: each child lies
    /// within its parent's cover distance, and each point below a node within
    /// twice that distance. Insertion keeps it; a removal may move children up
    /// to a parent whose cover distance does not reach them.
    pub closed spec fn covers(self) -> bool {
        self.root matches Some(c) ==> c.covers(self.span_factor)
    }

    /// The span factor of the tree.
    pub closed spec fn spec_span_factor(self) -> u64 {
        self.span_factor
    }

    /// Constructs an empty `CoverTree`.
    pub fn new() -> (tree: CoverTree<P>)
        ensures
            tree.wf(),
            tree.covers(),
            tree@ =~= Multiset::<P>::empty(),
            tree.spec_span_factor() == DEFAULT_SPAN_FACTOR,
    {
        Self::default()
    }

    /// Constructs an empty `CoverTree` with the specified span factor. Below
    /// two, the tree takes a single point: inserting into a tree that holds
    /// points may then not terminate.
    pub fn with_span_factor(span_factor: u64) -> (tree: Self)
        ensures
            tree.wf(),
            tree.covers(),
            tree@ =~= Multiset::<P>::empty(),
            tree.spec_span_factor() == span_factor,
    {
        CoverTree { root: None, span_factor: span_factor, len: 0 }
    }

    /// Constructs a `CoverTree` containing all of the [`Point`]s given.
    pub fn from_items(points: Vec<P>) -> (tree: Self)
        ensures
            tree.wf(),
            tree.covers(),
            tree@ =~= points@.to_multiset(),
            tree.spec_span_factor() == DEFAULT_SPAN_FACTOR,
    {
        let mut tree = CoverTree::new();
        proof {
            assert(points.len() <= usize::MAX);
        }
        tree.insert_all(points);
        proof {
            assert(Multiset::<P>::empty().add(points@.to_multiset()) =~= points@.to_multiset());
        }
        tree
    }

    /// Returns the point nearest to the given [`Point`] in the `CoverTree`,
    /// or `None` when the tree is empty.
    pub fn find_nearest(&mut self, query_point: P) -> (nearest: Option<P>)
        requires
            old(self).wf(),
        ensures
            final(self).wf(),
            final(self)@ == old(self)@,
            final(self).spec_span_factor() == old(self).spec_span_factor(),
            old(self).covers() ==> final(self).covers(),
            nearest is None <==> old(self)@.len() == 0,
            nearest matches Some(p) ==> is_nearest(old(self)@, query_point, p),
    {
        match self.root.take() {
            Some(mut cover) => {
                let nearest = cover.find_nearest(query_point, None);
                proof {
                    let s = old(self).root->0.pts();
                    assert forall|x: P| old(self)@.contains(x) implies nearest.dist(query_point) <= #[trigger] x.dist(query_point) by {
                        assert(s.contains(x));
                        let k = choose|k: int| 0 <= k < s.len() && s[k] == x;
                        assert(nearest.dist(query_point) <= s[k].dist(query_point));
                    }
                }
                self.root = Some(cover);
                Some(nearest)
            },
            None => None,
        }
    }

    /// Returns the number of [`Point`]s in the `CoverTree`.
    pub fn len(&self) -> (n: usize)
        requires
            self.wf(),
        ensures
            n == self@.len(),
    {
        self.len
    }

    /// Returns the span factor of the `CoverTree`.
    pub fn span_factor(&self) -> (f: u64)
        ensures
            f == self.spec_span_factor(),
    {
        self.span_factor
    }

    /// Returns `true` if the `CoverTree` is empty.
    pub fn is_empty(&self) -> (b: bool)
        requires
            self.wf(),
        ensures
            b == (self@.len() == 0),
    {
        self.len == 0
    }

    /// Inserts the given [`Point`] into the `CoverTree`.
    pub fn insert(&mut self, point: P)
        requires
            old(self).wf(),
            old(self)@.len() < usize::MAX,
            old(self).spec_span_factor() >= 2 || old(self)@.len() == 0,
        ensures
            final(self).wf(),
            old(self).covers() ==> final(self).covers(),
            final(self)@ =~= old(self)@.insert(point),
            final(self).spec_span_factor() == old(self).spec_span_factor(),
    {
        let new_cover = Cover::new(point, 1);
        match self.root.take() {
            Some(cover) => {
                self.root = Some(cover.insert(point, self.span_factor));
            },
            None => {
                self.root = Some(new_cover);
            },
        }
        self.len += 1;
    }

    /// Inserts each of the given [`Point`]s into the `CoverTree`.
    pub fn insert_all(&mut self, points: Vec<P>)
        requires
            old(self).wf(),
            old(self)@.len() + points@.len() <= usize::MAX,
            old(self).spec_span_factor() >= 2 || old(self)@.len() + points@.len() <= 1,
        ensures
            final(self).wf(),
            old(self).covers() ==> final(self).covers(),
            final(self)@ =~= old(self)@.add(points@.to_multiset()),
            final(self).spec_span_factor() == old(self).spec_span_factor(),
    {
        let mut i: usize = 0;
        while i < points.len()
            invariant
                i <= points@.len(),
                self.wf(),
                self@ =~= old(self)@.add(points@.take(i as int).to_multiset()),
                self.spec_span_factor() == old(self).spec_span_factor(),
                old(self)@.len() + points@.len() <= usize::MAX,
                old(self).spec_span_factor() >= 2 || old(self)@.len() + points@.len() <= 1,
                old(self).covers() ==> self.covers(),
            decreases points@.len() - i,
        {
            proof {
                assert(points@.take(i + 1) =~= points@.take(i as int).push(points@[i as int]));
                assert(points@.take(i as int).to_multiset().len() == i);
            }
            self.insert(points[i]);
            i += 1;
        }
        proof {
            assert(points@.take(points@.len() as int) =~= points@);
        }
    }

    /// Removes the given [`Point`] from the `CoverTree`, returning it, or
    /// `None` when the tree does not hold it.
    pub fn remove(&mut self, point: P) -> (removed: Option<P>)
        requires
            old(self).wf(),
        ensures
            final(self).wf(),
            final(self).spec_span_factor() == old(self).spec_span_factor(),
            old(self)@.contains(point) ==> removed == Some(point) && final(self)@ =~= old(self)@.remove(point),
            !old(self)@.contains(point) ==> removed is None && final(self)@ =~= old(self)@,
    {
        match self.root.take() {
            Some(mut cover) => {
                let mut removed = cover.remove(point);
                proof {
                    old(self).root->0.lemma_pts_ms();
                }
                if removed.is_some() {
                    self.root = Some(cover);
                } else if cover.point.same_as(&point) {
                    // The point is the root's own.
                    removed = Some(cover.point);
                    self.root = cover.remove_root();
                    proof {
                        assert(old(self)@.count(point) > 0);
                    }
                } else {
                    self.root = Some(cover);
                    proof {
                        assert(old(self)@.count(point) == 0);
                    }
                }
                if removed.is_some() {
                    self.len -= 1;
                }
                removed
            },
            None => None,
        }
    }

    /// Removes each of the given [`Point`]s from the `CoverTree`, one
    /// occurrence per occurrence in `points`.
    pub fn remove_all(&mut self, points: Vec<P>)
        requires
            old(self).wf(),
        ensures
            final(self).wf(),
            final(self)@ =~= old(self)@.sub(points@.to_multiset()),
            final(self).spec_span_factor() == old(self).spec_span_factor(),
    {
        let mut i: usize = 0;
        proof {
            assert(points@.take(0) =~= Seq::<P>::empty());
            assert(old(self)@.sub(Multiset::<P>::empty()) =~= old(self)@);
        }
        while i < points.len()
            invariant
                i <= points@.len(),
                self.wf(),
                self@ =~= old(self)@.sub(points@.take(i as int).to_multiset()),
                self.spec_span_factor() == old(self).spec_span_factor(),
            decreases points@.len() - i,
        {
            let ghost before = self@;
            self.remove(points[i]);
            proof {
                let x = points@[i as int];
                assert(points@.take(i + 1) =~= points@.take(i as int).push(x));
                let a = points@.take(i as int).to_multiset();
                assert(self@ =~= before.sub(Multiset::singleton(x)));
                assert(self@ =~= old(self)@.sub(a.insert(x)));
            }
            i += 1;
        }
        proof {
            assert(points@.take(points@.len() as int) =~= points@);
        }
    }

    /// Removes all points from the `CoverTree`.
    pub fn clear(&mut self)
        requires
            old(self).wf(),
        ensures
            final(self).wf(),
            final(self).covers(),
            final(self)@ =~= Multiset::<P>::empty(),
            final(self).spec_span_factor() == old(self).spec_span_factor(),
    {
        self.root = None;
        self.len = 0;
    }
}

impl<P: Point> Default for CoverTree<P> {
    fn default() -> (tree: Self)
        ensures
            tree.wf(),
            tree.covers(),
            tree@ =~= Multiset::<P>::empty(),
            tree.spec_span_factor() == DEFAULT_SPAN_FACTOR,
    {
        CoverTree::with_span_factor(DEFAULT_SPAN_FACTOR)
    }
}

impl<P: Point> Cover<P> {
    /// Forests whose subtrees hold the same points hold the same points.
    proof fn lemma_forest_pointwise(a: Seq<Cover<P>>, b: Seq<Cover<P>>)
        requires
            a.len() == b.len(),
            forall|t: int| 0 <= t < a.len() ==> (#[trigger] a[t]).pts() == b[t].pts(),
        ensures
            Self::forest(a) == Self::forest(b),
        decreases a.len(),
    {
        if a.len() > 0 {
            Self::lemma_forest_pointwise(a.drop_last(), b.drop_last());
            assert(a.last().pts() == b.last().pts());
        }
    }
}

impl<P: Point> Clone for Cover<P> {
    fn clone(&self) -> (c: Self)
        ensures
            c.spec_point() == self.spec_point(),
            c.spec_level() == self.spec_level(),
            c.spec_max_distance() == self.spec_max_distance(),
            c.pts() == self.pts(),
            self.wf() ==> c.wf(),
        decreases self.pts().len(),
    {
        let mut children: Vec<Cover<P>> = Vec::new();
        let mut i: usize = 0;
        while i < self.children.len()
            invariant
                i <= self.children@.len(),
                children@.len() == i,
                forall|t: int| 0 <= t < i ==> (#[trigger] children@[t]).pts() == self.children@[t].pts(),
                forall|t: int| 0 <= t < i ==> self.children@[t].wf() ==> (#[trigger] children@[t]).wf(),
            decreases self.children@.len() - i,
        {
            proof {
                self.lemma_child_smaller(i as int);
            }
            let child = self.children[i].clone();
            children.push(child);
            i += 1;
        }
        let c = Cover { point: self.point, children, level: self.level, max_distance: self.max_distance };
        proof {
            Self::lemma_forest_pointwise(c.children@, self.children@);
        }
        c
    }
}

impl<P: Point> Clone for CoverTree<P> {
    fn clone(&self) -> (tree: Self)
        ensures
            tree@ == self@,
            tree.spec_span_factor() == self.spec_span_factor(),
            self.wf() ==> tree.wf(),
    {
        let root = match &self.root {
            Some(c) => Some(c.clone()),
            None => None,
        };
        CoverTree { root, span_factor: self.span_factor, len: self.len }
    }
}

impl<P: Point> Cover<P> {
    /// Two subtrees have the same shape, points, levels and cached bounds.
    pub closed spec fn same_tree(self, other: Self) -> bool
        decreases self,
    {
        &&& self.point == other.point
        &&& self.level == other.level
        &&& self.max_distance == other.max_distance
        &&& self.children@.len() == other.children@.len()
        &&& forall|j: int|
            0 <= j < self.children@.len() ==> (#[trigger] self.children@[j]).same_tree(other.children@[j])
    }
}

impl<P: Point> Cover<P> {
    /// Two leaves with the same point, level and cached bound are the same
    /// tree.
    pub proof fn lemma_same_leaves(a: Self, b: Self)
        requires
            a.is_leaf(),
            b.is_leaf(),
            a.spec_point() == b.spec_point(),
            a.spec_level() == b.spec_level(),
            a.spec_max_distance() == b.spec_max_distance(),
        ensures
            a.same_tree(b),
    {
    }

    /// The same tree holds the same points, in the same order.
    pub proof fn lemma_same_tree_pts(a: Self, b: Self)
        requires
            a.same_tree(b),
        ensures
            a.pts() == b.pts(),
        decreases a,
    {
        assert forall|j: int| 0 <= j < a.children@.len() implies (#[trigger] a.children@[j]).pts() == b.children@[j].pts() by {
            Self::lemma_same_tree_pts(a.children@[j], b.children@[j]);
        }
        Self::lemma_forest_pointwise(a.children@, b.children@);
    }
}

impl<P: Point> PartialEq for Cover<P> {
    fn eq(&self, other: &Self) -> (r: bool)
        decreases self.pts().len(),
    {
        if !self.point.same_as(&other.point) || self.level != other.level
            || self.max_distance != other.max_distance || self.children.len() != other.children.len() {
            return false;
        }
        let mut i: usize = 0;
        while i < self.children.len()
            invariant
                i <= self.children@.len(),
                self.children@.len() == other.children@.len(),
                forall|t: int| 0 <= t < i ==> (#[trigger] self.children@[t]).same_tree(other.children@[t]),
            decreases self.children@.len() - i,
        {
            proof {
                self.lemma_child_smaller(i as int);
            }
            if !self.children[i].eq(&other.children[i]) {
                return false;
            }
            i += 1;
        }
        true
    }
}

impl<P: Point> PartialEqSpecImpl for Cover<P> {
    open spec fn obeys_eq_spec() -> bool {
        true
    }

    open spec fn eq_spec(&self, other: &Self) -> bool {
        self.same_tree(*other)
    }
}

impl<P: Point> CoverTree<P> {
    /// Two trees have the same span factor, length and, node by node, the
    /// same nodes.
    pub closed spec fn same_tree(self, other: Self) -> bool {
        &&& self.span_factor == other.span_factor
        &&& self.len == other.len
        &&& match (self.root, other.root) {
            (Some(a), Some(b)) => a.same_tree(b),
            (None, None) => true,
            _ => false,
        }
    }
}

impl<P: Point> CoverTree<P> {
    /// Empty well-formed trees with the same span factor are the same tree.
    pub proof fn lemma_empty_trees_same(a: Self, b: Self)
        requires
            a.wf(),
            b.wf(),
            a@.len() == 0,
            b@.len() == 0,
            a.spec_span_factor() == b.spec_span_factor(),
        ensures
            a.same_tree(b),
    {
        if let Some(c) = a.root {
            c.lemma_pts_ms();
        }
        if let Some(c) = b.root {
            c.lemma_pts_ms();
        }
    }

    /// The same tree holds the same points and has the same span factor.
    pub proof fn lemma_same_tree_view(a: Self, b: Self)
        requires
            a.same_tree(b),
        ensures
            a@ == b@,
            a.spec_span_factor() == b.spec_span_factor(),
    {
        if let (Some(x), Some(y)) = (a.root, b.root) {
            Cover::lemma_same_tree_pts(x, y);
        }
    }
}

impl<P: Point> PartialEq for CoverTree<P> {
    fn eq(&self, other: &Self) -> (r: bool) {
        if self.span_factor != other.span_factor || self.len != other.len {
            return false;
        }
        match (&self.root, &other.root) {
            (Some(a), Some(b)) => a.eq(b),
            (None, None) => true,
            _ => false,
        }
    }
}

impl<P: Point> PartialEqSpecImpl for CoverTree<P> {
    open spec fn obeys_eq_spec() -> bool {
        true
    }

    open spec fn eq_spec(&self, other: &Self) -> bool {
        self.same_tree(*other)
    }
}
} // verus!
