//! The recursive quadtree node.
//!
//! A `Quad` owns a `Rectangle` (its bounds), a bounded set of stored points,
//! and — once divided — exactly four child quads whose bounds are the four
//! quadrants of `Rectangle::split`. Children are visited everywhere in the
//! fixed order `ne, nw, se, sw` (the order `split` produces); that order is a
//! load-bearing tie-break for both insertion of boundary points and query
//! output.
//!
//! The observable contents of a tree is `points()`: every stored point in
//! pre-order (a node's own points first, then each child subtree in the fixed
//! order). `insert`, `remove` and `clear` are specified against it.

use vstd::prelude::*;

use crate::rect::Rectangle;

verus! {

/// One node of the quadtree, owning its subtree.
pub struct Quad {
    pub bounds: Rectangle,
    pub capacity: usize,
    pub data: Vec<(u32, u32)>,
    pub divided: bool,
    pub ne: Option<Box<Quad>>,
    pub nw: Option<Box<Quad>>,
    pub se: Option<Box<Quad>>,
    pub sw: Option<Box<Quad>>,
}

/// The points stored in an optional subtree, in pre-order.
pub open spec fn opt_points(o: Option<Box<Quad>>) -> Seq<(u32, u32)>
    decreases o,
{
    match o {
        None => Seq::empty(),
        Some(q) => q.points(),
    }
}

/// The subsequence of `s` contained in `range`, in order: what one node
/// contributes to a query from its own stored points.
pub open spec fn matching_points(s: Seq<(u32, u32)>, range: Rectangle) -> Seq<(u32, u32)>
    decreases s.len(),
{
    if s.len() == 0 {
        Seq::empty()
    } else if range.contains_pt(s.last()) {
        matching_points(s.drop_last(), range).push(s.last())
    } else {
        matching_points(s.drop_last(), range)
    }
}

/// The query result of an optional subtree.
pub open spec fn opt_query(o: Option<Box<Quad>>, range: Rectangle) -> Seq<(u32, u32)>
    decreases o,
{
    match o {
        None => Seq::empty(),
        Some(q) => q.spec_query(range),
    }
}

/// Whether an insertion of `(px, py)` into a fresh empty tree over `b` with
/// the given per-node capacity would succeed. It succeeds when `b` contains
/// the point and either some point fits locally (`capacity > 0`), or the
/// minimum-extent guard stores it locally anyway, or some quadrant of `b`
/// accepts it in turn (the recursion a zero capacity forces). It fails
/// exactly on the points `b` does not contain, or that fall into a coverage
/// gap of the truncating split before any node has room.
pub open spec fn fresh_accepts(b: Rectangle, capacity: usize, px: u32, py: u32) -> bool
    decreases b.width,
{
    b.spec_contains(px, py) && (capacity > 0 || b.width < 2 || b.height < 2 || fresh_accepts(
        b.spec_split().0,
        capacity,
        px,
        py,
    ) || fresh_accepts(b.spec_split().1, capacity, px, py) || fresh_accepts(
        b.spec_split().2,
        capacity,
        px,
        py,
    ) || fresh_accepts(b.spec_split().3, capacity, px, py))
}

/// Whether an optional subtree accepts an insertion of `(px, py)`.
pub open spec fn opt_accepts(o: Option<Box<Quad>>, px: u32, py: u32) -> bool
    decreases o,
{
    match o {
        None => false,
        Some(q) => q.can_accept(px, py),
    }
}

/// Shape equality of two optional subtrees.
pub open spec fn opt_same_shape(a: Option<Box<Quad>>, b: Option<Box<Quad>>) -> bool
    decreases a,
{
    match a {
        None => b is None,
        Some(x) => b is Some && x.same_shape(*b.unwrap()),
    }
}

/// Well-formedness of an optional child over the given quadrant.
pub open spec fn opt_child_wf(o: Option<Box<Quad>>, bounds: Rectangle, capacity: usize) -> bool
    decreases o,
{
    match o {
        None => false,
        Some(q) => q.bounds == bounds && q.capacity == capacity && q.wf(),
    }
}

impl Quad {
    /// Every point stored in this subtree, in pre-order: this node's own
    /// points in insertion order, then the four child subtrees in the fixed
    /// order.
    pub open spec fn points(self) -> Seq<(u32, u32)>
        decreases self,
    {
        self.data@ + opt_points(self.ne) + opt_points(self.nw) + opt_points(self.se)
            + opt_points(self.sw)
    }

    /// The structural invariant.
    ///
    /// - bounds arithmetic stays in range;
    /// - every locally stored point lies within `bounds` (inclusive);
    /// - a divided node has extent at least 2 in both axes, at most
    ///   `capacity` local points, and four well-formed children over exactly
    ///   the quadrants of `bounds.split()` with the same capacity;
    /// - an undivided node has no children, and at most `capacity` local
    ///   points unless the minimum-extent guard applies (extent below 2 in
    ///   some axis), in which case overflow points accumulate locally instead
    ///   of forcing a subdivision that could not terminate.
    pub open spec fn wf(self) -> bool
        decreases self,
    {
        &&& self.bounds.wf()
        &&& forall|i: int|
            0 <= i < self.data@.len() ==> self.bounds.contains_pt(#[trigger] self.data@[i])
        &&& if self.divided {
            &&& self.bounds.width >= 2
            &&& self.bounds.height >= 2
            &&& self.data@.len() <= self.capacity
            &&& opt_child_wf(self.ne, self.bounds.spec_split().0, self.capacity)
            &&& opt_child_wf(self.nw, self.bounds.spec_split().1, self.capacity)
            &&& opt_child_wf(self.se, self.bounds.spec_split().2, self.capacity)
            &&& opt_child_wf(self.sw, self.bounds.spec_split().3, self.capacity)
        } else {
            &&& self.ne is None
            &&& self.nw is None
            &&& self.se is None
            &&& self.sw is None
            &&& self.bounds.width >= 2 && self.bounds.height >= 2 ==> self.data@.len()
                <= self.capacity
        }
    }

    /// Whether an insertion of `(px, py)` into this subtree succeeds: the
    /// bounds contain the point, and either the local set has room, or the
    /// minimum-extent guard stores it locally, or — descending in the fixed
    /// order — some child (existing, or fresh after the subdivision a full
    /// node performs) accepts it.
    pub open spec fn can_accept(self, px: u32, py: u32) -> bool
        decreases self,
    {
        self.bounds.spec_contains(px, py) && (self.data@.len() < self.capacity
            || self.bounds.width < 2 || self.bounds.height < 2 || (if self.divided {
            opt_accepts(self.ne, px, py) || opt_accepts(self.nw, px, py) || opt_accepts(
                self.se,
                px,
                py,
            ) || opt_accepts(self.sw, px, py)
        } else {
            fresh_accepts(self.bounds.spec_split().0, self.capacity, px, py) || fresh_accepts(
                self.bounds.spec_split().1,
                self.capacity,
                px,
                py,
            ) || fresh_accepts(self.bounds.spec_split().2, self.capacity, px, py)
                || fresh_accepts(self.bounds.spec_split().3, self.capacity, px, py)
        }))
    }

    /// Same tree shape: node for node the same bounds, capacity and divided
    /// flag, with children present on the same sides — regardless of the
    /// points stored.
    pub open spec fn same_shape(self, other: Quad) -> bool
        decreases self,
    {
        &&& self.bounds == other.bounds
        &&& self.capacity == other.capacity
        &&& self.divided == other.divided
        &&& opt_same_shape(self.ne, other.ne)
        &&& opt_same_shape(self.nw, other.nw)
        &&& opt_same_shape(self.se, other.se)
        &&& opt_same_shape(self.sw, other.sw)
    }

    /// Every tree has its own shape.
    pub proof fn lemma_same_shape_reflexive(q: Quad)
        ensures
            q.same_shape(q),
        decreases q,
    {
        Self::lemma_opt_same_shape_reflexive(q.ne);
        Self::lemma_opt_same_shape_reflexive(q.nw);
        Self::lemma_opt_same_shape_reflexive(q.se);
        Self::lemma_opt_same_shape_reflexive(q.sw);
    }

    /// The optional-child form of `lemma_same_shape_reflexive`.
    proof fn lemma_opt_same_shape_reflexive(o: Option<Box<Quad>>)
        ensures
            opt_same_shape(o, o),
        decreases o,
    {
        match o {
            None => {
            },
            Some(c) => {
                Self::lemma_same_shape_reflexive(*c);
            },
        }
    }

    /// An empty, undivided leaf over the given bounds and capacity.
    pub open spec fn is_empty_leaf(self, bounds: Rectangle, capacity: usize) -> bool {
        &&& self.bounds == bounds
        &&& self.capacity == capacity
        &&& self.data@ === Seq::empty()
        &&& !self.divided
        &&& self.ne is None
        &&& self.nw is None
        &&& self.se is None
        &&& self.sw is None
    }

    /// What a range query returns: the empty sequence when `range` does not
    /// intersect `bounds` (the whole subtree is pruned); otherwise the local
    /// points contained in `range`, followed — on a divided node — by the
    /// four children's results in the fixed order.
    pub open spec fn spec_query(self, range: Rectangle) -> Seq<(u32, u32)>
        decreases self,
    {
        if !range.spec_intersects(self.bounds) {
            Seq::empty()
        } else if !self.divided {
            matching_points(self.data@, range)
        } else {
            matching_points(self.data@, range) + opt_query(self.ne, range)
                + opt_query(self.nw, range) + opt_query(self.se, range)
                + opt_query(self.sw, range)
        }
    }

    /// Leaf node: empty point set, not divided.
    pub fn new(bounds: Rectangle, capacity: usize) -> (q: Quad)
        requires
            bounds.wf(),
        ensures
            q.wf(),
            q.is_empty_leaf(bounds, capacity),
            q.points() === Seq::empty(),
    {
        let q = Quad {
            bounds,
            capacity,
            data: Vec::new(),
            divided: false,
            ne: None,
            nw: None,
            se: None,
            sw: None,
        };
        proof {
            assert(q.points() =~= Seq::empty());
        }
        q
    }

    /// Splits `bounds` into its four quadrants and installs four fresh empty
    /// child leaves with the same capacity, marking the node divided. Only
    /// valid on an undivided node whose extent is at least 2 in both axes:
    /// below that, halving would bottom out at zero-width slivers, so callers
    /// keep overflow points locally instead (the minimum-extent guard).
    pub fn subdivide(&mut self)
        requires
            old(self).wf(),
            !old(self).divided,
            old(self).bounds.width >= 2,
            old(self).bounds.height >= 2,
        ensures
            final(self).wf(),
            final(self).divided,
            final(self).bounds == old(self).bounds,
            final(self).capacity == old(self).capacity,
            final(self).data == old(self).data,
            final(self).points() === old(self).points(),
            final(self).ne is Some && final(self).ne.unwrap().is_empty_leaf(
                old(self).bounds.spec_split().0,
                old(self).capacity,
            ),
            final(self).nw is Some && final(self).nw.unwrap().is_empty_leaf(
                old(self).bounds.spec_split().1,
                old(self).capacity,
            ),
            final(self).se is Some && final(self).se.unwrap().is_empty_leaf(
                old(self).bounds.spec_split().2,
                old(self).capacity,
            ),
            final(self).sw is Some && final(self).sw.unwrap().is_empty_leaf(
                old(self).bounds.spec_split().3,
                old(self).capacity,
            ),
    {
        let (ne, nw, se, sw) = self.bounds.split();

        self.ne = Some(Box::new(Quad::new(ne, self.capacity)));
        self.nw = Some(Box::new(Quad::new(nw, self.capacity)));
        self.se = Some(Box::new(Quad::new(se, self.capacity)));
        self.sw = Some(Box::new(Quad::new(sw, self.capacity)));

        self.divided = true;

        proof {
            assert(final(self).points() =~= old(self).points());
        }
    }

    /// The pre-order point sequence splits, as a multiset, into the local
    /// points and the four child subtrees' points.
    pub proof fn lemma_points_parts(q: Quad)
        ensures
            q.points().to_multiset() === q.data@.to_multiset().add(
                opt_points(q.ne).to_multiset(),
            ).add(opt_points(q.nw).to_multiset()).add(opt_points(q.se).to_multiset()).add(
                opt_points(q.sw).to_multiset(),
            ),
    {
        let d = q.data@;
        let a = opt_points(q.ne);
        let b = opt_points(q.nw);
        let c = opt_points(q.se);
        let e = opt_points(q.sw);
        vstd::seq_lib::lemma_multiset_commutative(d + a + b + c, e);
        vstd::seq_lib::lemma_multiset_commutative(d + a + b, c);
        vstd::seq_lib::lemma_multiset_commutative(d + a, b);
        vstd::seq_lib::lemma_multiset_commutative(d, a);
    }

    /// An empty leaf accepts an insertion exactly when a fresh tree over the
    /// same bounds and capacity does.
    proof fn lemma_empty_leaf_can_accept(q: Quad, b: Rectangle, capacity: usize, px: u32, py: u32)
        requires
            q.is_empty_leaf(b, capacity),
        ensures
            q.can_accept(px, py) == fresh_accepts(b, capacity, px, py),
    {
    }

    /// Every point stored anywhere in a well-formed subtree lies within the
    /// subtree's bounds: a node holds only points its own bounds contain, and
    /// each child's bounds lie within its parent's.
    pub proof fn lemma_stored_point_within(q: Quad, p: (u32, u32))
        requires
            q.wf(),
            q.points().to_multiset().count(p) > 0,
        ensures
            q.bounds.contains_pt(p),
        decreases q,
    {
        broadcast use vstd::seq_lib::group_to_multiset_ensures;

        Self::lemma_points_parts(q);
        if q.data@.to_multiset().count(p) > 0 {
            let i = choose|i: int| 0 <= i < q.data@.len() && q.data@[i] == p;
            assert(q.bounds.contains_pt(q.data@[i]));
        } else if !q.divided {
            assert(opt_points(q.ne).to_multiset().count(p) == 0);
            assert(opt_points(q.nw).to_multiset().count(p) == 0);
            assert(opt_points(q.se).to_multiset().count(p) == 0);
            assert(opt_points(q.sw).to_multiset().count(p) == 0);
            assert(false);
        } else {
            Rectangle::lemma_quadrant_within(q.bounds, p.0, p.1);
            if opt_points(q.ne).to_multiset().count(p) > 0 {
                Self::lemma_opt_stored_point_within(q.ne, q.bounds.spec_split().0, q.capacity, p);
            } else if opt_points(q.nw).to_multiset().count(p) > 0 {
                Self::lemma_opt_stored_point_within(q.nw, q.bounds.spec_split().1, q.capacity, p);
            } else if opt_points(q.se).to_multiset().count(p) > 0 {
                Self::lemma_opt_stored_point_within(q.se, q.bounds.spec_split().2, q.capacity, p);
            } else {
                Self::lemma_opt_stored_point_within(q.sw, q.bounds.spec_split().3, q.capacity, p);
            }
        }
    }

    /// The optional-child form of `lemma_stored_point_within`.
    proof fn lemma_opt_stored_point_within(
        o: Option<Box<Quad>>,
        b: Rectangle,
        capacity: usize,
        p: (u32, u32),
    )
        requires
            opt_child_wf(o, b, capacity),
            opt_points(o).to_multiset().count(p) > 0,
        ensures
            b.contains_pt(p),
        decreases o,
    {
        match o {
            None => {
                broadcast use vstd::seq_lib::group_to_multiset_ensures;

                assert(false);
            },
            Some(c) => {
                Self::lemma_stored_point_within(*c, p);
            },
        }
    }

    /// Appends the point to the subtree if possible and reports whether it
    /// was stored. An uncontained point is refused outright. A contained one
    /// is stored locally while there is room (or, on a node too small to
    /// subdivide, unconditionally), and otherwise handed to the children in
    /// the fixed order — subdividing first if need be — until one accepts
    /// it. `false` on a contained point means the truncating split left the
    /// point in a coverage gap before any node had room: the point was lost,
    /// and the tree's contents are unchanged.
    pub fn insert(&mut self, point: (u32, u32)) -> (r: bool)
        requires
            old(self).wf(),
        ensures
            final(self).wf(),
            final(self).bounds == old(self).bounds,
            final(self).capacity == old(self).capacity,
            old(self).divided ==> final(self).divided,
            r == old(self).can_accept(point.0, point.1),
            r ==> final(self).points().to_multiset() === old(self).points().to_multiset().insert(
                point,
            ),
            !r ==> final(self).points() === old(self).points(),
            !old(self).bounds.contains_pt(point) ==> *final(self) === *old(self),
            old(self).bounds.contains_pt(point) && (old(self).data@.len() < old(self).capacity
                || old(self).bounds.width < 2 || old(self).bounds.height < 2) ==> {
                &&& final(self).data@ === old(self).data@.push(point)
                &&& final(self).divided == old(self).divided
                &&& final(self).ne == old(self).ne
                &&& final(self).nw == old(self).nw
                &&& final(self).se == old(self).se
                &&& final(self).sw == old(self).sw
            },
        decreases old(self).bounds.width,
    {
        if !self.bounds.contains(point.0, point.1) {
            return false;
        }

        if self.data.len() < self.capacity {
            self.data.push(point);
            proof {
                broadcast use vstd::seq_lib::group_to_multiset_ensures;

                Self::lemma_points_parts(*old(self));
                Self::lemma_points_parts(*self);
                assert(self.points().to_multiset() =~= old(self).points().to_multiset().insert(
                    point,
                ));
            }
            return true;
        }

        if self.bounds.width < 2 || self.bounds.height < 2 {
            self.data.push(point);
            proof {
                broadcast use vstd::seq_lib::group_to_multiset_ensures;

                Self::lemma_points_parts(*old(self));
                Self::lemma_points_parts(*self);
                assert(self.points().to_multiset() =~= old(self).points().to_multiset().insert(
                    point,
                ));
            }
            return true;
        }

        if !self.divided {
            self.subdivide();
        }

        let ghost pre = *self;
        proof {
            if !old(self).divided {
                Self::lemma_empty_leaf_can_accept(
                    *pre.ne.unwrap(),
                    old(self).bounds.spec_split().0,
                    old(self).capacity,
                    point.0,
                    point.1,
                );
                Self::lemma_empty_leaf_can_accept(
                    *pre.nw.unwrap(),
                    old(self).bounds.spec_split().1,
                    old(self).capacity,
                    point.0,
                    point.1,
                );
                Self::lemma_empty_leaf_can_accept(
                    *pre.se.unwrap(),
                    old(self).bounds.spec_split().2,
                    old(self).capacity,
                    point.0,
                    point.1,
                );
                Self::lemma_empty_leaf_can_accept(
                    *pre.sw.unwrap(),
                    old(self).bounds.spec_split().3,
                    old(self).capacity,
                    point.0,
                    point.1,
                );
            }
            assert(old(self).can_accept(point.0, point.1) == (pre.ne.unwrap().can_accept(
                point.0,
                point.1,
            ) || pre.nw.unwrap().can_accept(point.0, point.1) || pre.se.unwrap().can_accept(
                point.0,
                point.1,
            ) || pre.sw.unwrap().can_accept(point.0, point.1)));
        }

        let mut ne = self.ne.take().unwrap();
        let r1 = (&mut *ne).insert(point);
        self.ne = Some(ne);
        if r1 {
            proof {
                Self::lemma_points_parts(pre);
                Self::lemma_points_parts(*self);
                assert(self.points().to_multiset() =~= old(self).points().to_multiset().insert(
                    point,
                ));
            }
            return true;
        }

        let mut nw = self.nw.take().unwrap();
        let r2 = (&mut *nw).insert(point);
        self.nw = Some(nw);
        if r2 {
            proof {
                Self::lemma_points_parts(pre);
                Self::lemma_points_parts(*self);
                assert(self.points().to_multiset() =~= old(self).points().to_multiset().insert(
                    point,
                ));
            }
            return true;
        }

        let mut se = self.se.take().unwrap();
        let r3 = (&mut *se).insert(point);
        self.se = Some(se);
        if r3 {
            proof {
                Self::lemma_points_parts(pre);
                Self::lemma_points_parts(*self);
                assert(self.points().to_multiset() =~= old(self).points().to_multiset().insert(
                    point,
                ));
            }
            return true;
        }

        let mut sw = self.sw.take().unwrap();
        let r4 = (&mut *sw).insert(point);
        self.sw = Some(sw);
        if r4 {
            proof {
                Self::lemma_points_parts(pre);
                Self::lemma_points_parts(*self);
                assert(self.points().to_multiset() =~= old(self).points().to_multiset().insert(
                    point,
                ));
            }
            return true;
        }

        proof {
            assert(opt_points(self.ne) == opt_points(pre.ne));
            assert(opt_points(self.nw) == opt_points(pre.nw));
            assert(opt_points(self.se) == opt_points(pre.se));
            assert(opt_points(self.sw) == opt_points(pre.sw));
            assert(self.points() === old(self).points());
        }
        false
    }

    /// Locates one stored occurrence of `point` — scanning the local set
    /// first, then descending only into children whose bounds contain the
    /// point — erases it, and reports whether one was found. The tree's
    /// shape is left untouched: no child is dropped and no subtree collapses;
    /// on `false` the contents are unchanged as well.
    pub fn remove(&mut self, point: (u32, u32)) -> (r: bool)
        requires
            old(self).wf(),
        ensures
            final(self).wf(),
            final(self).bounds == old(self).bounds,
            final(self).capacity == old(self).capacity,
            final(self).divided == old(self).divided,
            old(self).same_shape(*final(self)),
            r == (old(self).points().to_multiset().count(point) > 0),
            r ==> final(self).points().to_multiset() === old(self).points().to_multiset().remove(
                point,
            ),
            !r ==> *final(self) === *old(self),
        decreases old(self).bounds.width,
    {
        let n = self.data.len();
        let mut i: usize = 0;
        let mut idx: usize = n;
        while i < n
            invariant
                n == self.data.len(),
                i <= n,
                idx == n ==> forall|j: int| 0 <= j < i ==> self.data@[j] != point,
                idx != n ==> idx < n && self.data@[idx as int] == point,
            decreases n - i,
        {
            let p = self.data[i];
            if p.0 == point.0 && p.1 == point.1 {
                idx = i;
                i = n;
            } else {
                i += 1;
            }
        }

        if idx < n {
            self.data.remove(idx);
            proof {
                broadcast use vstd::seq_lib::group_to_multiset_ensures;

                Self::lemma_points_parts(*old(self));
                Self::lemma_points_parts(*self);
                assert(old(self).data@.contains(point));
                assert(self.points().to_multiset() =~= old(self).points().to_multiset().remove(
                    point,
                ));
                Self::lemma_opt_same_shape_reflexive(self.ne);
                Self::lemma_opt_same_shape_reflexive(self.nw);
                Self::lemma_opt_same_shape_reflexive(self.se);
                Self::lemma_opt_same_shape_reflexive(self.sw);
            }
            return true;
        }

        proof {
            broadcast use vstd::seq_lib::group_to_multiset_ensures;

            assert(!self.data@.contains(point));
            assert(self.data@.to_multiset().count(point) == 0);
        }

        if !self.divided {
            proof {
                broadcast use vstd::seq_lib::group_to_multiset_ensures;

                Self::lemma_points_parts(*old(self));
                Self::lemma_same_shape_reflexive(*old(self));
            }
            return false;
        }

        let ghost pre = *self;

        let mut ne = self.ne.take().unwrap();
        let ghost ne0 = *ne;
        let r1 = if ne.bounds.contains(point.0, point.1) {
            (&mut *ne).remove(point)
        } else {
            false
        };
        proof {
            if !ne0.bounds.contains_pt(point) && ne0.points().to_multiset().count(point) > 0 {
                Self::lemma_stored_point_within(ne0, point);
            }
            assert(r1 == (ne0.points().to_multiset().count(point) > 0));
        }
        self.ne = Some(ne);
        if r1 {
            proof {
                Self::lemma_points_parts(pre);
                Self::lemma_points_parts(*self);
                assert(self.points().to_multiset() =~= old(self).points().to_multiset().remove(
                    point,
                ));
                Self::lemma_opt_same_shape_reflexive(self.nw);
                Self::lemma_opt_same_shape_reflexive(self.se);
                Self::lemma_opt_same_shape_reflexive(self.sw);
            }
            return true;
        }

        let mut nw = self.nw.take().unwrap();
        let ghost nw0 = *nw;
        let r2 = if nw.bounds.contains(point.0, point.1) {
            (&mut *nw).remove(point)
        } else {
            false
        };
        proof {
            if !nw0.bounds.contains_pt(point) && nw0.points().to_multiset().count(point) > 0 {
                Self::lemma_stored_point_within(nw0, point);
            }
            assert(r2 == (nw0.points().to_multiset().count(point) > 0));
        }
        self.nw = Some(nw);
        if r2 {
            proof {
                Self::lemma_points_parts(pre);
                Self::lemma_points_parts(*self);
                assert(self.points().to_multiset() =~= old(self).points().to_multiset().remove(
                    point,
                ));
                Self::lemma_opt_same_shape_reflexive(self.ne);
                Self::lemma_opt_same_shape_reflexive(self.se);
                Self::lemma_opt_same_shape_reflexive(self.sw);
            }
            return true;
        }

        let mut se = self.se.take().unwrap();
        let ghost se0 = *se;
        let r3 = if se.bounds.contains(point.0, point.1) {
            (&mut *se).remove(point)
        } else {
            false
        };
        proof {
            if !se0.bounds.contains_pt(point) && se0.points().to_multiset().count(point) > 0 {
                Self::lemma_stored_point_within(se0, point);
            }
            assert(r3 == (se0.points().to_multiset().count(point) > 0));
        }
        self.se = Some(se);
        if r3 {
            proof {
                Self::lemma_points_parts(pre);
                Self::lemma_points_parts(*self);
                assert(self.points().to_multiset() =~= old(self).points().to_multiset().remove(
                    point,
                ));
                Self::lemma_opt_same_shape_reflexive(self.ne);
                Self::lemma_opt_same_shape_reflexive(self.nw);
                Self::lemma_opt_same_shape_reflexive(self.sw);
            }
            return true;
        }

        let mut sw = self.sw.take().unwrap();
        let ghost sw0 = *sw;
        let r4 = if sw.bounds.contains(point.0, point.1) {
            (&mut *sw).remove(point)
        } else {
            false
        };
        proof {
            if !sw0.bounds.contains_pt(point) && sw0.points().to_multiset().count(point) > 0 {
                Self::lemma_stored_point_within(sw0, point);
            }
            assert(r4 == (sw0.points().to_multiset().count(point) > 0));
        }
        self.sw = Some(sw);
        if r4 {
            proof {
                Self::lemma_points_parts(pre);
                Self::lemma_points_parts(*self);
                assert(self.points().to_multiset() =~= old(self).points().to_multiset().remove(
                    point,
                ));
                Self::lemma_opt_same_shape_reflexive(self.ne);
                Self::lemma_opt_same_shape_reflexive(self.nw);
                Self::lemma_opt_same_shape_reflexive(self.se);
            }
            return true;
        }

        proof {
            Self::lemma_points_parts(*old(self));
            assert(*self === *old(self));
            assert(old(self).points().to_multiset().count(point) == 0);
            Self::lemma_same_shape_reflexive(*old(self));
        }
        false
    }

    /// Collects every stored point of the subtree that `range` contains,
    /// pruning subtrees whose bounds do not intersect `range`. The result is
    /// in pre-order: a node's own matches first, then each child's in the
    /// fixed order.
    pub fn query(&self, range: Rectangle) -> (r: Vec<(u32, u32)>)
        requires
            self.wf(),
        ensures
            r@ === self.spec_query(range),
            !range.spec_intersects(self.bounds) ==> r@ === Seq::<(u32, u32)>::empty(),
        decreases self.bounds.width,
    {
        if !range.intersects(&self.bounds) {
            return Vec::new();
        }

        let mut result: Vec<(u32, u32)> = Vec::new();
        let mut i: usize = 0;
        while i < self.data.len()
            invariant
                i <= self.data.len(),
                result@ === matching_points(self.data@.subrange(0, i as int), range),
            decreases self.data.len() - i,
        {
            let p = self.data[i];
            proof {
                assert(self.data@.subrange(0, i + 1).drop_last() =~= self.data@.subrange(
                    0,
                    i as int,
                ));
            }
            if range.contains(p.0, p.1) {
                result.push(p);
            }
            i += 1;
        }
        proof {
            assert(self.data@.subrange(0, self.data@.len() as int) =~= self.data@);
        }

        if self.divided {
            match &self.ne {
                Some(c) => {
                    let mut v = c.query(range);
                    result.append(&mut v);
                },
                None => {
                    proof {
                        assert(false);
                    }
                },
            }
            match &self.nw {
                Some(c) => {
                    let mut v = c.query(range);
                    result.append(&mut v);
                },
                None => {
                    proof {
                        assert(false);
                    }
                },
            }
            match &self.se {
                Some(c) => {
                    let mut v = c.query(range);
                    result.append(&mut v);
                },
                None => {
                    proof {
                        assert(false);
                    }
                },
            }
            match &self.sw {
                Some(c) => {
                    let mut v = c.query(range);
                    result.append(&mut v);
                },
                None => {
                    proof {
                        assert(false);
                    }
                },
            }
        }

        result
    }

    /// Empties the local point set, marks the node undivided, and releases
    /// the whole subtree: the node is reset to a fresh empty leaf over the
    /// same bounds and capacity.
    pub fn clear(&mut self)
        requires
            old(self).wf(),
        ensures
            final(self).wf(),
            final(self).is_empty_leaf(old(self).bounds, old(self).capacity),
            final(self).points() === Seq::empty(),
    {
        self.data.clear();
        self.divided = false;
        self.ne = None;
        self.nw = None;
        self.se = None;
        self.sw = None;
        proof {
            assert(final(self).points() =~= Seq::empty());
        }
    }
}

} // verus!
