//! Tree-level laws relating `query` to the stored contents.
//!
//! Together with the contracts of `insert`, `remove` and `clear`, these pin
//! down the observable behaviour of the tree: a query over a range covering
//! the whole bounds returns exactly the stored points, a query never invents
//! a point that is not stored, and a cleared node answers every query with
//! the empty sequence.

use vstd::prelude::*;

use crate::quad::matching_points;
use crate::quad::opt_points;
use crate::quad::opt_query;
use crate::quad::Quad;
use crate::rect::Rectangle;

verus! {

/// A sequence whose points all lie in `range` matches `range` in full.
proof fn lemma_matching_all(s: Seq<(u32, u32)>, range: Rectangle)
    requires
        forall|i: int| 0 <= i < s.len() ==> range.contains_pt(#[trigger] s[i]),
    ensures
        matching_points(s, range) === s,
    decreases s.len(),
{
    if s.len() == 0 {
        assert(matching_points(s, range) =~= s);
    } else {
        lemma_matching_all(s.drop_last(), range);
        assert(matching_points(s, range) =~= s);
    }
}

/// Matching keeps at most as many occurrences of any point as the sequence
/// holds.
proof fn lemma_matching_count(s: Seq<(u32, u32)>, range: Rectangle, p: (u32, u32))
    ensures
        matching_points(s, range).to_multiset().count(p) <= s.to_multiset().count(p),
    decreases s.len(),
{
    broadcast use vstd::seq_lib::group_to_multiset_ensures;

    if s.len() > 0 {
        lemma_matching_count(s.drop_last(), range, p);
        assert(s =~= s.drop_last().push(s.last()));
    }
}

/// A query over a range that covers the whole bounds (inclusively, with the
/// node's extent at least 1 in both axes so that the open-interior
/// intersection cannot prune) returns exactly the stored points, in their
/// pre-order.
pub proof fn lemma_query_covering(q: Quad, range: Rectangle)
    requires
        q.wf(),
        q.bounds.width >= 1,
        q.bounds.height >= 1,
        range.x <= q.bounds.x,
        range.y <= q.bounds.y,
        q.bounds.x + q.bounds.width <= range.x + range.width,
        q.bounds.y + q.bounds.height <= range.y + range.height,
    ensures
        q.spec_query(range) === q.points(),
    decreases q.bounds.width,
{
    assert(range.spec_intersects(q.bounds));
    assert forall|i: int| 0 <= i < q.data@.len() implies range.contains_pt(
        #[trigger] q.data@[i],
    ) by {
        assert(q.bounds.contains_pt(q.data@[i]));
    }
    lemma_matching_all(q.data@, range);
    if !q.divided {
        assert(q.points() =~= q.data@);
    } else {
        assert(2 * (q.bounds.width / 2) <= q.bounds.width);
        assert(2 * (q.bounds.height / 2) <= q.bounds.height);
        match q.ne {
            Some(c) => lemma_query_covering(*c, range),
            None => assert(false),
        }
        match q.nw {
            Some(c) => lemma_query_covering(*c, range),
            None => assert(false),
        }
        match q.se {
            Some(c) => lemma_query_covering(*c, range),
            None => assert(false),
        }
        match q.sw {
            Some(c) => lemma_query_covering(*c, range),
            None => assert(false),
        }
    }
}

/// A query over the node's own bounds returns exactly the stored points.
pub proof fn lemma_query_bounds(q: Quad)
    requires
        q.wf(),
        q.bounds.width >= 1,
        q.bounds.height >= 1,
    ensures
        q.spec_query(q.bounds) === q.points(),
{
    lemma_query_covering(q, q.bounds);
}

/// A query never returns more occurrences of a point than the subtree
/// stores; in particular it never returns a point that is not stored.
pub proof fn lemma_query_sound(q: Quad, range: Rectangle, p: (u32, u32))
    ensures
        q.spec_query(range).to_multiset().count(p) <= q.points().to_multiset().count(p),
    decreases q,
{
    broadcast use vstd::seq_lib::group_to_multiset_ensures;

    Quad::lemma_points_parts(q);
    lemma_matching_count(q.data@, range, p);
    if range.spec_intersects(q.bounds) && q.divided {
        let m = matching_points(q.data@, range);
        let a = opt_query(q.ne, range);
        let b = opt_query(q.nw, range);
        let c = opt_query(q.se, range);
        let e = opt_query(q.sw, range);
        vstd::seq_lib::lemma_multiset_commutative(m + a + b + c, e);
        vstd::seq_lib::lemma_multiset_commutative(m + a + b, c);
        vstd::seq_lib::lemma_multiset_commutative(m + a, b);
        vstd::seq_lib::lemma_multiset_commutative(m, a);
        lemma_opt_query_sound(q.ne, range, p);
        lemma_opt_query_sound(q.nw, range, p);
        lemma_opt_query_sound(q.se, range, p);
        lemma_opt_query_sound(q.sw, range, p);
    }
}

/// The optional-child form of `lemma_query_sound`.
proof fn lemma_opt_query_sound(o: Option<Box<Quad>>, range: Rectangle, p: (u32, u32))
    ensures
        opt_query(o, range).to_multiset().count(p) <= opt_points(o).to_multiset().count(p),
    decreases o,
{
    match o {
        None => {
        },
        Some(c) => {
            lemma_query_sound(*c, range, p);
        },
    }
}

/// A point stored anywhere in the subtree is returned by a query over the
/// whole bounds.
pub proof fn lemma_stored_point_queryable(q: Quad, p: (u32, u32))
    requires
        q.wf(),
        q.bounds.width >= 1,
        q.bounds.height >= 1,
        q.points().to_multiset().count(p) > 0,
    ensures
        q.spec_query(q.bounds).contains(p),
{
    broadcast use vstd::seq_lib::group_to_multiset_ensures;

    lemma_query_bounds(q);
}

/// A point not stored anywhere in the subtree is returned by no query.
pub proof fn lemma_absent_point_not_queried(q: Quad, range: Rectangle, p: (u32, u32))
    requires
        q.points().to_multiset().count(p) == 0,
    ensures
        !q.spec_query(range).contains(p),
{
    broadcast use vstd::seq_lib::group_to_multiset_ensures;

    lemma_query_sound(q, range, p);
}

/// A node large enough to subdivide never holds more than `capacity` points
/// locally: a full one subdivides instead of growing its own set. Only a
/// node the minimum-extent guard stops from subdividing (extent below 2 in
/// some axis) may exceed its capacity.
pub proof fn lemma_capacity_respected(q: Quad)
    requires
        q.wf(),
    ensures
        q.bounds.width >= 2 && q.bounds.height >= 2 ==> q.data@.len() <= q.capacity,
{
}

/// An empty undivided node — a fresh one, or any node after `clear` —
/// answers every query, over any range, with the empty sequence.
pub proof fn lemma_empty_leaf_query(q: Quad, range: Rectangle)
    requires
        !q.divided,
        q.data@.len() == 0,
    ensures
        q.spec_query(range) === Seq::<(u32, u32)>::empty(),
{
}

} // verus!
