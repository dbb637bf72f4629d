use quadtree::quad::Quad;
use quadtree::rect::Rectangle;

#[test]
fn contains_is_inclusive_on_all_edges() {
    let r = Rectangle::new(0, 0, 4, 4);
    assert!(r.contains(0, 0));
    assert!(r.contains(4, 4));
    assert!(r.contains(0, 4));
    assert!(r.contains(4, 0));
    assert!(r.contains(2, 3));
    assert!(!r.contains(5, 0));
    assert!(!r.contains(0, 5));
    let shifted = Rectangle::new(3, 3, 2, 2);
    assert!(shifted.contains(3, 3));
    assert!(shifted.contains(5, 5));
    assert!(!shifted.contains(2, 3));
    assert!(!shifted.contains(6, 5));
}

#[test]
fn zero_size_rectangle_contains_only_its_corner() {
    let r = Rectangle::new(3, 7, 0, 0);
    assert!(r.contains(3, 7));
    assert!(!r.contains(3, 8));
    assert!(!r.contains(4, 7));
    assert!(!r.contains(2, 7));
}

#[test]
fn intersects_excludes_touching_boxes() {
    let r = Rectangle::new(0, 0, 4, 4);
    assert!(r.intersects(&Rectangle::new(3, 3, 4, 4)));
    assert!(r.intersects(&Rectangle::new(1, 1, 2, 2)));
    assert!(r.intersects(&r));
    // boxes sharing only an edge or a corner do not intersect
    assert!(!r.intersects(&Rectangle::new(4, 0, 4, 4)));
    assert!(!r.intersects(&Rectangle::new(0, 4, 4, 4)));
    assert!(!r.intersects(&Rectangle::new(4, 4, 4, 4)));
    assert!(!r.intersects(&Rectangle::new(5, 5, 4, 4)));
}

#[test]
fn split_produces_the_four_quadrants_in_fixed_order() {
    let r = Rectangle::new(0, 0, 4, 4);
    let (ne, nw, se, sw) = r.split();
    assert_eq!(ne, Rectangle::new(0, 0, 2, 2));
    assert_eq!(nw, Rectangle::new(2, 0, 2, 2));
    assert_eq!(se, Rectangle::new(0, 2, 2, 2));
    assert_eq!(sw, Rectangle::new(2, 2, 2, 2));
}

#[test]
fn split_truncates_odd_extents() {
    let r = Rectangle::new(0, 0, 5, 3);
    let (ne, nw, se, sw) = r.split();
    assert_eq!(ne, Rectangle::new(0, 0, 2, 1));
    assert_eq!(nw, Rectangle::new(2, 0, 2, 1));
    assert_eq!(se, Rectangle::new(0, 1, 2, 1));
    assert_eq!(sw, Rectangle::new(2, 1, 2, 1));
    // the strip beyond x = 4 / y = 2 is inside the parent but in no quadrant
    assert!(r.contains(5, 3));
    assert!(!ne.contains(5, 3) && !nw.contains(5, 3) && !se.contains(5, 3) && !sw.contains(5, 3));
}

#[test]
fn subdivide_installs_four_empty_children() {
    let mut q = Quad::new(Rectangle::new(0, 0, 4, 4), 3);
    assert!(!q.divided);
    q.subdivide();
    assert!(q.divided);
    let ne = q.ne.as_ref().unwrap();
    let nw = q.nw.as_ref().unwrap();
    let se = q.se.as_ref().unwrap();
    let sw = q.sw.as_ref().unwrap();
    assert_eq!(ne.bounds, Rectangle::new(0, 0, 2, 2));
    assert_eq!(nw.bounds, Rectangle::new(2, 0, 2, 2));
    assert_eq!(se.bounds, Rectangle::new(0, 2, 2, 2));
    assert_eq!(sw.bounds, Rectangle::new(2, 2, 2, 2));
    assert!(ne.data.is_empty() && nw.data.is_empty() && se.data.is_empty() && sw.data.is_empty());
    assert_eq!(ne.capacity, 3);
    assert_eq!(nw.capacity, 3);
    assert_eq!(se.capacity, 3);
    assert_eq!(sw.capacity, 3);
}

#[test]
fn overflow_insert_divides_and_query_finds_both() {
    let mut q = Quad::new(Rectangle::new(0, 0, 4, 4), 1);
    assert!(q.insert((0, 0)));
    assert!(q.insert((3, 3)));
    assert!(q.divided);
    let out = q.query(Rectangle::new(0, 0, 4, 4));
    assert_eq!(out, vec![(0, 0), (3, 3)]);
}

#[test]
fn boundary_point_is_accepted_and_stays_queryable_across_subdivision() {
    let mut q = Quad::new(Rectangle::new(0, 0, 2, 2), 1);
    // (2, 2) lies on the far corner; inclusive containment accepts it
    assert!(q.insert((2, 2)));
    assert!(q.insert((0, 0)));
    assert!(q.divided);
    let (ne, nw, se, sw) = q.bounds.split();
    assert_eq!(ne, Rectangle::new(0, 0, 1, 1));
    assert_eq!(nw, Rectangle::new(1, 0, 1, 1));
    assert_eq!(se, Rectangle::new(0, 1, 1, 1));
    assert_eq!(sw, Rectangle::new(1, 1, 1, 1));
    let out = q.query(Rectangle::new(0, 0, 2, 2));
    assert_eq!(out.iter().filter(|p| **p == (2, 2)).count(), 1);
    assert_eq!(out.iter().filter(|p| **p == (0, 0)).count(), 1);
    assert_eq!(out.len(), 2);
}

#[test]
fn two_hundred_points_come_back_exactly_once_each() {
    let mut q = Quad::new(Rectangle::new(0, 0, 200, 200), 10);
    let mut pts: Vec<(u32, u32)> = Vec::new();
    for i in 0..200u32 {
        pts.push((i % 20 * 10, i / 20 * 10));
    }
    for p in &pts {
        assert!(q.insert(*p));
    }
    let mut out = q.query(Rectangle::new(0, 0, 200, 200));
    assert_eq!(out.len(), 200);
    out.sort();
    let mut expected = pts.clone();
    expected.sort();
    assert_eq!(out, expected);
}

#[test]
fn remove_deletes_only_the_given_point() {
    let mut q = Quad::new(Rectangle::new(0, 0, 4, 4), 2);
    assert!(q.insert((0, 0)));
    assert!(q.insert((1, 1)));
    assert!(q.remove((0, 0)));
    let out = q.query(Rectangle::new(0, 0, 4, 4));
    assert_eq!(out, vec![(1, 1)]);
}

#[test]
fn remove_on_empty_tree_returns_false() {
    let mut q = Quad::new(Rectangle::new(0, 0, 4, 4), 1);
    assert!(!q.remove((9, 9)));
}

#[test]
fn zero_capacity_insert_succeeds_through_immediate_subdivision() {
    let mut q = Quad::new(Rectangle::new(0, 0, 4, 4), 0);
    assert!(q.insert((1, 1)));
    assert!(q.divided);
    let out = q.query(Rectangle::new(0, 0, 4, 4));
    assert_eq!(out, vec![(1, 1)]);
}

#[test]
fn insert_rejects_points_outside_the_bounds() {
    let mut q = Quad::new(Rectangle::new(0, 0, 4, 4), 4);
    assert!(!q.insert((5, 0)));
    assert!(!q.insert((0, 7)));
    assert!(q.query(Rectangle::new(0, 0, 4, 4)).is_empty());
}

#[test]
fn coverage_gap_insert_fails_without_losing_other_points() {
    let mut q = Quad::new(Rectangle::new(0, 0, 5, 5), 1);
    assert!(q.insert((0, 0)));
    // (5, 5) is contained, but the truncating split covers only up to (4, 4):
    // once the node is full the point fits in no child and is refused
    assert!(q.bounds.contains(5, 5));
    assert!(!q.insert((5, 5)));
    let out = q.query(Rectangle::new(0, 0, 5, 5));
    assert_eq!(out, vec![(0, 0)]);
}

#[test]
fn minimum_extent_node_keeps_overflow_locally() {
    let mut q = Quad::new(Rectangle::new(0, 0, 1, 1), 1);
    assert!(q.insert((0, 0)));
    assert!(q.insert((1, 1)));
    assert!(q.insert((0, 1)));
    assert!(!q.divided);
    let mut out = q.query(Rectangle::new(0, 0, 1, 1));
    out.sort();
    assert_eq!(out, vec![(0, 0), (0, 1), (1, 1)]);
}

#[test]
fn duplicate_points_are_kept_and_removed_one_at_a_time() {
    let mut q = Quad::new(Rectangle::new(0, 0, 4, 4), 1);
    assert!(q.insert((1, 1)));
    assert!(q.insert((1, 1)));
    let out = q.query(Rectangle::new(0, 0, 4, 4));
    assert_eq!(out, vec![(1, 1), (1, 1)]);
    assert!(q.remove((1, 1)));
    assert_eq!(q.query(Rectangle::new(0, 0, 4, 4)), vec![(1, 1)]);
    assert!(q.remove((1, 1)));
    assert!(q.query(Rectangle::new(0, 0, 4, 4)).is_empty());
    assert!(!q.remove((1, 1)));
}

#[test]
fn remove_descends_into_the_child_that_holds_the_point() {
    let mut q = Quad::new(Rectangle::new(0, 0, 4, 4), 1);
    assert!(q.insert((0, 0)));
    assert!(q.insert((3, 3)));
    assert!(q.divided);
    assert!(q.remove((3, 3)));
    // shape is untouched by removal, only the point is gone
    assert!(q.divided);
    assert_eq!(q.query(Rectangle::new(0, 0, 4, 4)), vec![(0, 0)]);
    assert!(!q.remove((3, 3)));
}

#[test]
fn query_prunes_disjoint_and_touching_ranges() {
    let mut q = Quad::new(Rectangle::new(0, 0, 4, 4), 4);
    assert!(q.insert((0, 0)));
    assert!(q.insert((4, 4)));
    assert!(q.query(Rectangle::new(9, 9, 2, 2)).is_empty());
    // a range that merely touches the bounds does not intersect them,
    // so even the shared corner point is pruned away
    assert!(q.query(Rectangle::new(4, 4, 2, 2)).is_empty());
}

#[test]
fn query_filters_by_the_requested_range() {
    let mut q = Quad::new(Rectangle::new(0, 0, 8, 8), 10);
    assert!(q.insert((1, 1)));
    assert!(q.insert((6, 6)));
    assert!(q.insert((2, 7)));
    let out = q.query(Rectangle::new(0, 0, 3, 3));
    assert_eq!(out, vec![(1, 1)]);
    let out = q.query(Rectangle::new(5, 5, 2, 2));
    assert_eq!(out, vec![(6, 6)]);
}

#[test]
fn clear_resets_to_an_empty_leaf() {
    let mut q = Quad::new(Rectangle::new(0, 0, 4, 4), 1);
    assert!(q.insert((0, 0)));
    assert!(q.insert((3, 3)));
    assert!(q.divided);
    q.clear();
    assert!(!q.divided);
    assert!(q.ne.is_none() && q.nw.is_none() && q.se.is_none() && q.sw.is_none());
    assert!(q.query(Rectangle::new(0, 0, 4, 4)).is_empty());
    assert!(q.query(Rectangle::new(1, 1, 1, 1)).is_empty());
    // the cleared node is usable again
    assert!(q.insert((2, 2)));
    assert_eq!(q.query(Rectangle::new(0, 0, 4, 4)), vec![(2, 2)]);
}

#[test]
fn zero_size_bounds_accept_only_the_coincident_point() {
    let mut q = Quad::new(Rectangle::new(2, 2, 0, 0), 1);
    assert!(!q.insert((1, 1)));
    assert!(q.insert((2, 2)));
    // a zero-size query range has an empty interior and is always pruned,
    // even over the very box it matches point-wise
    assert!(q.query(Rectangle::new(2, 2, 0, 0)).is_empty());
    // a range whose interior straddles the degenerate bounds does intersect
    assert_eq!(q.query(Rectangle::new(0, 0, 8, 8)), vec![(2, 2)]);
}
