use quadtree_lod::quadtree::{palette_index, QuadTree};

#[test]
fn new_makes_a_leaf() {
    let t = QuadTree::new(3, -5, 16, 2);
    assert_eq!(t.get_position(), (3, -5));
    assert_eq!(t.get_x(), 3);
    assert_eq!(t.get_z(), -5);
    assert_eq!(t.get_half_length(), 16);
    assert_eq!(t.get_depth(), 2);
    assert!(t.children.is_none());
    assert!(t.get_children().is_none());
    assert!(t.get_all_children().is_none());
    assert_eq!(t.get_children_count(), 0);
}

#[test]
fn subdivide_creates_four_tiling_children() {
    let mut t = QuadTree::new(0, 0, 16, 0);
    t.subdivide();
    let kids = t.get_children().expect("subdivided node has children");
    // fixed order: top right, bottom right, bottom left, top left
    assert_eq!((kids.q0.x, kids.q0.z), (8, 8));
    assert_eq!((kids.q1.x, kids.q1.z), (8, -8));
    assert_eq!((kids.q2.x, kids.q2.z), (-8, -8));
    assert_eq!((kids.q3.x, kids.q3.z), (-8, 8));
    assert_eq!(kids.q0.half_length, 8);
    assert_eq!(kids.q1.half_length, 8);
    assert_eq!(kids.q2.half_length, 8);
    assert_eq!(kids.q3.half_length, 8);
    assert_eq!(kids.q0.depth, 1);
    assert_eq!(kids.q1.depth, 1);
    assert_eq!(kids.q2.depth, 1);
    assert_eq!(kids.q3.depth, 1);
    // the children tile the parent: corners of the parent fall in exactly
    // the matching child
    assert!(kids.q0.check_bounds(16, 16));
    assert!(!kids.q2.check_bounds(16, 16));
    assert!(kids.q3.check_bounds(-16, 16));
    assert!(!kids.q1.check_bounds(-16, 16));
}

#[test]
fn subdivide_resets_existing_children() {
    let mut t = QuadTree::new(0, 0, 16, 0);
    t.subdivide();
    t.children.as_mut().unwrap().q0.subdivide();
    assert_eq!(t.get_children_count(), 7);
    // subdividing again replaces the grown children with four fresh leaves
    t.subdivide();
    assert_eq!(t.get_children_count(), 4);
}

#[test]
fn subdivide_below_threshold_is_a_no_op() {
    let mut t = QuadTree::new(0, 0, 1, 0);
    t.subdivide();
    assert!(t.children.is_none());

    let mut u = QuadTree::new(0, 0, 2, 0);
    u.subdivide();
    let kids = u.get_children().expect("half-length 2 still subdivides");
    assert_eq!(kids.q0.half_length, 1);
}

#[test]
fn check_bounds_is_inclusive_on_all_edges() {
    let t = QuadTree::new(0, 0, 16, 0);
    assert!(t.check_bounds(0, 0));
    assert!(t.check_bounds(16, 16));
    assert!(t.check_bounds(-16, 16));
    assert!(t.check_bounds(16, -16));
    assert!(t.check_bounds(-16, -16));
    assert!(!t.check_bounds(17, 0));
    assert!(!t.check_bounds(-17, 0));
    assert!(!t.check_bounds(0, 17));
    assert!(!t.check_bounds(0, -17));
}

#[test]
fn shared_corner_is_in_bounds_of_all_four_children() {
    let mut t = QuadTree::new(0, 0, 16, 0);
    t.subdivide();
    let kids = t.get_children().unwrap();
    // (0,0) sits exactly on the corner shared by all four children: the
    // inclusive bounds report it inside every one of them
    assert!(kids.q0.check_bounds(0, 0));
    assert!(kids.q1.check_bounds(0, 0));
    assert!(kids.q2.check_bounds(0, 0));
    assert!(kids.q3.check_bounds(0, 0));
}

#[test]
fn get_all_children_collects_leaves_depth_first() {
    let mut t = QuadTree::new(0, 0, 16, 0);
    t.subdivide();
    t.children.as_mut().unwrap().q0.subdivide();
    let leaves = t.get_all_children().expect("branch enumerates leaves");
    assert_eq!(leaves.len(), 7);
    // the grown top-right child contributes its four leaves first,
    // then the three remaining depth-1 leaves follow in index order
    let centers: Vec<(i64, i64)> = leaves.iter().map(|l| (l.x, l.z)).collect();
    assert_eq!(
        centers,
        vec![(12, 12), (12, 4), (4, 4), (4, 12), (8, -8), (-8, -8), (-8, 8)]
    );
    assert_eq!(leaves[0].depth, 2);
    assert_eq!(leaves[0].half_length, 4);
    assert_eq!(leaves[4].depth, 1);
    for l in &leaves {
        assert!(l.children.is_none());
    }
}

#[test]
fn clear_children_then_enumerate_reports_absent() {
    let mut t = QuadTree::new(0, 0, 16, 0);
    t.subdivide();
    t.children.as_mut().unwrap().q2.subdivide();
    assert!(t.get_all_children().is_some());
    t.clear_children();
    assert!(t.get_all_children().is_none());
    assert!(t.get_children().is_none());
    assert_eq!(t.get_children_count(), 0);
    // clearing again changes nothing
    t.clear_children();
    assert!(t.get_all_children().is_none());
}

#[test]
fn subdivide_until_depth_returns_copy_at_target() {
    let mut t = QuadTree::new(3, 3, 4, 2);
    let r = t.subdivide_until_depth(3, 3, 2);
    let copy = r.expect("node already at target depth hands back a copy");
    assert_eq!((copy.x, copy.z, copy.half_length, copy.depth), (3, 3, 4, 2));
    assert!(copy.children.is_none());
    // the tree itself is untouched
    assert!(t.children.is_none());
}

#[test]
fn subdivide_until_depth_follows_the_containing_branch() {
    let mut t = QuadTree::new(0, 0, 16, 0);
    let r = t.subdivide_until_depth(10, 10, 3);
    assert!(r.is_none());
    let leaves = t.get_all_children().unwrap();
    assert_eq!(leaves.len(), 10);
    // exactly one leaf of depth 3 contains the point
    let hits: Vec<_> = leaves
        .iter()
        .filter(|l| l.check_bounds(10, 10) && l.depth == 3)
        .collect();
    assert_eq!(hits.len(), 1);
    assert_eq!((hits[0].x, hits[0].z, hits[0].half_length), (10, 10, 2));
}

#[test]
fn subdivide_until_depth_boundary_tie_refines_all_candidates() {
    let mut t = QuadTree::new(0, 0, 16, 0);
    t.subdivide_until_depth(0, 0, 2);
    // (0,0) lies on every depth-1 child's corner, so all four branches grow
    // to depth 2
    let leaves = t.get_all_children().unwrap();
    assert_eq!(leaves.len(), 16);
    assert!(leaves.iter().all(|l| l.depth == 2));
    assert_eq!(leaves.iter().filter(|l| l.check_bounds(0, 0)).count(), 4);
}

#[test]
fn subdivide_until_depth_stops_at_minimum_size() {
    let mut t = QuadTree::new(0, 0, 4, 0);
    t.subdivide_until_depth(1, 1, 10);
    let leaves = t.get_all_children().unwrap();
    // growth stops once leaves reach the minimum half-length of 1, at depth 2
    assert!(leaves.iter().all(|l| l.depth <= 2));
    let deepest: Vec<_> = leaves.iter().filter(|l| l.check_bounds(1, 1) && l.depth == 2).collect();
    assert!(!deepest.is_empty());
    assert!(deepest.iter().all(|l| l.half_length == 1));
}

#[test]
fn offset_moves_the_whole_subtree() {
    let mut t = QuadTree::new(0, 0, 8, 0);
    t.subdivide();
    t.offset(5, -3);
    assert_eq!((t.get_x(), t.get_z()), (5, -3));
    let kids = t.get_children().unwrap();
    assert_eq!((kids.q0.x, kids.q0.z), (9, 1));
    assert_eq!((kids.q1.x, kids.q1.z), (9, -7));
    assert_eq!((kids.q2.x, kids.q2.z), (1, -7));
    assert_eq!((kids.q3.x, kids.q3.z), (1, 1));
    assert_eq!(kids.q0.half_length, 4);
    assert_eq!(kids.q0.depth, 1);
}

#[test]
fn palette_index_is_a_pure_function_of_depth() {
    assert_eq!(palette_index(0), Some(0));
    assert_eq!(palette_index(1), Some(1));
    assert_eq!(palette_index(4), Some(4));
    assert_eq!(palette_index(5), Some(0));
    assert_eq!(palette_index(6), None);
    assert_eq!(palette_index(100), None);
}
