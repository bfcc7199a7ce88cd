use quadtree_lod::player::Player;
use quadtree_lod::quadtree::QuadTree;

#[test]
fn new_player_has_no_cached_leaf() {
    let p = Player::new(7, -2);
    assert_eq!((p.x, p.z), (7, -2));
    assert!(p.current_bounds.is_none());
    assert!(p.get_bounds().is_none());
    assert!(!p.is_in_bounds());
}

#[test]
fn move_player_translates_the_position() {
    let mut p = Player::new(0, 0);
    p.move_player(3, -4);
    assert_eq!((p.x, p.z), (3, -4));
    p.move_player(-1, 10);
    assert_eq!((p.x, p.z), (2, 6));
}

#[test]
fn reset_pos_returns_to_origin_and_forgets_the_cache() {
    let mut p = Player::new(5, 5);
    let leaf = QuadTree::new(4, 4, 4, 1);
    p.set_bounds(&leaf);
    p.reset_pos();
    assert_eq!((p.x, p.z), (0, 0));
    assert!(p.current_bounds.is_none());
}

#[test]
fn set_bounds_caches_a_copy() {
    let mut p = Player::new(0, 0);
    let leaf = QuadTree::new(2, 2, 2, 3);
    p.set_bounds(&leaf);
    let cached = p.get_bounds().expect("bounds were just cached");
    assert_eq!((cached.x, cached.z, cached.half_length, cached.depth), (2, 2, 2, 3));
    assert!(cached.children.is_none());
}

#[test]
fn is_in_bounds_checks_the_cached_leaf() {
    let mut p = Player::new(3, 3);
    assert!(!p.is_in_bounds());
    let leaf = QuadTree::new(4, 4, 4, 1);
    p.set_bounds(&leaf);
    assert!(p.is_in_bounds());
    p.move_player(100, 0);
    assert!(!p.is_in_bounds());
}

#[test]
fn step_caches_the_target_depth_leaf_containing_the_position() {
    let mut root = QuadTree::new(0, 0, 16, 0);
    let mut p = Player::new(10, 10);
    p.step(&mut root, 3);
    let cached = p.get_bounds().expect("step resolves a containing leaf");
    assert!(cached.check_bounds(10, 10));
    assert_eq!(cached.depth, 3);
    assert_eq!((cached.x, cached.z, cached.half_length), (10, 10, 2));
}

#[test]
fn step_does_nothing_while_the_position_stays_inside() {
    let mut root = QuadTree::new(0, 0, 16, 0);
    let mut p = Player::new(10, 10);
    p.step(&mut root, 3);
    let count = root.get_children_count();
    let cached = p.get_bounds().unwrap();
    // a small move that stays inside the cached leaf
    p.move_player(1, 0);
    p.step(&mut root, 3);
    assert_eq!(root.get_children_count(), count);
    let cached_after = p.get_bounds().unwrap();
    assert_eq!((cached.x, cached.z, cached.depth), (cached_after.x, cached_after.z, cached_after.depth));
}

#[test]
fn step_rebuilds_after_leaving_the_cached_leaf() {
    let mut root = QuadTree::new(0, 0, 16, 0);
    let mut p = Player::new(10, 10);
    p.step(&mut root, 3);
    // move outside the cached leaf: the next step clears and fully regrows
    p.move_player(-20, -20);
    p.step(&mut root, 3);
    let cached = p.get_bounds().expect("rebuild resolves a new leaf");
    assert!(cached.check_bounds(-10, -10));
    assert_eq!(cached.depth, 3);
    // the regrown tree has exactly as many leaves as a fresh refinement
    // around the new position
    let mut fresh = QuadTree::new(0, 0, 16, 0);
    fresh.subdivide_until_depth(-10, -10, 3);
    assert_eq!(root.get_children_count(), fresh.get_children_count());
}

#[test]
fn step_breaks_boundary_ties_by_enumeration_order() {
    let mut root = QuadTree::new(0, 0, 16, 0);
    let mut p = Player::new(0, 0);
    p.step(&mut root, 1);
    // (0,0) lies on all four depth-1 leaves; the first in enumeration order
    // (the top-right child) is kept
    let cached = p.get_bounds().unwrap();
    assert_eq!((cached.x, cached.z, cached.depth), (8, 8, 1));
}

#[test]
fn step_with_target_depth_zero_caches_the_root() {
    let mut root = QuadTree::new(0, 0, 16, 0);
    let mut p = Player::new(3, 3);
    p.step(&mut root, 0);
    // the root itself is the resolution limit: it stays a leaf and is cached
    assert!(root.children.is_none());
    let cached = p.get_bounds().unwrap();
    assert_eq!((cached.x, cached.z, cached.depth, cached.half_length), (0, 0, 0, 16));
}
