use std::rc::Rc;

use persistent_segment_tree::persistent::{PersistentSegmentTree, TreeError};
use persistent_segment_tree::segment_tree::SegmentTree;

fn demo_tree() -> PersistentSegmentTree {
    let mut tree = PersistentSegmentTree::new(1, 9);
    assert_eq!(tree.add(2, 1, 0), Ok(1));
    assert_eq!(tree.add(4, 1, 1), Ok(2));
    assert_eq!(tree.add(5, 1, 2), Ok(3));
    assert_eq!(tree.add(7, 1, 3), Ok(4));
    assert_eq!(tree.add(8, 10, 4), Ok(5));
    tree
}

#[test]
fn demo_scenario_sums() {
    let tree = demo_tree();
    let expected = [0, 1, 2, 3, 4, 14];
    for (version, want) in expected.iter().enumerate() {
        assert_eq!(tree.sum(version, 1, 9), Ok(*want));
    }
    assert_eq!(tree.roots.len(), 6);
}

#[test]
fn demo_scenario_step_by_step() {
    let mut tree = PersistentSegmentTree::new(1, 9);
    assert_eq!(tree.sum(0, 1, 9), Ok(0));
    assert_eq!(tree.add(2, 1, 0), Ok(1));
    assert_eq!(tree.sum(1, 1, 9), Ok(1));
    assert_eq!(tree.add(4, 1, 1), Ok(2));
    assert_eq!(tree.sum(2, 1, 9), Ok(2));
    assert_eq!(tree.add(5, 1, 2), Ok(3));
    assert_eq!(tree.sum(3, 1, 9), Ok(3));
    assert_eq!(tree.add(7, 1, 3), Ok(4));
    assert_eq!(tree.sum(4, 1, 9), Ok(4));
    assert_eq!(tree.add(8, 10, 4), Ok(5));
    assert_eq!(tree.sum(5, 1, 9), Ok(14));
    assert_eq!(tree.sum(1, 1, 9), Ok(1));
}

#[test]
fn partial_ranges_in_demo() {
    let tree = demo_tree();
    assert_eq!(tree.sum(5, 1, 5), Ok(2));
    assert_eq!(tree.sum(5, 5, 9), Ok(12));
    assert_eq!(tree.sum(5, 8, 9), Ok(10));
    assert_eq!(tree.sum(5, 3, 4), Ok(0));
    assert_eq!(tree.sum(5, 2, 3), Ok(1));
    assert_eq!(tree.sum(3, 4, 8), Ok(2));
    assert_eq!(tree.sum(5, 6, 6), Ok(0));
    assert_eq!(tree.sum(5, 7, 3), Ok(0));
}

#[test]
fn ranges_beyond_the_domain_are_clipped() {
    let tree = demo_tree();
    assert_eq!(tree.sum(5, 0, 100), Ok(14));
    assert_eq!(tree.sum(5, 0, 3), Ok(1));
    assert_eq!(tree.sum(5, 9, 20), Ok(0));
}

#[test]
fn branching_from_an_old_version() {
    let mut tree = demo_tree();
    assert_eq!(tree.add(3, 100, 1), Ok(6));
    assert_eq!(tree.sum(6, 1, 9), Ok(101));
    assert_eq!(tree.sum(6, 4, 9), Ok(0));
    assert_eq!(tree.sum(6, 2, 4), Ok(101));
    assert_eq!(tree.sum(5, 1, 9), Ok(14));
}

#[test]
fn later_updates_leave_old_versions_alone() {
    let mut tree = demo_tree();
    let before: Vec<i32> = (0..6).map(|v| tree.sum(v, 1, 9).unwrap()).collect();
    assert_eq!(tree.add(6, -7, 2), Ok(6));
    assert_eq!(tree.add(1, 5, 0), Ok(7));
    let after: Vec<i32> = (0..6).map(|v| tree.sum(v, 1, 9).unwrap()).collect();
    assert_eq!(before, after);
    assert_eq!(tree.sum(6, 1, 9), Ok(-5));
    assert_eq!(tree.sum(7, 1, 9), Ok(5));
}

#[test]
fn version_numbers_count_up() {
    let mut tree = PersistentSegmentTree::new(0, 4);
    for expected in 1..20usize {
        let base = expected / 2;
        assert_eq!(tree.add(expected % 4, 1, base), Ok(expected));
        assert_eq!(tree.roots.len(), expected + 1);
    }
}

#[test]
fn new_tree_is_all_zero() {
    let tree = PersistentSegmentTree::new(3, 17);
    assert_eq!(tree.roots.len(), 1);
    assert_eq!(tree.sum(0, 3, 17), Ok(0));
    assert_eq!(tree.sum(0, 5, 6), Ok(0));
}

#[test]
fn unknown_version_is_refused() {
    let mut tree = demo_tree();
    assert_eq!(tree.add(2, 1, 6), Err(TreeError::VersionOutOfRange));
    assert_eq!(tree.add(2, 1, usize::MAX), Err(TreeError::VersionOutOfRange));
    assert_eq!(tree.sum(6, 1, 9), Err(TreeError::VersionOutOfRange));
    assert_eq!(tree.roots.len(), 6);
}

#[test]
fn position_outside_domain_is_refused() {
    let mut tree = demo_tree();
    assert_eq!(tree.add(0, 1, 0), Err(TreeError::PositionOutOfRange));
    assert_eq!(tree.add(9, 1, 0), Err(TreeError::PositionOutOfRange));
    assert_eq!(tree.roots.len(), 6);
}

#[test]
fn overflowing_update_is_refused() {
    let mut tree = PersistentSegmentTree::new(0, 2);
    assert_eq!(tree.add(0, i32::MAX, 0), Ok(1));
    assert_eq!(tree.add(1, 1, 1), Err(TreeError::Overflow));
    assert_eq!(tree.roots.len(), 2);
    assert_eq!(tree.add(1, 1, 0), Ok(2));
    assert_eq!(tree.sum(2, 0, 2), Ok(1));
}

#[test]
fn overflowing_query_is_refused() {
    let mut tree = PersistentSegmentTree::new(0, 3);
    assert_eq!(tree.add(2, -i32::MAX, 0), Ok(1));
    assert_eq!(tree.add(1, i32::MAX, 1), Ok(2));
    assert_eq!(tree.add(0, i32::MAX, 2), Ok(3));
    assert_eq!(tree.sum(3, 0, 3), Ok(i32::MAX));
    assert_eq!(tree.sum(3, 0, 2), Err(TreeError::Overflow));
    assert_eq!(tree.sum(3, 1, 3), Ok(0));
    assert_eq!(tree.sum(3, 0, 1), Ok(i32::MAX));
}

#[test]
fn single_index_domain() {
    let mut tree = PersistentSegmentTree::new(5, 6);
    assert!(tree.roots[0].children.is_none());
    assert_eq!(tree.add(5, -3, 0), Ok(1));
    assert_eq!(tree.add(5, -4, 1), Ok(2));
    assert_eq!(tree.sum(2, 5, 6), Ok(-7));
    assert_eq!(tree.sum(1, 0, 10), Ok(-3));
    assert_eq!(tree.sum(2, 6, 10), Ok(0));
}

#[test]
fn extreme_bounds() {
    let mut tree = PersistentSegmentTree::new(usize::MAX - 3, usize::MAX);
    assert_eq!(tree.add(usize::MAX - 1, 9, 0), Ok(1));
    assert_eq!(tree.sum(1, 0, usize::MAX), Ok(9));
    assert_eq!(tree.sum(1, usize::MAX - 3, usize::MAX - 1), Ok(0));
}

fn children(node: &SegmentTree) -> (&Rc<SegmentTree>, &Rc<SegmentTree>) {
    let (l, r) = node.children.as_ref().unwrap();
    (l, r)
}

#[test]
fn update_shares_subtrees_off_the_path() {
    let mut tree = demo_tree();
    assert_eq!(tree.add(3, 5, 5), Ok(6));
    let old = &tree.roots[5];
    let new = &tree.roots[6];
    // [1, 9) splits at 5; 3 lies in [1, 5), so the right half is shared.
    let (old_l, old_r) = children(old);
    let (new_l, new_r) = children(new);
    assert!(Rc::ptr_eq(old_r, new_r));
    assert!(!Rc::ptr_eq(old_l, new_l));
    // [1, 5) splits at 3; 3 lies in [3, 5), so the left quarter is shared.
    let (old_ll, old_lr) = children(old_l);
    let (new_ll, new_lr) = children(new_l);
    assert!(Rc::ptr_eq(old_ll, new_ll));
    assert!(!Rc::ptr_eq(old_lr, new_lr));
    // [3, 5) splits at 4; 3 lies in [3, 4), so the leaf of 4 is shared.
    let (old_a, old_b) = children(old_lr);
    let (new_a, new_b) = children(new_lr);
    assert!(Rc::ptr_eq(old_b, new_b));
    assert!(!Rc::ptr_eq(old_a, new_a));
    assert_eq!(new_a.sum, old_a.sum + 5);
    assert_eq!(new.sum, old.sum + 5);
}

#[test]
fn node_layout_splits_at_the_middle() {
    let node = SegmentTree::new(1, 9);
    assert_eq!((node.left_bound, node.right_bound, node.sum), (1, 9, 0));
    let (l, r) = children(&node);
    assert_eq!((l.left_bound, l.right_bound), (1, 5));
    assert_eq!((r.left_bound, r.right_bound), (5, 9));
    let odd = SegmentTree::new(0, 5);
    let (l, r) = children(&odd);
    assert_eq!((l.left_bound, l.right_bound), (0, 2));
    assert_eq!((r.left_bound, r.right_bound), (2, 5));
    let leaf = SegmentTree::new(4, 5);
    assert!(leaf.children.is_none());
}

#[test]
fn node_add_and_sum() {
    let mut node = SegmentTree::new(0, 10);
    assert!(node.can_add(7, 4));
    node.add(7, 4);
    node.add(2, -1);
    node.add(7, 6);
    assert_eq!(node.sum, 9);
    assert_eq!(node.sum(0, 10), 9);
    assert_eq!(node.sum(0, 7), -1);
    assert_eq!(node.sum(7, 8), 10);
    assert_eq!(node.sum(3, 7), 0);
    assert_eq!(node.window(0, 10), 9);
}

#[test]
fn node_updated_leaves_input_unchanged() {
    let node = SegmentTree::new(0, 4);
    let next = node.updated(1, 3);
    assert_eq!(node.sum(0, 4), 0);
    assert_eq!(next.sum(0, 4), 3);
    assert_eq!(next.sum(1, 2), 3);
    assert_eq!(next.sum(2, 4), 0);
}

#[test]
fn node_can_add_detects_overflow() {
    let mut node = SegmentTree::new(0, 4);
    node.add(0, i32::MAX);
    assert!(!node.can_add(3, 1));
    assert!(node.can_add(3, -1));
    assert!(SegmentTree::new(0, 1).can_add(0, i32::MIN));
}

#[test]
fn node_window_exceeds_i32() {
    let mut node = SegmentTree::new(0, 4);
    node.add(0, -i32::MAX);
    node.add(1, i32::MAX);
    node.add(2, i32::MAX);
    node.add(3, -i32::MAX);
    // Every node sum fits in i32; the sum over [1, 3) does not.
    assert_eq!(node.window(1, 3), 2 * i32::MAX as i128);
    assert_eq!(node.sum(0, 4), 0);
    assert_eq!(node.sum(1, 2), i32::MAX);
}
