use calculator::tree::BinaryTree;

fn leaf(x: i32) -> BinaryTree<i32> {
    BinaryTree::new_with_root(x, 0)
}

fn under(root: i32, left: BinaryTree<i32>, right: BinaryTree<i32>) -> BinaryTree<i32> {
    let mut tree = left;
    tree.bin(root, right);
    tree
}

fn slots(tree: &BinaryTree<i32>) -> Vec<i32> {
    let mut all = Vec::new();
    let mut k = 0;
    while k < tree.len() {
        let value = match tree.parent(2 * k + 1).1 {
            Some(v) => *v,
            None => unreachable!(),
        };
        all.push(value);
        k += 1;
    }
    all
}

fn values(visits: Vec<(usize, &i32)>) -> Vec<i32> {
    visits.into_iter().map(|v| *v.1).collect()
}

fn places(visits: Vec<(usize, &i32)>) -> Vec<usize> {
    visits.into_iter().map(|v| v.0).collect()
}

#[test]
fn new_tree_has_no_slots() {
    let tree: BinaryTree<i32> = BinaryTree::new(0);
    assert_eq!(tree.len(), 0);
    assert!(tree.traverse_postorder(0).is_empty());
    assert!(tree.traverse_inorder(0).is_empty());
    assert_eq!(tree.left(0), (None, None));
    assert_eq!(tree.right(0), (None, None));
}

#[test]
fn tree_with_root_has_one_slot() {
    let tree = leaf(7);
    assert_eq!(tree.len(), 1);
    assert_eq!(slots(&tree), vec![7]);
    assert_eq!(tree.traverse_postorder(0), vec![(0, &7)]);
    assert_eq!(tree.traverse_inorder(0), vec![(0, &7)]);
}

#[test]
fn merge_of_two_leaves() {
    let tree = under(9, leaf(1), leaf(2));
    assert_eq!(tree.len(), 3);
    assert_eq!(slots(&tree), vec![9, 1, 2]);
}

#[test]
fn merge_length_is_twice_the_longer_and_one() {
    assert_eq!(under(9, leaf(1), under(5, leaf(2), leaf(3))).len(), 7);
    assert_eq!(under(9, under(5, leaf(2), leaf(3)), leaf(1)).len(), 7);
    assert_eq!(under(9, BinaryTree::new(0), BinaryTree::new(0)).len(), 1);
    assert_eq!(under(9, BinaryTree::new(0), leaf(1)).len(), 3);
    let deep = under(1, under(2, under(3, leaf(4), leaf(5)), leaf(6)), leaf(7));
    assert_eq!(deep.len(), 15);
    assert_eq!(under(0, leaf(1), deep).len(), 31);
}

#[test]
fn merge_with_a_deeper_right_subtree() {
    let tree = under(9, leaf(1), under(5, leaf(2), leaf(3)));
    assert_eq!(slots(&tree), vec![9, 1, 5, 0, 0, 2, 3]);
}

#[test]
fn merge_with_a_deeper_left_subtree() {
    let tree = under(9, under(5, leaf(2), leaf(3)), leaf(1));
    assert_eq!(slots(&tree), vec![9, 5, 1, 2, 3, 0, 0]);
}

#[test]
fn merge_three_levels_deep() {
    let left = under(9, leaf(1), under(5, leaf(2), leaf(3)));
    let tree = under(8, left, leaf(4));
    assert_eq!(slots(&tree), vec![8, 9, 4, 1, 5, 0, 0, 0, 0, 2, 3, 0, 0, 0, 0]);
    assert_eq!(values(tree.traverse_postorder(0)), vec![1, 2, 3, 5, 9, 4, 8]);
    assert_eq!(places(tree.traverse_postorder(0)), vec![3, 9, 10, 4, 1, 2, 0]);
    assert_eq!(values(tree.traverse_inorder(0)), vec![1, 9, 2, 5, 3, 8, 4]);
    assert_eq!(places(tree.traverse_inorder(0)), vec![3, 1, 9, 4, 10, 0, 2]);
}

#[test]
fn merge_keeps_the_walks_of_both_subtrees() {
    let left = under(9, leaf(1), under(5, leaf(2), leaf(3)));
    let right = under(6, under(7, leaf(8), leaf(10)), leaf(11));
    let left_walk = values(left.traverse_postorder(0));
    let right_walk = values(right.traverse_postorder(0));
    let tree = under(4, left, right);
    let mut expected = left_walk;
    expected.extend(right_walk);
    expected.push(4);
    assert_eq!(values(tree.traverse_postorder(0)), expected);
    assert_eq!(tree.len(), 15);
}

#[test]
fn merge_hands_back_the_merged_tree() {
    let mut tree = leaf(1);
    let merged = tree.bin(9, leaf(2));
    assert_eq!(merged.len(), 3);
    assert_eq!(values(merged.traverse_postorder(0)), vec![1, 2, 9]);
}

#[test]
fn walk_from_a_subtree() {
    let tree = under(9, leaf(1), under(5, leaf(2), leaf(3)));
    assert_eq!(tree.traverse_postorder(2), vec![(5, &2), (6, &3), (2, &5)]);
    assert_eq!(tree.traverse_inorder(2), vec![(5, &2), (2, &5), (6, &3)]);
    assert_eq!(tree.traverse_postorder(1), vec![(1, &1)]);
    assert!(tree.traverse_postorder(3).is_empty());
    assert!(tree.traverse_postorder(7).is_empty());
    assert!(tree.traverse_inorder(usize::MAX).is_empty());
}

#[test]
fn vacant_slot_hides_what_lies_below() {
    let hidden = under(0, leaf(1), leaf(2));
    assert_eq!(slots(&hidden), vec![0, 1, 2]);
    assert!(hidden.traverse_postorder(0).is_empty());
    assert_eq!(hidden.traverse_postorder(1), vec![(1, &1)]);

    let tree = under(9, leaf(7), hidden);
    assert_eq!(slots(&tree), vec![9, 7, 0, 0, 0, 1, 2]);
    assert_eq!(values(tree.traverse_postorder(0)), vec![7, 9]);
    assert_eq!(values(tree.traverse_inorder(0)), vec![7, 9]);
    assert_eq!(tree.right(0), (None, None));
    assert_eq!(tree.left(2), (Some(5), Some(&1)));
}

#[test]
fn children_and_parents() {
    let tree = under(9, leaf(1), under(5, leaf(2), leaf(3)));
    assert_eq!(tree.left(0), (Some(1), Some(&1)));
    assert_eq!(tree.right(0), (Some(2), Some(&5)));
    assert_eq!(tree.left(1), (None, None));
    assert_eq!(tree.right(1), (None, None));
    assert_eq!(tree.left(2), (Some(5), Some(&2)));
    assert_eq!(tree.right(2), (Some(6), Some(&3)));
    assert_eq!(tree.left(3), (None, None));
    assert_eq!(tree.right(usize::MAX), (None, None));
    assert_eq!(tree.parent(0), (None, None));
    assert_eq!(tree.parent(1), (Some(0), Some(&9)));
    assert_eq!(tree.parent(2), (Some(0), Some(&9)));
    assert_eq!(tree.parent(6), (Some(2), Some(&5)));
    assert_eq!(tree.parent(4), (Some(1), Some(&1)));
    assert_eq!(tree.parent(20), (Some(9), None));
}

#[test]
fn slot_arithmetic() {
    assert_eq!(BinaryTree::<i32>::left_idx(0), 1);
    assert_eq!(BinaryTree::<i32>::right_idx(0), 2);
    assert_eq!(BinaryTree::<i32>::left_idx(3), 7);
    assert_eq!(BinaryTree::<i32>::right_idx(3), 8);
    assert_eq!(BinaryTree::<i32>::parent_idx(0), None);
    assert_eq!(BinaryTree::<i32>::parent_idx(1), Some(0));
    assert_eq!(BinaryTree::<i32>::parent_idx(2), Some(0));
    assert_eq!(BinaryTree::<i32>::parent_idx(7), Some(3));
    assert_eq!(BinaryTree::<i32>::parent_idx(8), Some(3));
}

#[test]
fn clone_keeps_the_slots() {
    let tree = under(9, leaf(1), under(5, leaf(2), leaf(3)));
    let copy = tree.clone();
    assert_eq!(slots(&copy), slots(&tree));
    assert_eq!(values(copy.traverse_postorder(0)), vec![1, 2, 3, 5, 9]);
}

#[test]
fn sentinel_is_the_one_given() {
    let mut tree = BinaryTree::new_with_root(3, -1);
    tree.bin(0, BinaryTree::new_with_root(4, -1));
    let mut taller = BinaryTree::new_with_root(5, -1);
    taller.bin(6, tree);
    assert_eq!(
        taller.traverse_postorder(0),
        vec![(1, &5), (5, &3), (6, &4), (2, &0), (0, &6)]
    );
    assert_eq!(taller.left(1), (None, None));
    assert_eq!(taller.parent(7), (Some(3), Some(&-1)));
}
