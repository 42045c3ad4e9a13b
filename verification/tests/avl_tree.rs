use tree::avlnode::AVLNode;
use tree::avltree::AVLTree;
use tree::node::{Links, Node};
use tree::tree::Tree;

const KEYS: [i64; 20] = [9, 5, 15, 11, 19, 10, 14, 20, 13, 12, 18, 25, 6, 16, 4, 3, 2, 1, 7, 8];
const DELETED: [i64; 11] = [9, 20, 13, 6, 11, 15, 1, 2, 3, 25, 14];

fn filled(keys: &[i64]) -> AVLTree {
    let mut tree = AVLTree::new();
    for key in keys {
        tree.insert(*key);
    }
    tree
}

/// Height of the subtree below a link, or `None` where some node below it
/// is out of balance or out of order.
fn checked_height(link: &Option<Box<AVLNode>>, low: Option<i64>, high: Option<i64>) -> Option<u32> {
    match link {
        None => Some(0),
        Some(node) => {
            let key = node.get_key();
            if low.map_or(false, |l| key <= l) || high.map_or(false, |h| key >= h) {
                return None;
            }
            let left = checked_height(node.get_left(), low, Some(key))?;
            let right = checked_height(node.get_right(), Some(key), high)?;
            if left > right + 1 || right > left + 1 {
                return None;
            }
            let height = 1 + left.max(right);
            if node.get_height() != height {
                return None;
            }
            Some(height)
        }
    }
}

fn assert_balanced(tree: &AVLTree) {
    assert!(checked_height(tree.get_root(), None, None).is_some());
}

#[test]
fn test_avl() {
    let mut avl_tree = AVLTree::new();
    let input: Vec<i64> = vec![9, 5, 15, 11, 19, 10, 14, 20, 13, 12, 18, 25, 6, 16, 4, 3, 2, 1, 7, 8];
    let mut sorted_input = input.clone();
    sorted_input.sort();
    let input_slice = input.as_slice();
    let to_delete: Vec<i64> = vec![9, 20, 13, 6, 11, 15, 1, 2, 3, 25, 14];
    let to_delete_slice = to_delete.as_slice();
    let remaining: Vec<i64> = input_slice
        .iter()
        .filter(|&x| !to_delete_slice.contains(x))
        .cloned()
        .collect();
    let remaining_slice = remaining.as_slice();

    // Initial checks
    assert_eq!(avl_tree.get_height(), 0);
    assert_eq!(avl_tree.is_empty(), true);
    assert_eq!(avl_tree.count_nodes(), 0);
    // Insert items
    for number in input_slice {
        avl_tree.insert(*number);
    }
    // Check tree properties
    assert_eq!(avl_tree.count_nodes(), input_slice.len().try_into().unwrap());
    assert_eq!(avl_tree.get_min().unwrap(), *input_slice.iter().min().unwrap());
    assert_eq!(avl_tree.get_max().unwrap(), *input_slice.iter().max().unwrap());
    assert_eq!(avl_tree.is_empty(), false);
    assert_eq!(avl_tree.get_height(), 5);
    assert_eq!(avl_tree.count_leaves(), 9);
    assert_eq!(avl_tree.in_order_traversal(), sorted_input);

    // Check if items are in the tree
    for number in input_slice {
        assert_eq!(avl_tree.contain(*number), true);
    }
    // Delete items
    for number in to_delete_slice {
        avl_tree.delete(*number);
    }
    // Check tree properties after deletion
    assert_eq!(avl_tree.count_nodes(), remaining_slice.len().try_into().unwrap());
    assert_eq!(avl_tree.get_min().unwrap(), *remaining_slice.iter().min().unwrap());
    assert_eq!(avl_tree.get_max().unwrap(), *remaining_slice.iter().max().unwrap());
    assert_eq!(avl_tree.is_empty(), false);
    assert_eq!(avl_tree.get_height(), 4);
    assert_eq!(avl_tree.count_leaves(), 5);
    // Check if items are not in the tree anymore
    for number in to_delete_slice {
        assert_eq!(avl_tree.contain(*number), false);
    }
    // Check if other items are still in the tree
    for number in remaining_slice {
        assert_eq!(avl_tree.contain(*number), true);
    }
    // Delete all items
    for number in input_slice {
        avl_tree.delete(*number);
    }
    // Check tree properties after deletion
    assert_eq!(avl_tree.get_height(), 0);
    assert_eq!(avl_tree.is_empty(), true);
    assert_eq!(avl_tree.count_nodes(), 0);
}

#[test]
fn avl_scenario_counts_and_membership() {
    let mut tree = filled(&KEYS);
    assert_eq!(tree.count_nodes(), 20);
    assert_eq!(tree.get_min(), Some(1));
    assert_eq!(tree.get_max(), Some(25));
    assert_eq!(tree.count_leaves(), 9);
    assert!(tree.contain(12));
    let mut sorted = KEYS.to_vec();
    sorted.sort();
    assert_eq!(tree.in_order_traversal(), sorted);
    for key in DELETED {
        tree.delete(key);
    }
    assert_eq!(tree.count_nodes(), 9);
    for key in DELETED {
        assert!(!tree.contain(key));
    }
    for key in [5, 19, 10, 12, 18, 16, 4, 7, 8] {
        assert!(tree.contain(key));
    }
}

#[test]
fn avl_shape_after_inserts_and_deletes() {
    let mut tree = filled(&KEYS);
    assert_eq!(
        tree.pre_order_traversal(),
        vec![11, 5, 3, 2, 1, 4, 9, 7, 6, 8, 10, 15, 13, 12, 14, 19, 18, 16, 20, 25]
    );
    assert_eq!(
        tree.post_order_traversal(),
        vec![1, 2, 4, 3, 6, 8, 7, 10, 9, 5, 12, 14, 13, 16, 18, 25, 20, 19, 15, 11]
    );
    for key in DELETED {
        tree.delete(key);
    }
    assert_eq!(tree.pre_order_traversal(), vec![12, 5, 4, 8, 7, 10, 18, 16, 19]);
}

#[test]
fn avl_stays_balanced_under_inserts_and_deletes() {
    let mut tree = AVLTree::new();
    let mut state: u64 = 12345;
    let mut present = std::collections::BTreeSet::new();
    for step in 0..2000 {
        state = state.wrapping_mul(6364136223846793005).wrapping_add(1442695040888963407);
        let key = ((state >> 33) % 200) as i64 - 100;
        if (state >> 20) % 3 == 0 {
            tree.delete(key);
            present.remove(&key);
        } else {
            tree.insert(key);
            present.insert(key);
        }
        if step % 50 == 0 {
            assert_balanced(&tree);
        }
        assert_eq!(tree.count_nodes() as usize, present.len());
    }
    assert_balanced(&tree);
    let expected: Vec<i64> = present.iter().cloned().collect();
    assert_eq!(tree.in_order_traversal(), expected);
}

#[test]
fn avl_single_rotations() {
    let left_heavy = filled(&[3, 2, 1]);
    assert_eq!(left_heavy.pre_order_traversal(), vec![2, 1, 3]);
    assert_eq!(left_heavy.get_height(), 2);
    let right_heavy = filled(&[1, 2, 3]);
    assert_eq!(right_heavy.pre_order_traversal(), vec![2, 1, 3]);
    assert_eq!(right_heavy.get_height(), 2);
}

#[test]
fn avl_double_rotations() {
    let left_right = filled(&[3, 1, 2]);
    assert_eq!(left_right.pre_order_traversal(), vec![2, 1, 3]);
    let right_left = filled(&[1, 3, 2]);
    assert_eq!(right_left.pre_order_traversal(), vec![2, 1, 3]);
}

#[test]
fn avl_delete_node_with_two_children_takes_successor_and_rebalances() {
    // 4 has two children; its successor 5 is the only node to its right.
    let mut tree = filled(&[4, 2, 5, 1, 3]);
    tree.delete(4);
    assert_eq!(tree.in_order_traversal(), vec![1, 2, 3, 5]);
    assert_eq!(tree.pre_order_traversal(), vec![2, 1, 5, 3]);
    assert_eq!(tree.get_height(), 3);
    assert_balanced(&tree);
}

#[test]
fn avl_delete_leaf_and_single_child_nodes() {
    let mut tree = filled(&[2, 1, 3, 4]);
    tree.delete(3);
    assert_eq!(tree.pre_order_traversal(), vec![2, 1, 4]);
    tree.delete(1);
    assert_eq!(tree.pre_order_traversal(), vec![2, 4]);
    tree.delete(2);
    assert_eq!(tree.pre_order_traversal(), vec![4]);
    tree.delete(4);
    assert!(tree.is_empty());
}

#[test]
fn avl_delete_rotation_is_chosen_by_child_heights() {
    // Deleting 4 leaves the left side two levels higher; the left child leans
    // to neither side, so a single rotation is taken and the height stays.
    let mut tree = filled(&[3, 2, 4, 1]);
    tree.insert(0);
    tree.delete(4);
    assert_balanced(&tree);
    assert_eq!(tree.in_order_traversal(), vec![0, 1, 2, 3]);
    // The left child leans inward: a double rotation.
    let mut inward = filled(&[5, 2, 6, 1, 3, 7, 4]);
    inward.delete(7);
    inward.delete(6);
    assert_balanced(&inward);
    assert_eq!(inward.pre_order_traversal(), vec![3, 2, 1, 5, 4]);
}

#[test]
fn avl_insert_twice_and_delete_absent_change_nothing() {
    let mut tree = filled(&KEYS);
    let before = tree.pre_order_traversal();
    tree.insert(12);
    assert_eq!(tree.count_nodes(), 20);
    assert_eq!(tree.pre_order_traversal(), before);
    tree.delete(100);
    tree.delete(-5);
    tree.delete(17);
    assert_eq!(tree.count_nodes(), 20);
    assert_eq!(tree.pre_order_traversal(), before);
}

#[test]
fn avl_node_insert_and_delete_return_the_subtree_root() {
    let mut root = AVLNode::insert(None, 10);
    assert_eq!(root.as_ref().unwrap().get_key(), 10);
    assert_eq!(root.as_ref().unwrap().get_height(), 1);
    root = AVLNode::insert(root, 20);
    root = AVLNode::insert(root, 30);
    let node = root.as_ref().unwrap();
    assert_eq!(node.key, 20);
    assert_eq!(node.get_left().as_ref().unwrap().get_key(), 10);
    assert_eq!(node.get_right().as_ref().unwrap().get_key(), 30);
    assert_eq!(node.count_nodes(), 3);
    assert_eq!(node.count_leaves(), 2);
    assert_eq!(node.get_min(), 10);
    assert_eq!(node.get_max(), 30);
    assert!(node.contains(30));
    assert!(!node.contains(25));
    root = AVLNode::delete(root, 20);
    assert_eq!(root.as_ref().unwrap().get_key(), 30);
    root = AVLNode::delete(root, 30);
    root = AVLNode::delete(root, 10);
    assert!(root.is_none());
    assert!(AVLNode::delete(None, 1).is_none());
}

#[test]
fn avl_new_node_is_a_leaf() {
    let node = AVLNode::new(7).unwrap();
    assert_eq!(node.get_key(), 7);
    assert!(node.get_left().is_none());
    assert!(node.get_right().is_none());
    assert_eq!(node.get_height(), 1);
    assert_eq!(node.count_leaves(), 1);
}

#[test]
fn avl_extreme_keys() {
    let mut tree = filled(&[0, i64::MAX, i64::MIN]);
    assert_eq!(tree.get_min(), Some(i64::MIN));
    assert_eq!(tree.get_max(), Some(i64::MAX));
    assert!(tree.contain(i64::MIN));
    tree.delete(i64::MIN);
    assert_eq!(tree.in_order_traversal(), vec![0, i64::MAX]);
}
