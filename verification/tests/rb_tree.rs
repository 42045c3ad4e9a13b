use tree::node::{Links, Node};
use tree::rbnode::{NodeColor, RBNode};
use tree::rbtree::RBTree;
use tree::tree::Tree;

const KEYS: [i64; 20] = [9, 5, 15, 11, 19, 10, 14, 20, 13, 12, 18, 25, 6, 16, 4, 3, 2, 1, 7, 8];
const DELETED: [i64; 11] = [9, 20, 13, 6, 11, 15, 1, 2, 3, 25, 14];

fn filled(keys: &[i64]) -> RBTree {
    let mut tree = RBTree::new();
    for key in keys {
        tree.insert(*key);
    }
    tree
}

/// Black height of the subtree below a link, or `None` where the color rule,
/// the black heights or the order are broken below it.
fn checked_black_height(
    link: &Option<Box<RBNode>>,
    parent_red: bool,
    low: Option<i64>,
    high: Option<i64>,
) -> Option<u32> {
    match link {
        None => Some(0),
        Some(node) => {
            let red = node.color == NodeColor::Red;
            if red && parent_red {
                return None;
            }
            if low.map_or(false, |l| node.key <= l) || high.map_or(false, |h| node.key >= h) {
                return None;
            }
            let left = checked_black_height(&node.left, red, low, Some(node.key))?;
            let right = checked_black_height(&node.right, red, Some(node.key), high)?;
            if left != right {
                return None;
            }
            Some(left + if red { 0 } else { 1 })
        }
    }
}

fn assert_red_black(tree: &RBTree) {
    if let Some(root) = tree.get_root() {
        assert_eq!(root.color, NodeColor::Black);
    }
    assert!(checked_black_height(tree.get_root(), false, None, None).is_some());
}

fn colors_pre_order(link: &Option<Box<RBNode>>, out: &mut String) {
    if let Some(node) = link {
        out.push(if node.color == NodeColor::Red { 'R' } else { 'B' });
        colors_pre_order(&node.left, out);
        colors_pre_order(&node.right, out);
    }
}

fn colors(tree: &RBTree) -> String {
    let mut out = String::new();
    colors_pre_order(tree.get_root(), &mut out);
    out
}

#[test]
fn test_rbtree() {
    let mut rb_tree: RBTree = RBTree::new();
    let input: Vec<i64> = vec![9, 5, 15, 11, 19, 10, 14, 20, 13, 12, 18, 25, 6, 16, 4, 3, 2, 1, 7, 8];
    let mut sorted_input = input.clone();
    sorted_input.sort();
    let input_slice = input.as_slice();
    let to_delete: Vec<i64> = vec![9, 20, 13, 6, 11, 15, 1, 2, 3, 25, 14];
    let to_delete_slice = to_delete.as_slice();
    let remaining: Vec<i64> = input_slice
        .iter()
        .filter(|&x| !to_delete_slice.contains(x))
        .cloned()
        .collect();
    let remaining_slice = remaining.as_slice();

    // Initial checks
    assert_eq!(rb_tree.get_height(), 0);
    assert_eq!(rb_tree.is_empty(), true);
    assert_eq!(rb_tree.count_nodes(), 0);
    // Insert items
    for number in input_slice {
        rb_tree.insert(*number);
    }
    // Check tree properties
    assert_eq!(rb_tree.count_nodes(), input_slice.len().try_into().unwrap());
    assert_eq!(rb_tree.get_min().unwrap(), *input_slice.iter().min().unwrap());
    assert_eq!(rb_tree.get_max().unwrap(), *input_slice.iter().max().unwrap());
    assert_eq!(rb_tree.is_empty(), false);
    assert_eq!(rb_tree.get_height(), 5);
    assert_eq!(rb_tree.count_leaves(), 9);
    assert_eq!(rb_tree.in_order_traversal(), sorted_input);

    // Check if items are in the tree
    for number in input_slice {
        assert_eq!(rb_tree.contain(*number), true);
    }
    // Delete items
    for number in to_delete_slice {
        rb_tree.delete(*number);
    }
    // Check tree properties after deletion
    assert_eq!(rb_tree.count_nodes(), remaining_slice.len().try_into().unwrap());
    assert_eq!(rb_tree.get_min().unwrap(), *remaining_slice.iter().min().unwrap());
    assert_eq!(rb_tree.get_max().unwrap(), *remaining_slice.iter().max().unwrap());
    assert_eq!(rb_tree.is_empty(), false);
    assert_eq!(rb_tree.get_height(), 4);
    assert_eq!(rb_tree.count_leaves(), 4);

    // Check if items are not in the tree anymore
    for number in to_delete_slice {
        assert_eq!(rb_tree.contain(*number), false);
    }
    // Check if other items are still in the tree
    for number in remaining_slice {
        assert_eq!(rb_tree.contain(*number), true);
    }
    // Delete all items
    for number in input_slice {
        rb_tree.delete(*number);
    }
    // Check tree properties after deletion
    assert_eq!(rb_tree.get_height(), 0);
    assert_eq!(rb_tree.is_empty(), true);
    assert_eq!(rb_tree.count_nodes(), 0);
}

#[test]
fn rb_scenario_counts_and_membership() {
    let mut tree = filled(&KEYS);
    assert_eq!(tree.count_nodes(), 20);
    assert_eq!(tree.get_min(), Some(1));
    assert_eq!(tree.get_max(), Some(25));
    assert!(tree.contain(12));
    let mut sorted = KEYS.to_vec();
    sorted.sort();
    assert_eq!(tree.in_order_traversal(), sorted);
    assert_red_black(&tree);
    for key in DELETED {
        tree.delete(key);
        assert_red_black(&tree);
    }
    assert_eq!(tree.count_nodes(), 9);
    for key in DELETED {
        assert!(!tree.contain(key));
    }
    for key in [5, 19, 10, 12, 18, 16, 4, 7, 8] {
        assert!(tree.contain(key));
    }
}

#[test]
fn rb_shape_and_colors_after_inserts_and_deletes() {
    let mut tree = filled(&KEYS);
    assert_eq!(
        tree.pre_order_traversal(),
        vec![11, 5, 3, 2, 1, 4, 9, 7, 6, 8, 10, 15, 13, 12, 14, 19, 18, 16, 20, 25]
    );
    assert_eq!(colors(&tree), "BBRBRBRBRRBBBRRRBRBR");
    assert_eq!(
        tree.post_order_traversal(),
        vec![1, 2, 4, 3, 6, 8, 7, 10, 9, 5, 12, 14, 13, 16, 18, 25, 20, 19, 15, 11]
    );
    for key in DELETED {
        tree.delete(key);
    }
    assert_eq!(tree.pre_order_traversal(), vec![10, 5, 4, 8, 7, 18, 12, 16, 19]);
    assert_eq!(colors(&tree), "BBBBRBBRB");
}

#[test]
fn rb_first_node_is_a_black_root() {
    let tree = filled(&[42]);
    let root = tree.get_root().as_ref().unwrap();
    assert_eq!(root.key, 42);
    assert_eq!(root.color, NodeColor::Black);
    assert!(root.left.is_none() && root.right.is_none());
}

#[test]
fn rb_new_node_is_red() {
    let node = RBNode::new(3).unwrap();
    assert_eq!(node.color, NodeColor::Red);
    assert_eq!(node.get_key(), 3);
    assert!(node.get_left().is_none());
    assert!(node.get_right().is_none());
    assert_eq!(node.get_height(), 1);
}

#[test]
fn rb_insert_with_red_uncle_recolors() {
    let tree = filled(&[2, 1, 3, 0]);
    assert_eq!(tree.pre_order_traversal(), vec![2, 1, 0, 3]);
    assert_eq!(colors(&tree), "BBRB");
}

#[test]
fn rb_insert_with_black_uncle_rotates() {
    // Outer child: one rotation at the grandparent.
    let outer = filled(&[3, 2, 1]);
    assert_eq!(outer.pre_order_traversal(), vec![2, 1, 3]);
    assert_eq!(colors(&outer), "BRR");
    // Inner child: a rotation at the parent first.
    let inner = filled(&[3, 1, 2]);
    assert_eq!(inner.pre_order_traversal(), vec![2, 1, 3]);
    assert_eq!(colors(&inner), "BRR");
    let mirrored_outer = filled(&[1, 2, 3]);
    assert_eq!(mirrored_outer.pre_order_traversal(), vec![2, 1, 3]);
    let mirrored_inner = filled(&[1, 3, 2]);
    assert_eq!(mirrored_inner.pre_order_traversal(), vec![2, 1, 3]);
    assert_eq!(colors(&mirrored_inner), "BRR");
}

#[test]
fn rb_delete_red_leaf_needs_no_repair() {
    let mut tree = filled(&[2, 1, 3]);
    tree.delete(3);
    assert_eq!(tree.pre_order_traversal(), vec![2, 1]);
    assert_eq!(colors(&tree), "BR");
}

#[test]
fn rb_delete_root_with_one_child_keeps_a_black_root() {
    let mut tree = filled(&[2, 1]);
    tree.delete(2);
    assert_eq!(tree.pre_order_traversal(), vec![1]);
    assert_eq!(colors(&tree), "B");
    let mut mirrored = filled(&[1, 2]);
    mirrored.delete(1);
    assert_eq!(mirrored.pre_order_traversal(), vec![2]);
    assert_eq!(colors(&mirrored), "B");
}

#[test]
fn rb_delete_last_node_empties_the_tree() {
    let mut tree = filled(&[5]);
    tree.delete(5);
    assert!(tree.is_empty());
    assert!(tree.get_root().is_none());
}

#[test]
fn rb_delete_node_with_two_children_takes_predecessor() {
    let mut tree = filled(&[2, 1, 3]);
    tree.delete(2);
    assert_eq!(tree.pre_order_traversal(), vec![1, 3]);
    assert_eq!(colors(&tree), "BR");
}

#[test]
fn rb_delete_black_leaf_with_black_sibling_without_red_child() {
    // 1, 2, 3 black after 4 was inserted and deleted again.
    let mut tree = filled(&[2, 1, 3, 4]);
    tree.delete(4);
    assert_eq!(colors(&tree), "BBB");
    tree.delete(1);
    // The sibling turns red; the root stays black and is double black.
    assert_eq!(tree.pre_order_traversal(), vec![2, 3]);
    assert_eq!(colors(&tree), "BR");
}

#[test]
fn rb_delete_prefers_the_far_red_nephew() {
    let mut tree = filled(&[2, 1, 0, 3, 5]);
    assert_eq!(tree.pre_order_traversal(), vec![1, 0, 3, 2, 5]);
    assert_eq!(colors(&tree), "BBBRR");
    // 1 takes the key 0 of its predecessor, whose node leaves: that node is
    // a left child with a black sibling both of whose children are red.
    tree.delete(1);
    assert_eq!(tree.pre_order_traversal(), vec![3, 0, 2, 5]);
    assert_eq!(colors(&tree), "BBRB");
    assert_red_black(&tree);
}

#[test]
fn rb_delete_with_near_red_nephew_rotates_twice() {
    let mut tree = filled(&[2, 1, 4, 3]);
    assert_eq!(colors(&tree), "BBBR");
    tree.delete(1);
    assert_eq!(tree.pre_order_traversal(), vec![3, 2, 4]);
    assert_eq!(colors(&tree), "BBB");
    let mut mirrored = filled(&[3, 1, 4, 2]);
    mirrored.delete(4);
    assert_eq!(mirrored.pre_order_traversal(), vec![2, 1, 3]);
    assert_eq!(colors(&mirrored), "BBB");
}

#[test]
fn rb_delete_with_red_sibling_rotates_and_repairs_below() {
    let mut tree = filled(&[1, 2, 3, 4, 5, 6, 7, 8]);
    assert_red_black(&tree);
    let before = tree.pre_order_traversal();
    assert_eq!(before, vec![4, 2, 1, 3, 6, 5, 7, 8]);
    assert_eq!(colors(&tree), "BRBBRBBR");
    tree.delete(8);
    tree.delete(5);
    tree.delete(7);
    assert_red_black(&tree);
    tree.delete(6);
    // 6 was a black leaf whose sibling 2 is red.
    assert_eq!(tree.pre_order_traversal(), vec![2, 1, 4, 3]);
    assert_eq!(colors(&tree), "BBBR");
    assert_red_black(&tree);
}

#[test]
fn rb_keeps_its_invariants_under_inserts_and_deletes() {
    let mut tree = RBTree::new();
    let mut state: u64 = 987654321;
    let mut present = std::collections::BTreeSet::new();
    for _ in 0..3000 {
        state = state.wrapping_mul(6364136223846793005).wrapping_add(1442695040888963407);
        let key = ((state >> 33) % 150) as i64 - 75;
        if (state >> 20) % 5 < 2 {
            tree.delete(key);
            present.remove(&key);
        } else {
            tree.insert(key);
            present.insert(key);
        }
        assert_red_black(&tree);
        assert_eq!(tree.count_nodes() as usize, present.len());
    }
    let expected: Vec<i64> = present.iter().cloned().collect();
    assert_eq!(tree.in_order_traversal(), expected);
    for key in expected {
        tree.delete(key);
        assert_red_black(&tree);
    }
    assert!(tree.is_empty());
}

#[test]
fn rb_insert_twice_and_delete_absent_change_nothing() {
    let mut tree = filled(&KEYS);
    let shape = tree.pre_order_traversal();
    let painted = colors(&tree);
    tree.insert(12);
    tree.insert(1);
    tree.insert(25);
    assert_eq!(tree.count_nodes(), 20);
    assert_eq!(tree.pre_order_traversal(), shape);
    assert_eq!(colors(&tree), painted);
    tree.delete(0);
    tree.delete(17);
    tree.delete(26);
    assert_eq!(tree.count_nodes(), 20);
    assert_eq!(tree.pre_order_traversal(), shape);
    assert_eq!(colors(&tree), painted);
}
