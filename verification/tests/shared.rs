use tree::avlnode::AVLNode;
use tree::avltree::AVLTree;
use tree::node::{Links, Node};
use tree::rbnode::RBNode;
use tree::rbtree::RBTree;
use tree::tree::Tree;

fn check_empty<TN: Node, T: Tree<TN>>(tree: &T) {
    assert!(tree.is_empty());
    assert!(tree.get_root().is_none());
    assert_eq!(tree.get_height(), 0);
    assert_eq!(tree.get_min(), None);
    assert_eq!(tree.get_max(), None);
    assert_eq!(tree.count_leaves(), 0);
    assert_eq!(tree.count_nodes(), 0);
    assert!(!tree.contain(0));
    assert_eq!(tree.in_order_traversal(), Vec::<i64>::new());
    assert_eq!(tree.pre_order_traversal(), Vec::<i64>::new());
    assert_eq!(tree.post_order_traversal(), Vec::<i64>::new());
    let (found, last) = tree.search(3);
    assert!(!found);
    assert!(last.is_none());
}

fn check_walks<TN: Node, T: Tree<TN>>() {
    let mut tree = T::new();
    for key in [4, 2, 6, 1, 3, 5, 7] {
        tree.insert(key);
    }
    assert_eq!(tree.in_order_traversal(), vec![1, 2, 3, 4, 5, 6, 7]);
    assert_eq!(tree.pre_order_traversal(), vec![4, 2, 1, 3, 6, 5, 7]);
    assert_eq!(tree.post_order_traversal(), vec![1, 3, 2, 5, 7, 6, 4]);
    assert_eq!(tree.get_height(), 3);
    assert_eq!(tree.count_leaves(), 4);
    assert_eq!(tree.count_nodes(), 7);
    assert_eq!(tree.get_min(), Some(1));
    assert_eq!(tree.get_max(), Some(7));
    assert!(!tree.is_empty());
}

fn check_walks_agree<TN: Node, T: Tree<TN>>(keys: &[i64]) {
    let mut tree = T::new();
    for key in keys {
        tree.insert(*key);
    }
    let count = tree.count_nodes() as usize;
    let in_order = tree.in_order_traversal();
    let mut pre_order = tree.pre_order_traversal();
    let mut post_order = tree.post_order_traversal();
    assert_eq!(in_order.len(), count);
    assert_eq!(pre_order.len(), count);
    assert_eq!(post_order.len(), count);
    pre_order.sort();
    post_order.sort();
    assert_eq!(pre_order, in_order);
    assert_eq!(post_order, in_order);
    for pair in in_order.windows(2) {
        assert!(pair[0] < pair[1]);
    }
}

fn check_search<TN: Node, T: Tree<TN>>() {
    let mut tree = T::new();
    for key in [4, 2, 6, 1, 3, 5, 7] {
        tree.insert(key);
    }
    let (found, node) = tree.search(3);
    assert!(found);
    assert_eq!(node.unwrap().get_key(), 3);
    let (found, node) = tree.search(4);
    assert!(found);
    assert_eq!(node.unwrap().get_key(), 4);
    // 8 would become the right child of 7, 0 the left child of 1.
    let (found, node) = tree.search(8);
    assert!(!found);
    assert_eq!(node.unwrap().get_key(), 7);
    let (found, node) = tree.search(0);
    assert!(!found);
    assert_eq!(node.unwrap().get_key(), 1);
    tree.delete(5);
    let (found, node) = tree.search(5);
    assert!(!found);
    assert_eq!(node.unwrap().get_key(), 6);
    assert!(node.unwrap().get_left().is_none());
}

fn check_round_trip<TN: Node, T: Tree<TN>>(keys: &[i64]) {
    let mut tree = T::new();
    for key in keys {
        tree.insert(*key);
    }
    assert_eq!(tree.count_nodes() as usize, keys.len());
    for key in keys.iter().rev() {
        tree.delete(*key);
    }
    assert!(tree.is_empty());
    assert_eq!(tree.get_height(), 0);
    assert_eq!(tree.count_nodes(), 0);
}

fn check_idempotence<TN: Node, T: Tree<TN>>() {
    let mut tree = T::new();
    tree.insert(5);
    tree.insert(3);
    let once = tree.count_nodes();
    tree.insert(3);
    assert_eq!(tree.count_nodes(), once);
    tree.delete(4);
    assert_eq!(tree.count_nodes(), once);
    tree.delete(3);
    assert_eq!(tree.count_nodes(), once - 1);
    tree.delete(3);
    assert_eq!(tree.count_nodes(), once - 1);
}

#[test]
fn empty_avl_tree_answers() {
    check_empty::<AVLNode, AVLTree>(&AVLTree::new());
}

#[test]
fn empty_rb_tree_answers() {
    check_empty::<RBNode, RBTree>(&RBTree::new());
}

#[test]
fn deleting_from_an_empty_tree_leaves_it_empty() {
    let mut avl = AVLTree::new();
    avl.delete(1);
    check_empty::<AVLNode, AVLTree>(&avl);
    let mut rb = RBTree::new();
    rb.delete(1);
    check_empty::<RBNode, RBTree>(&rb);
}

#[test]
fn walks_of_a_full_tree_of_seven() {
    check_walks::<AVLNode, AVLTree>();
    check_walks::<RBNode, RBTree>();
}

#[test]
fn walks_agree_with_the_node_count() {
    let keys = [50, 20, 70, 10, 30, 60, 80, 5, 15, 25, 35, 65, -3, 0, 99, 20, 70];
    check_walks_agree::<AVLNode, AVLTree>(&keys);
    check_walks_agree::<RBNode, RBTree>(&keys);
}

#[test]
fn search_returns_the_match_or_the_would_be_parent() {
    check_search::<AVLNode, AVLTree>();
    check_search::<RBNode, RBTree>();
}

#[test]
fn inserting_then_deleting_all_keys_empties_the_tree() {
    let keys = [9, 5, 15, 11, 19, 10, 14, 20, 13, 12, 18, 25, 6, 16, 4, 3, 2, 1, 7, 8];
    check_round_trip::<AVLNode, AVLTree>(&keys);
    check_round_trip::<RBNode, RBTree>(&keys);
}

#[test]
fn repeated_insert_and_absent_delete_keep_the_count() {
    check_idempotence::<AVLNode, AVLTree>();
    check_idempotence::<RBNode, RBTree>();
}

#[test]
fn leaves_of_a_chain_with_single_children() {
    // 2 has the single child 1: it is no leaf, and counts what its child counts.
    let mut tree = AVLTree::new();
    for key in [3, 2, 4, 1] {
        tree.insert(key);
    }
    assert_eq!(tree.count_leaves(), 2);
    assert_eq!(tree.count_nodes(), 4);
    assert_eq!(tree.get_height(), 3);
    let root = tree.get_root().as_ref().unwrap();
    let left = root.get_left().as_ref().unwrap();
    assert_eq!(left.count_leaves(), 1);
    assert_eq!(left.count_nodes(), 2);
    assert_eq!(left.get_height(), 2);
}
