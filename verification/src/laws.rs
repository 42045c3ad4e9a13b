//! What holds of every tree of this crate, whatever was inserted and deleted.
//!
//! `insert` and `delete` state what they do to the set of keys, and every
//! query states its answer as a function of the tree's shape. The laws here
//! are what follows for the queries taken together.

use crate::avltree::AVLTree;
use crate::node::{link_shape, Node};
use crate::rbnode::{black_balanced, black_height, is_red, no_red_red, NodeColor, OptionNode};
use crate::rbtree::RBTree;
use crate::shape::{lemma_ascending_unique, strictly_ascending, BinTree};
use crate::tree::Tree;
use vstd::prelude::*;

verus! {

/// The keys after inserting those of `keys`, one after the other, into `start`.
pub open spec fn insert_all(start: Set<i64>, keys: Seq<i64>) -> Set<i64>
    decreases keys.len(),
{
    if keys.len() == 0 {
        start
    } else {
        insert_all(start, keys.drop_last()).insert(keys.last())
    }
}

/// The keys after deleting those of `keys`, one after the other, from `start`.
pub open spec fn delete_all(start: Set<i64>, keys: Seq<i64>) -> Set<i64>
    decreases keys.len(),
{
    if keys.len() == 0 {
        start
    } else {
        delete_all(start, keys.drop_last()).remove(keys.last())
    }
}

/// Whether `sub` is `self` or one of the subtrees below it.
pub open spec fn has_subtree(tree: BinTree, sub: BinTree) -> bool
    decreases tree,
{
    tree == sub || match tree {
        BinTree::Nil => false,
        BinTree::Fork { left, key, right } => has_subtree(*left, sub) || has_subtree(*right, sub),
    }
}

/// The number of black nodes on the way from a link down along `path`, where
/// `true` is a step to the left and `false` one to the right; `None` unless
/// the path ends exactly at the first absent position it meets.
pub open spec fn blacks_on_path(link: OptionNode, path: Seq<bool>) -> Option<nat>
    decreases path.len(),
{
    match link {
        None => if path.len() == 0 {
            Some(0nat)
        } else {
            None
        },
        Some(n) => if path.len() == 0 {
            None
        } else {
            let below = blacks_on_path(
                if path.first() {
                    n.left
                } else {
                    n.right
                },
                path.drop_first(),
            );
            match below {
                None => None,
                Some(count) => Some(
                    if n.color == NodeColor::Black {
                        count + 1
                    } else {
                        count
                    },
                ),
            }
        },
    }
}

/// Whether some red node below the link has a red child.
pub open spec fn has_red_red(link: OptionNode) -> bool
    decreases link,
{
    match link {
        None => false,
        Some(n) => {
            ||| n.color == NodeColor::Red && (is_red(n.left) || is_red(n.right))
            ||| has_red_red(n.left)
            ||| has_red_red(n.right)
        },
    }
}

/// The in-order walk of a tree that keeps its invariant is strictly
/// ascending and lists exactly the keys of the tree: it is the one sorted
/// listing of the key set, the set that `insert` and `delete` have built.
pub proof fn law_in_order_is_sorted_key_set<TN: Node, T: Tree<TN>>(tree: T, sorted: Seq<i64>)
    requires
        tree.wf(),
    ensures
        strictly_ascending(link_shape(tree.root()).in_order()),
        link_shape(tree.root()).in_order().to_set() =~= link_shape(tree.root()).keys(),
        strictly_ascending(sorted) && sorted.to_set() =~= link_shape(tree.root()).keys()
            ==> sorted =~= link_shape(tree.root()).in_order(),
{
    let shape = link_shape(tree.root());
    tree.wf_is_ordered();
    shape.lemma_in_order_ascending();
    shape.lemma_in_order_keys();
    if strictly_ascending(sorted) && sorted.to_set() =~= shape.keys() {
        lemma_ascending_unique(sorted, shape.in_order());
    }
}

/// In a height-balanced tree that keeps its invariant, the two subtrees of
/// every node differ in height by at most one.
pub proof fn law_avl_balance(tree: AVLTree, sub: BinTree)
    requires
        tree.wf(),
        has_subtree(link_shape(tree.root()), sub),
        sub is Fork,
    ensures
        sub->left.height() <= sub->right.height() + 1,
        sub->right.height() <= sub->left.height() + 1,
{
    lemma_balanced_below(link_shape(tree.root()), sub);
}

/// Balance at the root of a tree is balance at every subtree.
proof fn lemma_balanced_below(tree: BinTree, sub: BinTree)
    requires
        tree.is_balanced(),
        has_subtree(tree, sub),
    ensures
        sub.is_balanced(),
    decreases tree,
{
    if tree != sub {
        if has_subtree(*tree->left, sub) {
            lemma_balanced_below(*tree->left, sub);
        } else {
            lemma_balanced_below(*tree->right, sub);
        }
    }
}

/// In a red-black tree that keeps its invariant the root is black or the
/// tree is empty, no red node has a red child, and every path from the root
/// down to an absent position passes through the same number of black nodes.
pub proof fn law_red_black(tree: RBTree, path: Seq<bool>, other: Seq<bool>)
    requires
        tree.wf(),
    ensures
        !is_red(tree.root()),
        !has_red_red(tree.root()),
        blacks_on_path(tree.root(), path) is Some && blacks_on_path(tree.root(), other) is Some
            ==> blacks_on_path(tree.root(), path) == blacks_on_path(tree.root(), other),
{
    lemma_no_red_red(tree.root());
    lemma_black_paths(tree.root(), path);
    lemma_black_paths(tree.root(), other);
}

/// The color rule, stated for a whole subtree, leaves no red node with a red child.
proof fn lemma_no_red_red(link: OptionNode)
    requires
        no_red_red(link),
    ensures
        !has_red_red(link),
    decreases link,
{
    if let Some(n) = link {
        lemma_no_red_red(n.left);
        lemma_no_red_red(n.right);
    }
}

/// In a subtree with balanced black heights every complete path down counts
/// as many black nodes as the leftmost one.
proof fn lemma_black_paths(link: OptionNode, path: Seq<bool>)
    requires
        black_balanced(link),
    ensures
        blacks_on_path(link, path) matches Some(count) ==> count == black_height(link),
    decreases path.len(),
{
    if let Some(n) = link {
        if path.len() > 0 {
            let next = if path.first() {
                n.left
            } else {
                n.right
            };
            lemma_black_paths(next, path.drop_first());
        }
    }
}

/// Deleting every key that was inserted into an empty tree leaves an empty
/// tree: it has no root, height 0 and no node.
pub proof fn law_round_trip<TN: Node, T: Tree<TN>>(tree: T, keys: Seq<i64>)
    requires
        link_shape(tree.root()).keys() =~= delete_all(
            insert_all(Set::<i64>::empty(), keys),
            keys,
        ),
    ensures
        tree.root() is None,
        link_shape(tree.root()) is Nil,
        link_shape(tree.root()).height() == 0,
        link_shape(tree.root()).node_count() == 0,
{
    assert forall|k: i64| !delete_all(insert_all(Set::<i64>::empty(), keys), keys).contains(k) by {
        lemma_insert_all(Set::<i64>::empty(), keys, k);
        lemma_delete_all(insert_all(Set::<i64>::empty(), keys), keys, k);
    }
    link_shape(tree.root()).lemma_no_keys_iff_nil();
    if let Some(root) = tree.root() {
        root.shape_unfolds();
    }
}

/// After inserting `keys` a set holds what it held before and the keys of `keys`.
proof fn lemma_insert_all(start: Set<i64>, keys: Seq<i64>, k: i64)
    ensures
        insert_all(start, keys).contains(k) <==> start.contains(k) || keys.contains(k),
    decreases keys.len(),
{
    if keys.len() > 0 {
        lemma_insert_all(start, keys.drop_last(), k);
        if keys.drop_last().contains(k) {
            let i = choose|i: int| 0 <= i < keys.drop_last().len() && keys.drop_last()[i] == k;
            assert(keys[i] == k);
        }
        if keys.contains(k) && k != keys.last() {
            let i = choose|i: int| 0 <= i < keys.len() && keys[i] == k;
            assert(keys.drop_last()[i] == k);
        }
        assert(keys[keys.len() - 1] == keys.last());
    }
}

/// After deleting `keys` a set holds what it held before but for the keys of `keys`.
proof fn lemma_delete_all(start: Set<i64>, keys: Seq<i64>, k: i64)
    ensures
        delete_all(start, keys).contains(k) <==> start.contains(k) && !keys.contains(k),
    decreases keys.len(),
{
    if keys.len() > 0 {
        lemma_delete_all(start, keys.drop_last(), k);
        if keys.drop_last().contains(k) {
            let i = choose|i: int| 0 <= i < keys.drop_last().len() && keys.drop_last()[i] == k;
            assert(keys[i] == k);
        }
        if keys.contains(k) && k != keys.last() {
            let i = choose|i: int| 0 <= i < keys.len() && keys[i] == k;
            assert(keys.drop_last()[i] == k);
        }
        assert(keys[keys.len() - 1] == keys.last());
    }
}

/// Inserting a key a second time does not change the number of nodes:
/// `once` is a tree that holds `key`, `again` a tree after an insertion of
/// `key` into it.
pub proof fn law_insert_twice<TN: Node, T: Tree<TN>>(once: T, again: T, key: i64)
    requires
        once.wf(),
        again.wf(),
        link_shape(once.root()).keys().contains(key),
        link_shape(again.root()).keys() =~= link_shape(once.root()).keys().insert(key),
    ensures
        link_shape(again.root()).node_count() == link_shape(once.root()).node_count(),
{
    once.wf_is_ordered();
    again.wf_is_ordered();
    link_shape(once.root()).lemma_key_count();
    link_shape(again.root()).lemma_key_count();
    assert(link_shape(once.root()).keys().insert(key) =~= link_shape(once.root()).keys());
}

/// Deleting a key that is not there does not change the number of nodes:
/// `without` is a tree that does not hold `key`, `after` a tree after a
/// deletion of `key` from it.
pub proof fn law_delete_absent<TN: Node, T: Tree<TN>>(without: T, after: T, key: i64)
    requires
        without.wf(),
        after.wf(),
        !link_shape(without.root()).keys().contains(key),
        link_shape(after.root()).keys() =~= link_shape(without.root()).keys().remove(key),
    ensures
        link_shape(after.root()).node_count() == link_shape(without.root()).node_count(),
{
    without.wf_is_ordered();
    after.wf_is_ordered();
    link_shape(without.root()).lemma_key_count();
    link_shape(after.root()).lemma_key_count();
    assert(link_shape(without.root()).keys().remove(key) =~= link_shape(without.root()).keys());
}

/// A tree that keeps its invariant and holds at most `u32::MAX` keys can be
/// measured: its nodes, its leaves and its levels can be counted in `u32`.
pub proof fn law_measures_fit<TN: Node, T: Tree<TN>>(tree: T)
    requires
        tree.wf(),
        link_shape(tree.root()).keys().len() <= u32::MAX,
    ensures
        link_shape(tree.root()).node_count() <= u32::MAX,
        link_shape(tree.root()).leaf_count() <= u32::MAX,
        link_shape(tree.root()).height() <= u32::MAX,
{
    tree.wf_is_ordered();
    link_shape(tree.root()).lemma_key_count();
    link_shape(tree.root()).lemma_height_le_count();
}

/// The three walks of a tree are as long as the tree has nodes, and each
/// lists the same keys as often as the others. Where the tree keeps its
/// invariant, that is every key of the tree once.
pub proof fn law_walks_agree<TN: Node, T: Tree<TN>>(tree: T)
    ensures
        link_shape(tree.root()).in_order().len() == link_shape(tree.root()).node_count(),
        link_shape(tree.root()).pre_order().len() == link_shape(tree.root()).node_count(),
        link_shape(tree.root()).post_order().len() == link_shape(tree.root()).node_count(),
        link_shape(tree.root()).pre_order().to_multiset() =~= link_shape(
            tree.root(),
        ).in_order().to_multiset(),
        link_shape(tree.root()).post_order().to_multiset() =~= link_shape(
            tree.root(),
        ).in_order().to_multiset(),
        tree.wf() ==> link_shape(tree.root()).in_order().to_set() =~= link_shape(
            tree.root(),
        ).keys() && link_shape(tree.root()).in_order().no_duplicates(),
{
    let shape = link_shape(tree.root());
    shape.lemma_walk_lengths();
    shape.lemma_walks_permute();
    if tree.wf() {
        tree.wf_is_ordered();
        shape.lemma_in_order_keys();
        shape.lemma_in_order_ascending();
    }
}

} // verus!
