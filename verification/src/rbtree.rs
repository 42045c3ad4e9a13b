//! The color-balanced tree: insertion and deletion with their repairs.
//!
//! Both descend by recursion and repair on the way back up, one level at a
//! time: the caller of a step is the parent of the subtree that the step
//! returns, and puts the returned root into the child slot it came from.

use crate::node::{link_shape, Links};
use crate::rbmodel::{
    delete_repaired, deleted_below, insert_repaired, inserted_below, rb_deleted, rb_inserted,
    replacement_node, rightmost_node, rotated_left, rotated_right,
};
use crate::rbnode::{
    black_balanced, black_height, is_red, no_red_red, rb_subtree, NodeColor, OptionNode, RBNode,
};
use crate::shape::BinTree;
use crate::tree::Tree;
use vstd::prelude::*;

verus! {

/// A red-black tree over `i64` keys.
pub struct RBTree {
    _root: OptionNode,
}

/// The subtrees below the link's node satisfy the color rule, and the node
/// itself, if it is red, has at most one red child: the state of a subtree
/// into which a red node has just been put.
spec fn nearly_no_red_red(link: OptionNode) -> bool {
    match link {
        None => true,
        Some(n) => {
            &&& no_red_red(n.left)
            &&& no_red_red(n.right)
            &&& n.color == NodeColor::Red ==> !(is_red(n.left) && is_red(n.right))
        },
    }
}

/// A rotation of nodes is the rotation of their shape.
proof fn lemma_rotated_shape(node: RBNode)
    ensures
        node.right is Some ==> rotated_left(node).shape() == node.shape().rotate_left(),
        node.left is Some ==> rotated_right(node).shape() == node.shape().rotate_right(),
{
    if let Some(lifted) = node.right {
        let lowered = RBNode { key: node.key, color: node.color, left: node.left, right: lifted.left };
        assert(lowered.shape() == BinTree::Fork {
            left: Box::new(link_shape(node.left)),
            key: node.key,
            right: Box::new(link_shape(lifted.left)),
        });
        assert(lifted.shape() == BinTree::Fork {
            left: Box::new(link_shape(lifted.left)),
            key: lifted.key,
            right: Box::new(link_shape(lifted.right)),
        });
    }
    if let Some(lifted) = node.left {
        let lowered = RBNode { key: node.key, color: node.color, left: lifted.right, right: node.right };
        assert(lowered.shape() == BinTree::Fork {
            left: Box::new(link_shape(lifted.right)),
            key: node.key,
            right: Box::new(link_shape(node.right)),
        });
        assert(lifted.shape() == BinTree::Fork {
            left: Box::new(link_shape(lifted.left)),
            key: lifted.key,
            right: Box::new(link_shape(lifted.right)),
        });
    }
}

impl Tree<RBNode> for RBTree {
    closed spec fn root(&self) -> Option<Box<RBNode>> {
        self._root
    }

    /// Search-tree order; a black root; no red node with a red child; and
    /// the same number of black nodes on every path down from a node.
    open spec fn wf(&self) -> bool {
        &&& rb_subtree(self.root())
        &&& !is_red(self.root())
    }

    /// A red-black tree stores no count that could overflow.
    open spec fn has_room(&self) -> bool {
        true
    }

    proof fn wf_is_ordered(&self) {
    }

    fn new() -> (tree: Self) {
        RBTree { _root: None }
    }

    fn get_root(&self) -> (root: &OptionNode) {
        &self._root
    }

    fn insert(&mut self, key: i64)
        ensures
            final(self).root() == rb_inserted(old(self).root(), key),
    {
        match self._root.take() {
            None => {
                let mut new_node: Box<RBNode> = RBNode::new(key).unwrap();
                Self::_change_color(&mut new_node, NodeColor::Black);
                proof {
                    reveal_with_fuel(BinTree::is_bst, 2);
                    reveal_with_fuel(no_red_red, 2);
                    reveal_with_fuel(black_balanced, 2);
                    reveal_with_fuel(black_height, 2);
                    assert(BinTree::Nil.keys() =~= Set::<i64>::empty());
                    assert(new_node.shape().keys() =~= Set::<i64>::empty().insert(key));
                }
                self._root = Some(new_node);
            },
            Some(root) => {
                let mut new_root: Box<RBNode> = Self::_insert_private(root, key);
                Self::_change_color(&mut new_root, NodeColor::Black);
                self._root = Some(new_root);
            },
        }
    }

    fn delete(&mut self, key: i64)
        ensures
            final(self).root() == rb_deleted(old(self).root(), key),
    {
        match self._root.take() {
            None => {
                assert(BinTree::Nil.keys().remove(key) =~= BinTree::Nil.keys());
            },
            Some(root) => {
                let (new_root, _) = Self::_delete_private(root, key);
                self._root = new_root;
            },
        }
    }
}

impl RBTree {
    fn _return_color(node: &RBNode) -> (color: NodeColor)
        ensures
            color == node.color,
    {
        node.color
    }

    fn _change_color(node: &mut RBNode, color: NodeColor)
        ensures
            *final(node) == (RBNode {
                key: old(node).key,
                color,
                left: old(node).left,
                right: old(node).right,
            }),
    {
        node.color = color;
    }

    /// Whether the link leads to a node, and that node is red.
    fn _is_parent_red(parent: &OptionNode) -> (red: bool)
        ensures
            red == is_red(*parent),
    {
        match parent {
            None => false,
            Some(node) => Self::_return_color(node) == NodeColor::Red,
        }
    }

    fn _has_red_child(node: &RBNode) -> (red: bool)
        ensures
            red == (is_red(node.left) || is_red(node.right)),
    {
        let left_red: bool = Self::_is_parent_red(&node.left);
        let right_red: bool = Self::_is_parent_red(&node.right);
        left_red || right_red
    }

    /// The other child of `parent`: the right one for a left child, the left
    /// one for a right child.
    fn _return_node_same_level(parent: &RBNode, is_left_child: bool) -> (sibling: &OptionNode)
        ensures
            *sibling == if is_left_child {
                parent.right
            } else {
                parent.left
            },
    {
        if is_left_child {
            &parent.right
        } else {
            &parent.left
        }
    }

    fn _left_rotate(rotation_node: Box<RBNode>) -> (lifted: Box<RBNode>)
        requires
            rotation_node.right is Some,
        ensures
            *lifted == rotated_left(*rotation_node),
    {
        let mut rotation_node = rotation_node;
        let mut right_node: Box<RBNode> = rotation_node.right.take().unwrap();
        rotation_node.right = right_node.left.take();
        right_node.left = Some(rotation_node);
        right_node
    }

    fn _right_rotate(rotation_node: Box<RBNode>) -> (lifted: Box<RBNode>)
        requires
            rotation_node.left is Some,
        ensures
            *lifted == rotated_right(*rotation_node),
    {
        let mut rotation_node = rotation_node;
        let mut left_node: Box<RBNode> = rotation_node.left.take().unwrap();
        rotation_node.left = left_node.right.take();
        left_node.right = Some(rotation_node);
        left_node
    }

    /// Puts `key` below `node` as a red node without children, and repairs
    /// the color rule at every level on the way back up to `node`. What may
    /// remain is a red `node` with one red child, which is for the caller
    /// to repair.
    fn _insert_private(node: Box<RBNode>, key: i64) -> (grown: Box<RBNode>)
        requires
            rb_subtree(Some(node)),
        ensures
            grown.shape().is_bst(),
            grown.shape().keys() =~= node.shape().keys().insert(key),
            black_balanced(Some(grown)),
            black_height(Some(grown)) == black_height(Some(node)),
            nearly_no_red_red(Some(grown)),
            node.color == NodeColor::Black ==> no_red_red(Some(grown)),
            node.color == NodeColor::Red ==> grown.color == NodeColor::Red,
            node.shape().keys().contains(key) ==> grown == node,
            *grown == inserted_below(*node, key),
        decreases node,
    {
        let mut node = node;
        if key == node.key {
            assert(node.shape().keys().insert(key) =~= node.shape().keys());
            return node;
        }
        let ghost before = *node;
        if key < node.key {
            match node.left.take() {
                None => {
                    node.left = RBNode::new(key);
                },
                Some(left) => {
                    node.left = Some(Self::_insert_private(left, key));
                },
            }
            proof {
                lemma_insert_below(before, *node, key);
            }
            Self::_insert_repair(node, true)
        } else {
            match node.right.take() {
                None => {
                    node.right = RBNode::new(key);
                },
                Some(right) => {
                    node.right = Some(Self::_insert_private(right, key));
                },
            }
            proof {
                lemma_insert_below(before, *node, key);
            }
            Self::_insert_repair(node, false)
        }
    }

    /// One step of the repair after an insertion, at the grandparent of a
    /// red node whose parent, the child of `grandparent` on the given side,
    /// may be red too. With a red uncle the three are recolored, which may
    /// leave `grandparent` red below a red parent of its own. With a black
    /// or absent uncle one or two rotations settle it. Where parent and
    /// child are not both red, nothing changes.
    fn _insert_repair(grandparent: Box<RBNode>, parent_left_side: bool) -> (repaired: Box<RBNode>)
        requires
            parent_left_side ==> grandparent.left is Some,
            !parent_left_side ==> grandparent.right is Some,
            grandparent.shape().is_bst(),
            black_balanced(Some(grandparent)),
            nearly_no_red_red(
                if parent_left_side {
                    grandparent.left
                } else {
                    grandparent.right
                },
            ),
            no_red_red(
                if parent_left_side {
                    grandparent.right
                } else {
                    grandparent.left
                },
            ),
            grandparent.color == NodeColor::Red ==> no_red_red(grandparent.left) && no_red_red(
                grandparent.right,
            ) && !(is_red(grandparent.left) && is_red(grandparent.right)),
        ensures
            repaired.shape().is_bst(),
            repaired.shape().keys() =~= grandparent.shape().keys(),
            black_balanced(Some(repaired)),
            black_height(Some(repaired)) == black_height(Some(grandparent)),
            nearly_no_red_red(Some(repaired)),
            grandparent.color == NodeColor::Black ==> no_red_red(Some(repaired)),
            no_red_red(grandparent.left) && no_red_red(grandparent.right) ==> repaired
                == grandparent,
            *repaired == insert_repaired(*grandparent, parent_left_side),
    {
        let mut grandparent = grandparent;
        let ghost before = *grandparent;
        proof {
            reveal_with_fuel(no_red_red, 3);
            reveal_with_fuel(black_balanced, 3);
            reveal_with_fuel(black_height, 3);
            before.shape_unfolds();
        }
        if parent_left_side {
            if !Self::_is_parent_red(&grandparent.left) {
                return grandparent;
            }
            let mut parent: Box<RBNode> = grandparent.left.take().unwrap();
            if !Self::_has_red_child(&parent) {
                grandparent.left = Some(parent);
                return grandparent;
            }
            let ghost old_parent = *parent;
            proof {
                old_parent.shape_unfolds();
            }
            if grandparent.right.is_none() || Self::_return_color(
                grandparent.right.as_ref().unwrap(),
            ) == NodeColor::Black {
                if !Self::_is_parent_red(&parent.left) {
                    parent = Self::_left_rotate(parent);
                    proof {
                        lemma_rotated_shape(old_parent);
                    }
                }
                let ghost turned_parent = *parent;
                Self::_change_color(&mut parent, NodeColor::Black);
                Self::_change_color(&mut grandparent, NodeColor::Red);
                proof {
                    turned_parent.shape_unfolds();
                    parent.shape_unfolds();
                }
                grandparent.left = Some(parent);
                proof {
                    grandparent.shape_unfolds();
                    lemma_rotated_shape(*grandparent);
                    before.shape().lemma_rotate_right();
                    before.shape().lemma_rotate_left_right();
                }
                return Self::_right_rotate(grandparent);
            }
            let mut uncle: Box<RBNode> = grandparent.right.take().unwrap();
            let ghost old_uncle = *uncle;
            Self::_change_color(&mut parent, NodeColor::Black);
            Self::_change_color(&mut uncle, NodeColor::Black);
            Self::_change_color(&mut grandparent, NodeColor::Red);
            grandparent.left = Some(parent);
            grandparent.right = Some(uncle);
            proof {
                old_uncle.shape_unfolds();
                uncle.shape_unfolds();
                parent.shape_unfolds();
                grandparent.shape_unfolds();
            }
            return grandparent;
        }
        if !Self::_is_parent_red(&grandparent.right) {
            return grandparent;
        }
        let mut parent: Box<RBNode> = grandparent.right.take().unwrap();
        if !Self::_has_red_child(&parent) {
            grandparent.right = Some(parent);
            return grandparent;
        }
        let ghost old_parent = *parent;
        proof {
            old_parent.shape_unfolds();
        }
        if grandparent.left.is_none() || Self::_return_color(grandparent.left.as_ref().unwrap())
            == NodeColor::Black {
            if !Self::_is_parent_red(&parent.right) {
                parent = Self::_right_rotate(parent);
                proof {
                    lemma_rotated_shape(old_parent);
                }
            }
            let ghost turned_parent = *parent;
            Self::_change_color(&mut parent, NodeColor::Black);
            Self::_change_color(&mut grandparent, NodeColor::Red);
            proof {
                turned_parent.shape_unfolds();
                parent.shape_unfolds();
            }
            grandparent.right = Some(parent);
            proof {
                grandparent.shape_unfolds();
                lemma_rotated_shape(*grandparent);
                before.shape().lemma_rotate_left();
                before.shape().lemma_rotate_right_left();
            }
            return Self::_left_rotate(grandparent);
        }
        let mut uncle: Box<RBNode> = grandparent.left.take().unwrap();
        let ghost old_uncle = *uncle;
        Self::_change_color(&mut parent, NodeColor::Black);
        Self::_change_color(&mut uncle, NodeColor::Black);
        Self::_change_color(&mut grandparent, NodeColor::Red);
        grandparent.right = Some(parent);
        grandparent.left = Some(uncle);
        proof {
            old_uncle.shape_unfolds();
            uncle.shape_unfolds();
            parent.shape_unfolds();
            grandparent.shape_unfolds();
        }
        grandparent
    }

    fn _recur_right_child(node: &RBNode) -> (last: &RBNode)
        ensures
            *last == rightmost_node(*node),
        decreases node,
    {
        match &node.right {
            Some(right) => Self::_recur_right_child(right),
            None => node,
        }
    }

    /// The node whose key takes the place of the key of `node` when that is
    /// deleted: the rightmost node of the left subtree if there is one,
    /// else the right child, else none.
    fn _find_replacement_node(node: &RBNode) -> (replacement: Option<&RBNode>)
        ensures
            match replacement {
                None => replacement_node(*node) is None,
                Some(found) => replacement_node(*node) == Some(*found),
            },
    {
        if node.left.is_some() {
            Some(Self::_recur_right_child(node.left.as_ref().unwrap()))
        } else if node.right.is_some() {
            Some(&**node.right.as_ref().unwrap())
        } else {
            None
        }
    }

    /// Deletes `key` below `node` and repairs the black heights at every
    /// level on the way back up to `node`. Returns the root of what is left
    /// and whether that is "double black": one black node short on every
    /// path, for the caller to repair.
    fn _delete_private(node: Box<RBNode>, key: i64) -> (result: (OptionNode, bool))
        requires
            rb_subtree(Some(node)),
        ensures
            rb_subtree(result.0),
            link_shape(result.0).keys() =~= node.shape().keys().remove(key),
            result.1 ==> black_height(result.0) + 1 == black_height(Some(node)) && !is_red(
                result.0,
            ),
            !result.1 ==> black_height(result.0) == black_height(Some(node)),
            is_red(result.0) ==> node.color == NodeColor::Red,
            !node.shape().keys().contains(key) ==> result.0 == Some(node) && !result.1,
            result == deleted_below(*node, key),
        decreases node,
    {
        let mut node = node;
        let ghost before = *node;
        if key < node.key {
            if node.left.is_none() {
                proof {
                    lemma_absent_below(before, key);
                }
                return (Some(node), false);
            }
            let left: Box<RBNode> = node.left.take().unwrap();
            let (new_left, double_black) = Self::_delete_private(left, key);
            node.left = new_left;
            proof {
                lemma_delete_below(before, *node, key, key);
            }
            if double_black {
                let (repaired, still_double_black) = Self::_delete_repair(node, true);
                return (Some(repaired), still_double_black);
            }
            return (Some(node), false);
        }
        if key > node.key {
            if node.right.is_none() {
                proof {
                    lemma_absent_below(before, key);
                }
                return (Some(node), false);
            }
            let right: Box<RBNode> = node.right.take().unwrap();
            let (new_right, double_black) = Self::_delete_private(right, key);
            node.right = new_right;
            proof {
                lemma_delete_below(before, *node, key, key);
            }
            if double_black {
                let (repaired, still_double_black) = Self::_delete_repair(node, false);
                return (Some(repaired), still_double_black);
            }
            return (Some(node), false);
        }
        proof {
            lemma_replacement(before);
        }
        let double_black: bool;
        let replacement_key: i64;
        match Self::_find_replacement_node(&node) {
            None => {
                return (None, Self::_return_color(&node) == NodeColor::Black);
            },
            Some(replacement) => {
                double_black = Self::_return_color(&node) == NodeColor::Black
                    && Self::_return_color(replacement) == NodeColor::Black;
                replacement_key = replacement.key;
            },
        }
        if node.left.is_none() || node.right.is_none() {
            let mut child: Box<RBNode> = if node.left.is_some() {
                node.left.take().unwrap()
            } else {
                node.right.take().unwrap()
            };
            if !double_black {
                Self::_change_color(&mut child, NodeColor::Black);
                return (Some(child), false);
            }
            return (Some(child), true);
        }
        node.key = replacement_key;
        let left: Box<RBNode> = node.left.take().unwrap();
        let (new_left, left_double_black) = Self::_delete_private(left, replacement_key);
        node.left = new_left;
        proof {
            lemma_delete_below(before, *node, key, replacement_key);
        }
        if left_double_black {
            let (repaired, still_double_black) = Self::_delete_repair(node, true);
            return (Some(repaired), still_double_black);
        }
        (Some(node), false)
    }

    /// One step of the repair after a deletion, at the parent of a double
    /// black node: the child of `parent` on the side that `node_is_left`
    /// names is one black node short. Returns the root that takes the place
    /// of `parent` and whether that root is double black in turn.
    fn _delete_repair(parent: Box<RBNode>, node_is_left: bool) -> (result: (Box<RBNode>, bool))
        requires
            short_on_one_side(*parent, node_is_left),
        ensures
            rb_subtree(Some(result.0)),
            result.0.shape().keys() =~= parent.shape().keys(),
            !result.1 ==> black_height(Some(result.0)) == height_before_loss(
                *parent,
                node_is_left,
            ),
            result.1 ==> black_height(Some(result.0)) + 1 == height_before_loss(
                *parent,
                node_is_left,
            ) && result.0.color == NodeColor::Black,
            result.0.color == NodeColor::Red ==> parent.color == NodeColor::Red,
            parent.color == NodeColor::Red ==> !result.1,
            (*result.0, result.1) == delete_repaired(*parent, node_is_left),
        decreases
                (if is_red(
                    if node_is_left {
                        parent.right
                    } else {
                        parent.left
                    },
                ) {
                    1nat
                } else {
                    0nat
                }),
    {
        let mut parent = parent;
        let ghost before = *parent;
        proof {
            reveal_with_fuel(no_red_red, 3);
            reveal_with_fuel(black_balanced, 3);
            reveal_with_fuel(black_height, 3);
            before.shape_unfolds();
        }
        if Self::_return_node_same_level(&parent, node_is_left).is_none() {
            return (parent, true);
        }
        let mut sibling: Box<RBNode> = if node_is_left {
            parent.right.take().unwrap()
        } else {
            parent.left.take().unwrap()
        };
        let ghost old_sibling = *sibling;
        proof {
            old_sibling.shape_unfolds();
        }
        let parent_color: NodeColor = Self::_return_color(&parent);
        if Self::_return_color(&sibling) == NodeColor::Black {
            if !Self::_has_red_child(&sibling) {
                Self::_change_color(&mut sibling, NodeColor::Red);
                proof {
                    sibling.shape_unfolds();
                }
                if node_is_left {
                    parent.right = Some(sibling);
                } else {
                    parent.left = Some(sibling);
                }
                if parent_color == NodeColor::Red {
                    Self::_change_color(&mut parent, NodeColor::Black);
                    proof {
                        parent.shape_unfolds();
                    }
                    return (parent, false);
                }
                proof {
                    parent.shape_unfolds();
                }
                return (parent, true);
            }
            if !node_is_left {
                if Self::_is_parent_red(&sibling.left) {
                    let mut far_nephew: Box<RBNode> = sibling.left.take().unwrap();
                    let ghost old_nephew = *far_nephew;
                    Self::_change_color(&mut far_nephew, NodeColor::Black);
                    proof {
                        old_nephew.shape_unfolds();
                        far_nephew.shape_unfolds();
                    }
                    sibling.left = Some(far_nephew);
                    Self::_change_color(&mut sibling, parent_color);
                    Self::_change_color(&mut parent, NodeColor::Black);
                    parent.left = Some(sibling);
                    proof {
                        sibling.shape_unfolds();
                        parent.shape_unfolds();
                        lemma_rotated_shape(*parent);
                        before.shape().lemma_rotate_right();
                    }
                    return (Self::_right_rotate(parent), false);
                }
                let mut near_nephew: Box<RBNode> = sibling.right.take().unwrap();
                let ghost old_nephew = *near_nephew;
                Self::_change_color(&mut near_nephew, parent_color);
                proof {
                    old_nephew.shape_unfolds();
                    near_nephew.shape_unfolds();
                }
                sibling.right = Some(near_nephew);
                Self::_change_color(&mut parent, NodeColor::Black);
                proof {
                    sibling.shape_unfolds();
                    lemma_rotated_shape(*sibling);
                }
                parent.left = Some(Self::_left_rotate(sibling));
                proof {
                    parent.shape_unfolds();
                    lemma_rotated_shape(*parent);
                    before.shape().lemma_rotate_left_right();
                }
                return (Self::_right_rotate(parent), false);
            }
            if Self::_is_parent_red(&sibling.right) {
                let mut far_nephew: Box<RBNode> = sibling.right.take().unwrap();
                let ghost old_nephew = *far_nephew;
                Self::_change_color(&mut far_nephew, NodeColor::Black);
                proof {
                    old_nephew.shape_unfolds();
                    far_nephew.shape_unfolds();
                }
                sibling.right = Some(far_nephew);
                Self::_change_color(&mut sibling, parent_color);
                Self::_change_color(&mut parent, NodeColor::Black);
                parent.right = Some(sibling);
                proof {
                    sibling.shape_unfolds();
                    parent.shape_unfolds();
                    lemma_rotated_shape(*parent);
                    before.shape().lemma_rotate_left();
                }
                return (Self::_left_rotate(parent), false);
            }
            let mut near_nephew: Box<RBNode> = sibling.left.take().unwrap();
            let ghost old_nephew = *near_nephew;
            Self::_change_color(&mut near_nephew, parent_color);
            proof {
                old_nephew.shape_unfolds();
                near_nephew.shape_unfolds();
            }
            sibling.left = Some(near_nephew);
            Self::_change_color(&mut parent, NodeColor::Black);
            proof {
                sibling.shape_unfolds();
                lemma_rotated_shape(*sibling);
            }
            parent.right = Some(Self::_right_rotate(sibling));
            proof {
                parent.shape_unfolds();
                lemma_rotated_shape(*parent);
                before.shape().lemma_rotate_right_left();
            }
            return (Self::_left_rotate(parent), false);
        }
        Self::_change_color(&mut sibling, NodeColor::Black);
        Self::_change_color(&mut parent, NodeColor::Red);
        proof {
            sibling.shape_unfolds();
        }
        if node_is_left {
            parent.right = Some(sibling);
            proof {
                parent.shape_unfolds();
                lemma_rotated_shape(*parent);
                before.shape().lemma_rotate_left();
            }
            let mut lifted: Box<RBNode> = Self::_left_rotate(parent);
            let ghost turned = *lifted;
            let lowered: Box<RBNode> = lifted.left.take().unwrap();
            proof {
                turned.shape_unfolds();
                lowered.shape_unfolds();
                lemma_lowered_is_ordered(turned);
            }
            let (repaired, double_black) = Self::_delete_repair(lowered, true);
            lifted.left = Some(repaired);
            proof {
                lifted.shape_unfolds();
                lemma_same_keys_below(turned, *lifted);
            }
            (lifted, double_black)
        } else {
            parent.left = Some(sibling);
            proof {
                parent.shape_unfolds();
                lemma_rotated_shape(*parent);
                before.shape().lemma_rotate_right();
            }
            let mut lifted: Box<RBNode> = Self::_right_rotate(parent);
            let ghost turned = *lifted;
            let lowered: Box<RBNode> = lifted.right.take().unwrap();
            proof {
                turned.shape_unfolds();
                lowered.shape_unfolds();
                lemma_lowered_is_ordered(turned);
            }
            let (repaired, double_black) = Self::_delete_repair(lowered, false);
            lifted.right = Some(repaired);
            proof {
                lifted.shape_unfolds();
                lemma_same_keys_below(turned, *lifted);
            }
            (lifted, double_black)
        }
    }
}

/// The children of a node in search-tree order are in search-tree order.
proof fn lemma_lowered_is_ordered(node: RBNode)
    requires
        node.shape().is_bst(),
    ensures
        link_shape(node.left).is_bst(),
        link_shape(node.right).is_bst(),
{
}

/// Replacing a child by a subtree in search-tree order with the same keys
/// keeps the order and the keys of the node.
proof fn lemma_same_keys_below(before: RBNode, after: RBNode)
    requires
        before.shape().is_bst(),
        after.key == before.key,
        link_shape(after.left).is_bst(),
        link_shape(after.right).is_bst(),
        link_shape(after.left).keys() =~= link_shape(before.left).keys(),
        link_shape(after.right).keys() =~= link_shape(before.right).keys(),
    ensures
        after.shape().is_bst(),
        after.shape().keys() =~= before.shape().keys(),
{
}

/// The state in which a deletion leaves the parent of a double black node:
/// both children satisfy the invariant of a subtree, the child on the named
/// side is black or absent and one black node lower than its sibling, and a
/// red parent has no red child.
spec fn short_on_one_side(parent: RBNode, node_is_left: bool) -> bool {
    let (node, sibling) = if node_is_left {
        (parent.left, parent.right)
    } else {
        (parent.right, parent.left)
    };
    &&& parent.shape().is_bst()
    &&& black_balanced(node)
    &&& black_balanced(sibling)
    &&& no_red_red(node)
    &&& no_red_red(sibling)
    &&& !is_red(node)
    &&& black_height(node) + 1 == black_height(sibling)
    &&& parent.color == NodeColor::Red ==> !is_red(sibling)
}

/// The black height that the subtree of `parent` had before the child on
/// the named side became one black node short.
spec fn height_before_loss(parent: RBNode, node_is_left: bool) -> nat {
    let sibling = if node_is_left {
        parent.right
    } else {
        parent.left
    };
    black_height(sibling) + if parent.color == NodeColor::Black {
        1nat
    } else {
        0nat
    }
}

/// A node of which one child has taken `key`, before the node is repaired.
proof fn lemma_insert_below(before: RBNode, after: RBNode, key: i64)
    requires
        rb_subtree(Some(Box::new(before))),
        key != before.key,
        after.key == before.key,
        after.color == before.color,
        key < before.key ==> after.right == before.right,
        key > before.key ==> after.left == before.left,
        ({
            let (old_child, new_child) = if key < before.key {
                (before.left, after.left)
            } else {
                (before.right, after.right)
            };
            &&& new_child is Some
            &&& link_shape(new_child).is_bst()
            &&& link_shape(new_child).keys() =~= link_shape(old_child).keys().insert(key)
            &&& black_balanced(new_child)
            &&& black_height(new_child) == black_height(old_child)
            &&& link_shape(old_child).keys().contains(key) ==> new_child == old_child
        }),
    ensures
        after.shape().is_bst(),
        after.shape().keys() =~= before.shape().keys().insert(key),
        black_balanced(Some(Box::new(after))),
        black_height(Some(Box::new(after))) == black_height(Some(Box::new(before))),
        before.shape().keys().contains(key) ==> after == before,
{
    let b = before.shape();
    let a = after.shape();
    if key < before.key {
        assert forall|k: i64| a->left.keys().contains(k) implies k < a->key by {
            assert(k == key || b->left.keys().contains(k));
        }
        assert(!b->right.keys().contains(key));
    } else {
        assert forall|k: i64| a->right.keys().contains(k) implies a->key < k by {
            assert(k == key || b->right.keys().contains(k));
        }
        assert(!b->left.keys().contains(key));
    }
}

/// A search tree without a child on the side of `key` does not hold `key`
/// below its root.
proof fn lemma_absent_below(before: RBNode, key: i64)
    requires
        before.shape().is_bst(),
        key < before.key && before.left is None || key > before.key && before.right is None,
    ensures
        !before.shape().keys().contains(key),
        before.shape().keys().remove(key) =~= before.shape().keys(),
{
    let b = before.shape();
    if key < before.key {
        assert(b->left.keys() =~= Set::<i64>::empty());
        assert(!b->right.keys().contains(key));
    } else {
        assert(b->right.keys() =~= Set::<i64>::empty());
        assert(!b->left.keys().contains(key));
    }
}

/// A node below which `key` has been deleted, before the node is repaired.
/// Where the node itself held `key`, it now holds the key `gone` that was
/// the largest of its left subtree, and the left subtree has lost `gone`.
proof fn lemma_delete_below(before: RBNode, after: RBNode, key: i64, gone: i64)
    requires
        before.shape().is_bst(),
        after.color == before.color,
        key != before.key ==> gone == key && after.key == before.key,
        key == before.key ==> before.left is Some && gone == link_shape(before.left).rightmost()
            && after.key == gone,
        key <= before.key ==> {
            &&& after.right == before.right
            &&& link_shape(after.left).is_bst()
            &&& link_shape(after.left).keys() =~= link_shape(before.left).keys().remove(gone)
            &&& !link_shape(before.left).keys().contains(gone) ==> after.left == before.left
        },
        key > before.key ==> {
            &&& after.left == before.left
            &&& link_shape(after.right).is_bst()
            &&& link_shape(after.right).keys() =~= link_shape(before.right).keys().remove(gone)
            &&& !link_shape(before.right).keys().contains(gone) ==> after.right == before.right
        },
    ensures
        after.shape().is_bst(),
        after.shape().keys() =~= before.shape().keys().remove(key),
        !before.shape().keys().contains(key) ==> after == before,
{
    let b = before.shape();
    let a = after.shape();
    if key == before.key {
        b->left.lemma_rightmost_is_max();
        assert(b->left.keys().contains(gone));
        assert(gone < before.key);
        assert forall|k: i64| a->left.keys().contains(k) implies k < gone by {
            assert(b->left.keys().contains(k));
        }
        assert forall|k: i64| a->right.keys().contains(k) implies gone < k by {
            assert(before.key < k);
        }
        assert(!b->left.keys().contains(key));
        assert(!b->right.keys().contains(key));
        assert(!b->right.keys().contains(gone));
    } else if key < before.key {
        assert forall|k: i64| a->left.keys().contains(k) implies k < a->key by {
            assert(b->left.keys().contains(k));
        }
        assert(!b->right.keys().contains(key));
    } else {
        assert forall|k: i64| a->right.keys().contains(k) implies a->key < k by {
            assert(b->right.keys().contains(k));
        }
        assert(!b->left.keys().contains(key));
    }
}

/// A subtree of black height 0 is absent or a single red node.
proof fn lemma_black_height_zero(link: OptionNode)
    requires
        black_balanced(link),
        no_red_red(link),
        black_height(link) == 0,
    ensures
        link matches Some(n) ==> n.color == NodeColor::Red && n.left is None && n.right is None,
{
    reveal_with_fuel(black_height, 2);
    reveal_with_fuel(black_balanced, 2);
}

/// What the replacement of a node is, by the number of its children: with
/// two, the node of the largest key to its left; with one, that child, which
/// is red and has no children, below a black node.
proof fn lemma_replacement(before: RBNode)
    requires
        rb_subtree(Some(Box::new(before))),
    ensures
        before.left matches Some(left) ==> rightmost_node(*left).key == left.shape().rightmost(),
        before.left is None || before.right is None ==> {
            let child = if before.left is Some {
                before.left
            } else {
                before.right
            };
            &&& child matches Some(c) ==> {
                &&& replacement_node(before) == Some(*c)
                &&& c.color == NodeColor::Red
                &&& c.left is None
                &&& c.right is None
                &&& before.color == NodeColor::Black
            }
            &&& link_shape(child).keys() =~= before.shape().keys().remove(before.key)
            &&& link_shape(child).is_bst()
        },
{
    if let Some(left) = before.left {
        lemma_rightmost_key(*left);
    }
    if before.left is None || before.right is None {
        let b = before.shape();
        assert(BinTree::Nil.keys() =~= Set::<i64>::empty());
        assert(!b->left.keys().contains(before.key));
        assert(!b->right.keys().contains(before.key));
        lemma_black_height_zero(before.left);
        lemma_black_height_zero(before.right);
    }
}

/// The rightmost node holds the rightmost key.
proof fn lemma_rightmost_key(node: RBNode)
    ensures
        rightmost_node(node).key == node.shape().rightmost(),
    decreases node,
{
    if let Some(right) = node.right {
        lemma_rightmost_key(*right);
    }
}

} // verus!
