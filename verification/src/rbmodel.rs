//! What insertion and deletion make of a red-black tree, as functions on
//! values: the rotations, the two repair steps, and the descents that apply
//! them on the way back up.

use crate::rbnode::{is_red, NodeColor, OptionNode, RBNode};
use vstd::prelude::*;

verus! {

/// The node in another color.
pub open spec fn painted(node: RBNode, color: NodeColor) -> RBNode {
    RBNode { key: node.key, color, left: node.left, right: node.right }
}

/// The node with another left child.
pub open spec fn with_left(node: RBNode, left: OptionNode) -> RBNode {
    RBNode { key: node.key, color: node.color, left, right: node.right }
}

/// The node with another right child.
pub open spec fn with_right(node: RBNode, right: OptionNode) -> RBNode {
    RBNode { key: node.key, color: node.color, left: node.left, right }
}

/// The child on the named side.
pub open spec fn child(node: RBNode, left_side: bool) -> OptionNode {
    if left_side {
        node.left
    } else {
        node.right
    }
}

/// The node with another child on the named side.
pub open spec fn with_child(node: RBNode, left_side: bool, child: OptionNode) -> RBNode {
    if left_side {
        with_left(node, child)
    } else {
        with_right(node, child)
    }
}

/// A link to a node.
pub open spec fn link(node: RBNode) -> OptionNode {
    Some(Box::new(node))
}

/// The node with its right child lifted to its place. Colors stay with their nodes.
pub open spec fn rotated_left(node: RBNode) -> RBNode
    recommends
        node.right is Some,
{
    let lifted = *node.right.unwrap();
    with_left(lifted, link(with_right(node, lifted.left)))
}

/// The node with its left child lifted to its place. Colors stay with their nodes.
pub open spec fn rotated_right(node: RBNode) -> RBNode
    recommends
        node.left is Some,
{
    let lifted = *node.left.unwrap();
    with_right(lifted, link(with_left(node, lifted.right)))
}

/// The node with its child on the named side lifted to its place.
pub open spec fn with_child_lifted(node: RBNode, left_side: bool) -> RBNode {
    if left_side {
        rotated_right(node)
    } else {
        rotated_left(node)
    }
}

/// One step of the repair after an insertion, at a node whose child on the
/// named side is the parent of the node that the step below has left red.
///
/// Where parent and child are not both red, nothing changes. With a red
/// uncle, parent and uncle turn black and the grandparent red. With a black
/// or absent uncle, an inner child is first lifted over its parent; then
/// the parent turns black, the grandparent red, and the parent is lifted
/// over the grandparent.
pub open spec fn insert_repaired(grandparent: RBNode, parent_left_side: bool) -> RBNode {
    let parent_link = child(grandparent, parent_left_side);
    let uncle_link = child(grandparent, !parent_left_side);
    if !is_red(parent_link) {
        grandparent
    } else {
        let parent = *parent_link.unwrap();
        if !is_red(parent.left) && !is_red(parent.right) {
            grandparent
        } else if is_red(uncle_link) {
            let uncle = *uncle_link.unwrap();
            let with_parent = with_child(
                grandparent,
                parent_left_side,
                link(painted(parent, NodeColor::Black)),
            );
            painted(
                with_child(with_parent, !parent_left_side, link(painted(uncle, NodeColor::Black))),
                NodeColor::Red,
            )
        } else {
            let outer = if is_red(child(parent, parent_left_side)) {
                parent
            } else {
                with_child_lifted(parent, !parent_left_side)
            };
            with_child_lifted(
                painted(
                    with_child(
                        grandparent,
                        parent_left_side,
                        link(painted(outer, NodeColor::Black)),
                    ),
                    NodeColor::Red,
                ),
                parent_left_side,
            )
        }
    }
}

/// A red node without children.
pub open spec fn red_leaf(key: i64) -> RBNode {
    RBNode { key, color: NodeColor::Red, left: None, right: None }
}

/// The subtree of `node` after `key` has been put below it as a red node
/// and every level up to `node` has been repaired. A key that is there
/// leaves the subtree as it is.
pub open spec fn inserted_below(node: RBNode, key: i64) -> RBNode
    decreases node,
{
    if key == node.key {
        node
    } else {
        let left_side = key < node.key;
        let grown = match child(node, left_side) {
            None => red_leaf(key),
            Some(below) => inserted_below(*below, key),
        };
        insert_repaired(with_child(node, left_side, link(grown)), left_side)
    }
}

/// The tree after the insertion of `key`: the root is black.
pub open spec fn rb_inserted(root: OptionNode, key: i64) -> OptionNode {
    match root {
        None => link(painted(red_leaf(key), NodeColor::Black)),
        Some(node) => link(painted(inserted_below(*node, key), NodeColor::Black)),
    }
}

/// The last node on the way down the right links from `node`.
pub open spec fn rightmost_node(node: RBNode) -> RBNode
    decreases node,
{
    match node.right {
        None => node,
        Some(right) => rightmost_node(*right),
    }
}

/// The node whose key replaces the key of `node` when that key is deleted:
/// the rightmost node of the left subtree if there is one, else the right
/// child, else none.
pub open spec fn replacement_node(node: RBNode) -> Option<RBNode> {
    match (node.left, node.right) {
        (Some(left), _) => Some(rightmost_node(*left)),
        (None, Some(right)) => Some(*right),
        (None, None) => None,
    }
}

/// The repair at the parent of a double black node whose sibling is black
/// or absent. The result is the root that takes the parent's place, and
/// whether that root is double black in turn.
///
/// Without a sibling the parent is double black. With a sibling that has no
/// red child, the sibling turns red, and a red parent turns black, while a
/// black one is double black. With a red far nephew, the nephew turns
/// black, the sibling takes the parent's color, the parent turns black and
/// the sibling is lifted over it. With a red near nephew only, the nephew
/// takes the parent's color, is lifted over the sibling and then over the
/// parent, which turns black.
pub open spec fn repaired_by_black_sibling(parent: RBNode, node_is_left: bool) -> (RBNode, bool) {
    match child(parent, !node_is_left) {
        None => (parent, true),
        Some(sibling) => {
            let far = child(*sibling, !node_is_left);
            let near = child(*sibling, node_is_left);
            if !is_red(far) && !is_red(near) {
                let lowered = with_child(
                    parent,
                    !node_is_left,
                    link(painted(*sibling, NodeColor::Red)),
                );
                if parent.color == NodeColor::Red {
                    (painted(lowered, NodeColor::Black), false)
                } else {
                    (lowered, true)
                }
            } else if is_red(far) {
                let settled = painted(
                    with_child(
                        *sibling,
                        !node_is_left,
                        link(painted(*far.unwrap(), NodeColor::Black)),
                    ),
                    parent.color,
                );
                (
                    with_child_lifted(
                        painted(with_child(parent, !node_is_left, link(settled)), NodeColor::Black),
                        !node_is_left,
                    ),
                    false,
                )
            } else {
                let turned = with_child_lifted(
                    with_child(*sibling, node_is_left, link(painted(*near.unwrap(), parent.color))),
                    node_is_left,
                );
                (
                    with_child_lifted(
                        painted(with_child(parent, !node_is_left, link(turned)), NodeColor::Black),
                        !node_is_left,
                    ),
                    false,
                )
            }
        },
    }
}

/// One step of the repair after a deletion, at the parent of a double black
/// node, which is its child on the side that `node_is_left` names.
///
/// A red sibling turns black, the parent red, and the sibling is lifted
/// over the parent; the parent, now one level lower and with a black
/// sibling, is repaired there. A black or absent sibling is dealt with as
/// `repaired_by_black_sibling` says.
pub open spec fn delete_repaired(parent: RBNode, node_is_left: bool) -> (RBNode, bool) {
    let sibling_link = child(parent, !node_is_left);
    if is_red(sibling_link) {
        let lifted = with_child_lifted(
            painted(
                with_child(
                    parent,
                    !node_is_left,
                    link(painted(*sibling_link.unwrap(), NodeColor::Black)),
                ),
                NodeColor::Red,
            ),
            !node_is_left,
        );
        let (lowered, double_black) = repaired_by_black_sibling(
            *child(lifted, node_is_left).unwrap(),
            node_is_left,
        );
        (with_child(lifted, node_is_left, link(lowered)), double_black)
    } else {
        repaired_by_black_sibling(parent, node_is_left)
    }
}

/// What is left of the subtree of `node` after the deletion of `key`, with
/// every level up to `node` repaired, and whether it is double black: one
/// black node short on every path.
///
/// A node without children leaves, and leaves a double black place if it
/// was black. A node with one child gives way to it; the child turns black,
/// unless both were black, which makes it double black. A node with two
/// children takes the key of its replacement, which is deleted below it in turn.
pub open spec fn deleted_below(node: RBNode, key: i64) -> (OptionNode, bool)
    decreases node,
{
    if key != node.key {
        let left_side = key < node.key;
        match child(node, left_side) {
            None => (link(node), false),
            Some(below) => {
                let (rest, double_black) = deleted_below(*below, key);
                let shrunk = with_child(node, left_side, rest);
                if double_black {
                    let (repaired, still) = delete_repaired(shrunk, left_side);
                    (link(repaired), still)
                } else {
                    (link(shrunk), false)
                }
            },
        }
    } else {
        match replacement_node(node) {
            None => (None, node.color == NodeColor::Black),
            Some(replacement) => {
                let double_black = node.color == NodeColor::Black && replacement.color
                    == NodeColor::Black;
                if node.left is None || node.right is None {
                    let only = *(if node.left is Some {
                        node.left
                    } else {
                        node.right
                    }).unwrap();
                    if double_black {
                        (link(only), true)
                    } else {
                        (link(painted(only, NodeColor::Black)), false)
                    }
                } else {
                    let (rest, double_black_below) = deleted_below(
                        *node.left.unwrap(),
                        replacement.key,
                    );
                    let shrunk = RBNode {
                        key: replacement.key,
                        color: node.color,
                        left: rest,
                        right: node.right,
                    };
                    if double_black_below {
                        let (repaired, still) = delete_repaired(shrunk, true);
                        (link(repaired), still)
                    } else {
                        (link(shrunk), false)
                    }
                }
            },
        }
    }
}

/// The tree after the deletion of `key`.
pub open spec fn rb_deleted(root: OptionNode, key: i64) -> OptionNode {
    match root {
        None => None,
        Some(node) => deleted_below(*node, key).0,
    }
}

} // verus!
