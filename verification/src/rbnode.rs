//! The node of a color-balanced tree, and what its colors have to satisfy.

use crate::node::{link_shape, Links, Node};
use crate::shape::BinTree;
use vstd::prelude::*;

verus! {

/// The color of a node of a red-black tree.
#[derive(Clone, Copy, Debug, PartialEq, Eq, Structural)]
pub enum NodeColor {
    Red,
    Black,
}

/// A child link of a red-black tree.
pub type OptionNode = Option<Box<RBNode>>;

/// One key of a red-black tree, with its color.
///
/// A node owns its children. The way up from a node is the chain of calls
/// that led down to it, so a node stores no link to its parent.
#[derive(Debug)]
pub struct RBNode {
    pub key: i64,
    pub color: NodeColor,
    pub left: OptionNode,
    pub right: OptionNode,
}

impl Links for RBNode {
    open spec fn key_spec(&self) -> i64 {
        self.key
    }

    open spec fn left_spec(&self) -> Option<Box<Self>> {
        self.left
    }

    open spec fn right_spec(&self) -> Option<Box<Self>> {
        self.right
    }

    open spec fn shape(&self) -> BinTree
        decreases self,
    {
        BinTree::Fork {
            left: Box::new(
                match self.left {
                    None => BinTree::Nil,
                    Some(l) => l.shape(),
                },
            ),
            key: self.key,
            right: Box::new(
                match self.right {
                    None => BinTree::Nil,
                    Some(r) => r.shape(),
                },
            ),
        }
    }

    proof fn shape_unfolds(&self) {
    }

    /// A fresh node is red.
    fn new(key: i64) -> (node: Option<Box<Self>>)
        ensures
            node == Some(Box::new(RBNode { key, color: NodeColor::Red, left: None, right: None })),
    {
        Some(Box::new(RBNode { color: NodeColor::Red, key, left: None, right: None }))
    }

    fn get_left(&self) -> (left: &Option<Box<Self>>) {
        &self.left
    }

    fn get_right(&self) -> (right: &Option<Box<Self>>) {
        &self.right
    }

    fn get_key(&self) -> (key: i64) {
        self.key
    }
}

impl Node for RBNode {

}

/// Whether a link leads to a red node. An absent node counts as black.
pub open spec fn is_red(link: OptionNode) -> bool {
    link matches Some(n) && n.color == NodeColor::Red
}

/// The number of black nodes on the leftmost path below a link. Where the
/// subtree is `black_balanced`, every path down from the link has as many.
pub open spec fn black_height(link: OptionNode) -> nat
    decreases link,
{
    match link {
        None => 0,
        Some(n) => black_height(n.left) + if n.color == NodeColor::Black {
            1nat
        } else {
            0nat
        },
    }
}

/// Every path from a node below the link down to an absent position passes
/// through the same number of black nodes.
pub open spec fn black_balanced(link: OptionNode) -> bool
    decreases link,
{
    match link {
        None => true,
        Some(n) => {
            &&& black_balanced(n.left)
            &&& black_balanced(n.right)
            &&& black_height(n.left) == black_height(n.right)
        },
    }
}

/// No red node below the link has a red child.
pub open spec fn no_red_red(link: OptionNode) -> bool
    decreases link,
{
    match link {
        None => true,
        Some(n) => {
            &&& no_red_red(n.left)
            &&& no_red_red(n.right)
            &&& n.color == NodeColor::Red ==> !is_red(n.left) && !is_red(n.right)
        },
    }
}

/// The invariant of a subtree of a red-black tree: search-tree order, no red
/// node with a red child, and the same number of black nodes on every path
/// down. The root of a subtree may be red.
pub open spec fn rb_subtree(link: OptionNode) -> bool {
    &&& link_shape(link).is_bst()
    &&& black_balanced(link)
    &&& no_red_red(link)
}

} // verus!
