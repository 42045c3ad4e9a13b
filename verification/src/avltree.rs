//! The height-balanced tree.

use crate::avlnode::{avl_deleted, avl_inserted, link_wf, AVLNode, OptionNode};
use crate::node::{link_shape, Links};
use crate::tree::Tree;
use vstd::prelude::*;

verus! {

/// A height-balanced binary search tree over `i64` keys.
pub struct AVLTree {
    _root: OptionNode,
}

impl Tree<AVLNode> for AVLTree {
    closed spec fn root(&self) -> Option<Box<AVLNode>> {
        self._root
    }

    /// Search-tree order, subtree heights that differ by at most one at
    /// every node, and cached heights that are right.
    open spec fn wf(&self) -> bool {
        link_wf(self.root())
    }

    /// The height after one more insertion can still be cached.
    open spec fn has_room(&self) -> bool {
        link_shape(self.root()).height() < u32::MAX
    }

    proof fn wf_is_ordered(&self) {
    }

    fn new() -> (tree: Self) {
        Self { _root: None }
    }

    fn get_root(&self) -> (root: &OptionNode) {
        &self._root
    }

    fn insert(&mut self, key: i64)
        ensures
            link_shape(final(self).root()) == avl_inserted(link_shape(old(self).root()), key),
            link_shape(final(self).root()).height() == link_shape(old(self).root()).height()
                || link_shape(final(self).root()).height() == link_shape(
                old(self).root(),
            ).height() + 1,
    {
        match self._root.take() {
            Some(root) => {
                self._root = AVLNode::insert(Some(root), key);
            },
            None => {
                proof {
                    assert(link_shape(self.root()).keys().insert(key) =~= crate::shape::BinTree::leaf(key).keys());
                    reveal_with_fuel(crate::shape::BinTree::height, 2);
                }
                self._root = AVLNode::new(key);
            },
        }
    }

    fn delete(&mut self, key: i64)
        ensures
            link_shape(final(self).root()) == avl_deleted(link_shape(old(self).root()), key),
            link_shape(final(self).root()).height() == link_shape(old(self).root()).height()
                || link_shape(final(self).root()).height() + 1 == link_shape(
                old(self).root(),
            ).height(),
    {
        match self._root.take() {
            Some(root) => {
                self._root = AVLNode::delete(Some(root), key);
            },
            None => {
                assert(link_shape(self.root()).keys().remove(key) =~= link_shape(self.root()).keys());
            },
        }
    }
}

} // verus!
