//! The node of a height-balanced tree, with insertion and deletion that
//! rebalance by rotation on the way back up.

use crate::node::{link_shape, Links, Node};
use crate::shape::BinTree;
use vstd::prelude::*;

verus! {

/// A child link of a height-balanced tree.
pub type OptionNode = Option<Box<AVLNode>>;

/// One key of a height-balanced tree, with the height of the subtree below it.
#[derive(Debug)]
pub struct AVLNode {
    pub key: i64,
    left: OptionNode,
    right: OptionNode,
    height: u32,
}

impl Links for AVLNode {
    closed spec fn key_spec(&self) -> i64 {
        self.key
    }

    closed spec fn left_spec(&self) -> Option<Box<Self>> {
        self.left
    }

    closed spec fn right_spec(&self) -> Option<Box<Self>> {
        self.right
    }

    closed spec fn shape(&self) -> BinTree
        decreases self,
    {
        BinTree::Fork {
            left: Box::new(
                match self.left {
                    None => BinTree::Nil,
                    Some(l) => l.shape(),
                },
            ),
            key: self.key,
            right: Box::new(
                match self.right {
                    None => BinTree::Nil,
                    Some(r) => r.shape(),
                },
            ),
        }
    }

    proof fn shape_unfolds(&self) {
    }

    fn new(key: i64) -> (node: Option<Box<Self>>)
        ensures
            node matches Some(n) && n.wf() && n.shape() == BinTree::leaf(key),
    {
        let node = AVLNode { key, left: None, right: None, height: 1 };
        proof {
            reveal_with_fuel(BinTree::height, 2);
            reveal_with_fuel(BinTree::is_bst, 2);
            reveal_with_fuel(BinTree::is_balanced, 2);
            assert(node.shape() == BinTree::leaf(key));
            assert(BinTree::Nil.keys() =~= Set::<i64>::empty());
            assert(node.heights_cached());
        }
        Some(Box::new(node))
    }

    fn get_left(&self) -> (left: &Option<Box<Self>>) {
        &self.left
    }

    fn get_right(&self) -> (right: &Option<Box<Self>>) {
        &self.right
    }

    fn get_key(&self) -> (key: i64) {
        self.key
    }
}

impl Node for AVLNode {

}

/// Whether the subtree below a link, if any, is a well-formed height-balanced tree.
pub open spec fn link_wf(link: OptionNode) -> bool {
    match link {
        None => true,
        Some(n) => n.wf(),
    }
}

/// Whether every node below a link caches the height of its subtree.
pub open spec fn link_cached(link: OptionNode) -> bool {
    match link {
        None => true,
        Some(n) => n.heights_cached(),
    }
}

impl AVLNode {
    /// Every node of this subtree stores the height of the subtree below it.
    pub closed spec fn heights_cached(&self) -> bool
        decreases self,
    {
        &&& self.height == self.shape().height()
        &&& match self.left {
            None => true,
            Some(l) => l.heights_cached(),
        }
        &&& match self.right {
            None => true,
            Some(r) => r.heights_cached(),
        }
    }

    /// The invariant of a height-balanced subtree: search-tree order, subtree
    /// heights that differ by at most one at every node, and cached heights
    /// that are right.
    pub open spec fn wf(&self) -> bool {
        &&& self.shape().is_bst()
        &&& self.shape().is_balanced()
        &&& self.heights_cached()
    }

    /// The children of a node with cached heights have cached heights, and
    /// the height fits the machine word that caches it.
    pub proof fn lemma_cached_children(&self)
        requires
            self.heights_cached(),
        ensures
            link_cached(self.left_spec()),
            link_cached(self.right_spec()),
            self.shape().height() <= u32::MAX,
    {
    }

    /// The invariant of a subtree holds of the subtrees below both children.
    pub proof fn lemma_wf_children(&self)
        requires
            self.wf(),
        ensures
            link_wf(self.left_spec()),
            link_wf(self.right_spec()),
    {
        self.shape_unfolds();
    }

    fn _get_height(node: &OptionNode) -> (h: u32)
        ensures
            h == match *node {
                None => 0,
                Some(n) => n.height,
            },
            link_cached(*node) ==> h == link_shape(*node).height(),
    {
        match node {
            None => 0,
            Some(this_node) => this_node.height,
        }
    }

    fn _get_left_height(node: &AVLNode) -> (h: u32)
        ensures
            h == match node.left {
                None => 0,
                Some(n) => n.height,
            },
            link_cached(node.left) ==> h == link_shape(node.left).height(),
    {
        Self::_get_height(&node.left)
    }

    fn _get_right_height(node: &AVLNode) -> (h: u32)
        ensures
            h == match node.right {
                None => 0,
                Some(n) => n.height,
            },
            link_cached(node.right) ==> h == link_shape(node.right).height(),
    {
        Self::_get_height(&node.right)
    }

    fn _get_balance_factor(node: &AVLNode) -> (bf: i64)
        ensures
            link_cached(node.left) && link_cached(node.right) ==> bf == link_shape(
                node.left,
            ).height() - link_shape(node.right).height(),
    {
        Self::_get_left_height(node) as i64 - Self::_get_right_height(node) as i64
    }

    fn _max_height(node: &AVLNode) -> (h: u32)
        ensures
            link_cached(node.left) && link_cached(node.right) ==> h + 1
                == node.shape().height(),
    {
        let left_height: u32 = Self::_get_left_height(node);
        let right_height: u32 = Self::_get_right_height(node);
        if left_height >= right_height {
            left_height
        } else {
            right_height
        }
    }

    fn _left_rotate(root: Box<AVLNode>) -> (new_root: Box<AVLNode>)
        requires
            root.right is Some,
            link_cached(root.left),
            link_cached(root.right),
            root.shape().rotate_left().height() <= u32::MAX,
        ensures
            new_root.shape() == root.shape().rotate_left(),
            new_root.heights_cached(),
    {
        let mut root = root;
        let mut new_root = root.right.take().unwrap();
        proof {
            new_root.lemma_cached_children();
        }
        root.right = new_root.left.take();
        proof {
            reveal_with_fuel(BinTree::height, 2);
        }
        root.height = 1 + Self::_max_height(&root);
        assert(root.heights_cached());
        new_root.left = Some(root);
        new_root.height = 1 + Self::_max_height(&new_root);
        new_root
    }

    fn _right_rotate(root: Box<AVLNode>) -> (new_root: Box<AVLNode>)
        requires
            root.left is Some,
            link_cached(root.left),
            link_cached(root.right),
            root.shape().rotate_right().height() <= u32::MAX,
        ensures
            new_root.shape() == root.shape().rotate_right(),
            new_root.heights_cached(),
    {
        let mut root = root;
        let mut new_root = root.left.take().unwrap();
        proof {
            new_root.lemma_cached_children();
        }
        root.left = new_root.right.take();
        proof {
            reveal_with_fuel(BinTree::height, 2);
        }
        root.height = 1 + Self::_max_height(&root);
        assert(root.heights_cached());
        new_root.right = Some(root);
        new_root.height = 1 + Self::_max_height(&new_root);
        new_root
    }

    fn _left_right_rotate(root: Box<AVLNode>) -> (new_root: Box<AVLNode>)
        requires
            root.left is Some,
            *root.shape()->left->right is Fork,
            link_cached(root.left),
            link_cached(root.right),
            root.shape()->left.rotate_left().height() <= u32::MAX,
            root.shape().rotate_left_right().height() <= u32::MAX,
        ensures
            new_root.shape() == root.shape().rotate_left_right(),
            new_root.heights_cached(),
    {
        let mut root = root;
        let left = root.left.take().unwrap();
        proof {
            left.lemma_cached_children();
        }
        root.left = Some(Self::_left_rotate(left));
        Self::_right_rotate(root)
    }

    fn _right_left_rotate(root: Box<AVLNode>) -> (new_root: Box<AVLNode>)
        requires
            root.right is Some,
            *root.shape()->right->left is Fork,
            link_cached(root.left),
            link_cached(root.right),
            root.shape()->right.rotate_right().height() <= u32::MAX,
            root.shape().rotate_right_left().height() <= u32::MAX,
        ensures
            new_root.shape() == root.shape().rotate_right_left(),
            new_root.heights_cached(),
    {
        let mut root = root;
        let right = root.right.take().unwrap();
        proof {
            right.lemma_cached_children();
        }
        root.right = Some(Self::_right_rotate(right));
        Self::_left_rotate(root)
    }

    /// Inserts `key` below `node` and returns the root of the rebalanced
    /// subtree. A key that is already there leaves the subtree as it is.
    /// The subtree grows by at most one level, and only on the key's side.
    pub fn insert(node: OptionNode, key: i64) -> (result: OptionNode)
        requires
            link_wf(node),
            link_shape(node).height() < u32::MAX,
        ensures
            result matches Some(r) && r.wf(),
            link_shape(result).keys() =~= link_shape(node).keys().insert(key),
            link_shape(node).keys().contains(key) ==> result == node,
            link_shape(result).height() == link_shape(node).height() || link_shape(
                result,
            ).height() == link_shape(node).height() + 1,
            link_shape(result).height() == link_shape(node).height() + 1 ==> link_shape(
                result,
            ).leans_toward(key),
            link_shape(result) == avl_inserted(link_shape(node), key),
        decreases node,
    {
        let ghost before = link_shape(node);
        let return_node: Box<AVLNode> = match node {
            None => {
                proof {
                    reveal_with_fuel(BinTree::height, 2);
                    assert(BinTree::Nil.keys().insert(key) =~= BinTree::leaf(key).keys());
                }
                return AVLNode::new(key);
            },
            Some(this_node) => {
                let mut this_node = this_node;
                proof {
                    this_node.lemma_wf_children();
                    this_node.lemma_cached_children();
                }
                if key < this_node.key {
                    let left: OptionNode = this_node.left.take();
                    this_node.left = Self::insert(left, key);
                } else if key > this_node.key {
                    let right: OptionNode = this_node.right.take();
                    this_node.right = Self::insert(right, key);
                }
                this_node
            },
        };
        let ghost grown = return_node.shape();
        proof {
            assert(grown_from(before, grown, key));
            if before.keys().contains(key) {
                lemma_insert_present(before, grown, key);
                assert(return_node == node.unwrap());
            }
            lemma_insert_order(before, grown, key);
            lemma_insert_balance(before, grown, key);
            grown.lemma_rotate_left();
            grown.lemma_rotate_right();
            grown.lemma_rotate_left_right();
            grown.lemma_rotate_right_left();
        }
        let balance_factor: i64 = Self::_get_balance_factor(&return_node);
        let mut new_return_node: Box<AVLNode> = if balance_factor == 2 {
            let left_key: i64 = return_node.left.as_ref().unwrap().key;
            if key < left_key {
                Self::_right_rotate(return_node)
            } else {
                Self::_left_right_rotate(return_node)
            }
        } else if balance_factor == -2 {
            let right_key: i64 = return_node.right.as_ref().unwrap().key;
            if key < right_key {
                Self::_right_left_rotate(return_node)
            } else {
                Self::_left_rotate(return_node)
            }
        } else {
            return_node
        };
        proof {
            if balance_factor == 2 || balance_factor == -2 {
                new_return_node.lemma_cached_children();
            }
        }
        new_return_node.height = Self::_max_height(&new_return_node) + 1;
        Some(new_return_node)
    }

    /// Deletes `key` below `node` and returns the root of the rebalanced
    /// subtree, or `None` where nothing is left. A key that is not there
    /// leaves the subtree as it is. The subtree shrinks by at most one level.
    pub fn delete(node: OptionNode, key: i64) -> (result: OptionNode)
        requires
            link_wf(node),
        ensures
            link_wf(result),
            link_shape(result).keys() =~= link_shape(node).keys().remove(key),
            !link_shape(node).keys().contains(key) ==> result == node,
            link_shape(result).height() == link_shape(node).height() || link_shape(
                result,
            ).height() + 1 == link_shape(node).height(),
            link_shape(result) == avl_deleted(link_shape(node), key),
        decreases node,
    {
        let ghost before = link_shape(node);
        let mut this_node: Box<AVLNode> = match node {
            None => {
                assert(BinTree::Nil.keys().remove(key) =~= BinTree::Nil.keys());
                return None;
            },
            Some(this_node) => this_node,
        };
        proof {
            this_node.lemma_wf_children();
            this_node.lemma_cached_children();
        }
        let node_key: i64 = this_node.key;
        if node_key > key {
            if this_node.left.is_none() {
                proof {
                    lemma_delete_absent_side(before, key);
                }
                return Some(this_node);
            }
            let left: OptionNode = this_node.left.take();
            this_node.left = Self::delete(left, key);
        } else if node_key < key {
            if this_node.right.is_none() {
                proof {
                    lemma_delete_absent_side(before, key);
                }
                return Some(this_node);
            }
            let right: OptionNode = this_node.right.take();
            this_node.right = Self::delete(right, key);
        } else {
            proof {
                lemma_delete_root(before);
            }
            if this_node.right.is_none() && this_node.left.is_none() {
                return None;
            } else if this_node.right.is_none() {
                return this_node.left.take();
            } else if this_node.left.is_none() {
                return this_node.right.take();
            } else {
                let min_value: i64 = this_node.right.as_ref().unwrap().get_min();
                this_node.key = min_value;
                let right: OptionNode = this_node.right.take();
                this_node.right = Self::delete(right, min_value);
            }
        }
        let ghost shrunk = this_node.shape();
        proof {
            assert(shrunk_from(before, shrunk, key));
            lemma_delete_order(before, shrunk, key);
            lemma_delete_balance(before, shrunk, key);
            shrunk.lemma_rotate_left();
            shrunk.lemma_rotate_right();
            shrunk.lemma_rotate_left_right();
            shrunk.lemma_rotate_right_left();
            if !before.keys().contains(key) {
                assert(this_node == node.unwrap());
            }
        }
        let balance_factor: i64 = Self::_get_balance_factor(&this_node);
        let mut return_node: Box<AVLNode> = if balance_factor == 2 {
            let left_child: &Box<AVLNode> = this_node.left.as_ref().unwrap();
            proof {
                left_child.lemma_cached_children();
            }
            let left_height: u32 = Self::_get_left_height(left_child);
            let right_height: u32 = Self::_get_right_height(left_child);
            if left_height >= right_height {
                Self::_right_rotate(this_node)
            } else {
                Self::_left_right_rotate(this_node)
            }
        } else if balance_factor == -2 {
            let right_child: &Box<AVLNode> = this_node.right.as_ref().unwrap();
            proof {
                right_child.lemma_cached_children();
            }
            let left_height: u32 = Self::_get_left_height(right_child);
            let right_height: u32 = Self::_get_right_height(right_child);
            if right_height >= left_height {
                Self::_left_rotate(this_node)
            } else {
                Self::_right_left_rotate(this_node)
            }
        } else {
            this_node
        };
        proof {
            if balance_factor == 2 || balance_factor == -2 {
                return_node.lemma_cached_children();
            }
        }
        return_node.height = Self::_max_height(&return_node) + 1;
        Some(return_node)
    }
}

/// The tree in which the root of `grown` has been rebalanced: a rotation to
/// the right where the left side is two levels higher, one to the left where
/// the right side is, and a double rotation where the higher child leans inward.
pub open spec fn rebalanced_after_insert(grown: BinTree, key: i64) -> BinTree {
    if grown->left.height() == grown->right.height() + 2 {
        if key < grown->left->key {
            grown.rotate_right()
        } else {
            grown.rotate_left_right()
        }
    } else if grown->right.height() == grown->left.height() + 2 {
        if key < grown->right->key {
            grown.rotate_right_left()
        } else {
            grown.rotate_left()
        }
    } else {
        grown
    }
}

/// The tree in which the root of `shrunk` has been rebalanced: where one side
/// is two levels higher, a single rotation away from it if the higher child
/// does not lean inward, and a double rotation if it does.
pub open spec fn rebalanced_after_delete(shrunk: BinTree) -> BinTree {
    if shrunk->left.height() == shrunk->right.height() + 2 {
        if shrunk->left->left.height() >= shrunk->left->right.height() {
            shrunk.rotate_right()
        } else {
            shrunk.rotate_left_right()
        }
    } else if shrunk->right.height() == shrunk->left.height() + 2 {
        if shrunk->right->right.height() >= shrunk->right->left.height() {
            shrunk.rotate_left()
        } else {
            shrunk.rotate_right_left()
        }
    } else {
        shrunk
    }
}

/// The shape of a height-balanced tree after the insertion of `key`: the key
/// is put where a descent by comparison ends, and every node on the way back
/// up is rebalanced.
pub open spec fn avl_inserted(tree: BinTree, key: i64) -> BinTree
    decreases tree,
{
    match tree {
        BinTree::Nil => BinTree::leaf(key),
        BinTree::Fork { left, key: here, right } => {
            if key < here {
                rebalanced_after_insert(tree.with_left(avl_inserted(*left, key)), key)
            } else if key > here {
                rebalanced_after_insert(tree.with_right(avl_inserted(*right, key)), key)
            } else {
                tree
            }
        },
    }
}

/// The shape of a height-balanced tree after the deletion of `key`. A node
/// with two children takes the smallest key to its right, which is deleted
/// there in turn; every node above a deletion is rebalanced on the way back up.
pub open spec fn avl_deleted(tree: BinTree, key: i64) -> BinTree
    decreases tree,
{
    match tree {
        BinTree::Nil => BinTree::Nil,
        BinTree::Fork { left, key: here, right } => {
            if key < here {
                if *left is Nil {
                    tree
                } else {
                    rebalanced_after_delete(tree.with_left(avl_deleted(*left, key)))
                }
            } else if key > here {
                if *right is Nil {
                    tree
                } else {
                    rebalanced_after_delete(tree.with_right(avl_deleted(*right, key)))
                }
            } else if *right is Nil {
                *left
            } else if *left is Nil {
                *right
            } else {
                let successor = right.leftmost();
                rebalanced_after_delete(
                    tree.with_key(successor).with_right(avl_deleted(*right, successor)),
                )
            }
        },
    }
}

/// What a subtree looks like once `key` has been inserted below one child
/// and before its root is rebalanced: the other child is untouched, and the
/// changed child has grown by at most one level, on the key's side.
spec fn grown_from(before: BinTree, grown: BinTree, key: i64) -> bool {
    &&& before is Fork
    &&& grown is Fork
    &&& grown->key == before->key
    &&& grown->left.is_bst()
    &&& grown->right.is_bst()
    &&& grown->left.is_balanced()
    &&& grown->right.is_balanced()
    &&& if key < before->key {
        &&& grown->right == before->right
        &&& grown->left.keys() =~= before->left.keys().insert(key)
        &&& before->left.keys().contains(key) ==> grown->left == before->left
        &&& grown->left.height() == before->left.height() || (grown->left.height()
            == before->left.height() + 1 && grown->left.leans_toward(key))
    } else if key > before->key {
        &&& grown->left == before->left
        &&& grown->right.keys() =~= before->right.keys().insert(key)
        &&& before->right.keys().contains(key) ==> grown->right == before->right
        &&& grown->right.height() == before->right.height() || (grown->right.height()
            == before->right.height() + 1 && grown->right.leans_toward(key))
    } else {
        grown == before
    }
}

/// Inserting a key that is there changes nothing.
proof fn lemma_insert_present(before: BinTree, grown: BinTree, key: i64)
    requires
        before.is_bst(),
        before.keys().contains(key),
        grown_from(before, grown, key),
    ensures
        grown == before,
{
    if key < before->key {
        assert(!before->right.keys().contains(key));
        assert(before->left.keys().contains(key));
    } else if key > before->key {
        assert(!before->left.keys().contains(key));
        assert(before->right.keys().contains(key));
    }
}

/// An insertion below the root keeps the search-tree order and adds the key.
proof fn lemma_insert_order(before: BinTree, grown: BinTree, key: i64)
    requires
        before.is_bst(),
        grown_from(before, grown, key),
    ensures
        grown.is_bst(),
        grown.keys() =~= before.keys().insert(key),
{
    assert forall|k: i64| grown->left.keys().contains(k) implies k < grown->key by {
        if key < before->key {
            assert(k == key || before->left.keys().contains(k));
        }
    }
    assert forall|k: i64| grown->right.keys().contains(k) implies grown->key < k by {
        if key > before->key {
            assert(k == key || before->right.keys().contains(k));
        }
    }
}

/// After an insertion below the root the two sides differ by at most two
/// levels, and rebalancing the root restores the balance. The result is as
/// high as the tree was before, or one level higher, and then it leans
/// toward the key.
proof fn lemma_insert_balance(before: BinTree, grown: BinTree, key: i64)
    requires
        before.is_balanced(),
        grown_from(before, grown, key),
    ensures
        grown->left.height() <= grown->right.height() + 2,
        grown->right.height() <= grown->left.height() + 2,
        grown->left.height() == grown->right.height() + 2 ==> {
            &&& *grown->left is Fork
            &&& key != grown->left->key
            &&& key > grown->left->key ==> *grown->left->right is Fork
            &&& grown->left.rotate_left().height() <= before.height() + 1
        },
        grown->right.height() == grown->left.height() + 2 ==> {
            &&& *grown->right is Fork
            &&& key != grown->right->key
            &&& key < grown->right->key ==> *grown->right->left is Fork
            &&& grown->right.rotate_right().height() <= before.height() + 1
        },
        rebalanced_after_insert(grown, key).is_balanced(),
        rebalanced_after_insert(grown, key).height() == before.height()
            || rebalanced_after_insert(grown, key).height() == before.height() + 1,
        rebalanced_after_insert(grown, key).height() == before.height() + 1
            ==> rebalanced_after_insert(grown, key).leans_toward(key),
{
    reveal_with_fuel(BinTree::height, 2);
    reveal_with_fuel(BinTree::is_balanced, 2);
    lemma_rotation_balances(grown);
}

/// What a subtree looks like once `key` has been deleted below its root and
/// before the root is rebalanced. Where the root itself held the key, it now
/// holds its successor, which has left the right child.
spec fn shrunk_from(before: BinTree, shrunk: BinTree, key: i64) -> bool {
    &&& before is Fork
    &&& shrunk is Fork
    &&& shrunk->left.is_bst()
    &&& shrunk->right.is_bst()
    &&& shrunk->left.is_balanced()
    &&& shrunk->right.is_balanced()
    &&& if key < before->key {
        &&& shrunk->key == before->key
        &&& shrunk->right == before->right
        &&& shrunk->left.keys() =~= before->left.keys().remove(key)
        &&& !before->left.keys().contains(key) ==> shrunk->left == before->left
        &&& shrunk->left.height() == before->left.height() || shrunk->left.height() + 1
            == before->left.height()
    } else {
        let gone = if key > before->key {
            key
        } else {
            shrunk->key
        };
        &&& key > before->key ==> shrunk->key == before->key
        &&& key == before->key ==> *before->right is Fork && shrunk->key
            == before->right.leftmost()
        &&& shrunk->left == before->left
        &&& shrunk->right.keys() =~= before->right.keys().remove(gone)
        &&& !before->right.keys().contains(gone) ==> shrunk->right == before->right
        &&& shrunk->right.height() == before->right.height() || shrunk->right.height() + 1
            == before->right.height()
    }
}

/// A search tree without a child on the side of `key` does not hold `key`
/// below its root.
proof fn lemma_delete_absent_side(before: BinTree, key: i64)
    requires
        before is Fork,
        before.is_bst(),
        key < before->key && *before->left is Nil || key > before->key && *before->right is Nil,
    ensures
        !before.keys().contains(key),
        before.keys().remove(key) =~= before.keys(),
{
    if key < before->key {
        assert(before->left.keys() =~= Set::<i64>::empty());
        assert(!before->right.keys().contains(key));
    } else {
        assert(before->right.keys() =~= Set::<i64>::empty());
        assert(!before->left.keys().contains(key));
    }
}

/// Deleting the root of a search tree that has at most one child leaves that
/// child, or nothing.
proof fn lemma_delete_root(before: BinTree)
    requires
        before is Fork,
        before.is_bst(),
        before.is_balanced(),
    ensures
        *before->left is Nil ==> before->right.keys() =~= before.keys().remove(before->key)
            && before->right.height() + 1 == before.height(),
        *before->right is Nil ==> before->left.keys() =~= before.keys().remove(before->key)
            && before->left.height() + 1 == before.height(),
{
    reveal_with_fuel(BinTree::height, 2);
    assert(BinTree::Nil.keys() =~= Set::<i64>::empty());
}

/// Where one side of a tree with balanced children is two levels higher
/// than the other, a rotation away from it restores the balance: a single
/// one if the higher child does not lean inward, a double one if it does.
/// A single rotation keeps the height if the higher child leans to neither
/// side; every other case takes one level off.
proof fn lemma_rotation_balances(t: BinTree)
    requires
        t is Fork,
        t->left.is_balanced(),
        t->right.is_balanced(),
    ensures
        t->left.height() == t->right.height() + 2 ==> {
            &&& *t->left is Fork
            &&& t->left.rotate_left().height() <= t->left.height() + 1
            &&& t->left->left.height() >= t->left->right.height() ==> {
                &&& t.rotate_right().is_balanced()
                &&& t.rotate_right().height() == if t->left->left.height()
                    == t->left->right.height() {
                    t.height()
                } else {
                    (t.height() - 1) as nat
                }
            }
            &&& t->left->left.height() < t->left->right.height() ==> {
                &&& *t->left->right is Fork
                &&& t.rotate_left_right().is_balanced()
                &&& t.rotate_left_right().height() + 1 == t.height()
            }
        },
        t->right.height() == t->left.height() + 2 ==> {
            &&& *t->right is Fork
            &&& t->right.rotate_right().height() <= t->right.height() + 1
            &&& t->right->right.height() >= t->right->left.height() ==> {
                &&& t.rotate_left().is_balanced()
                &&& t.rotate_left().height() == if t->right->right.height()
                    == t->right->left.height() {
                    t.height()
                } else {
                    (t.height() - 1) as nat
                }
            }
            &&& t->right->right.height() < t->right->left.height() ==> {
                &&& *t->right->left is Fork
                &&& t.rotate_right_left().is_balanced()
                &&& t.rotate_right_left().height() + 1 == t.height()
            }
        },
{
    if t->left.height() == t->right.height() + 2 {
        let heavy = *t->left;
        assert(heavy is Fork);
        let inner = *heavy->right;
        let low = BinTree::Fork { left: heavy->right, key: t->key, right: t->right };
        assert(t.rotate_right() == BinTree::Fork { left: heavy->left, key: heavy->key, right: Box::new(low) });
        assert(low.height() >= 1 && heavy.height() >= 1 && t.height() >= 1);
        assert(heavy.rotate_left().height() <= heavy.height() + 1) by {
            if inner is Fork {
                let pushed = BinTree::Fork { left: heavy->left, key: heavy->key, right: inner->left };
                assert(heavy.rotate_left() == BinTree::Fork { left: Box::new(pushed), key: inner->key, right: inner->right });
                assert(pushed.height() >= 1 && inner.height() >= 1);
            }
        }
        if heavy->left.height() >= inner.height() {
            assert(low.is_balanced());
            assert(t.rotate_right().is_balanced());
        } else {
            assert(inner is Fork);
            let pushed = BinTree::Fork { left: heavy->left, key: heavy->key, right: inner->left };
            let pulled = BinTree::Fork { left: inner->right, key: t->key, right: t->right };
            let turned = BinTree::Fork { left: Box::new(pushed), key: inner->key, right: inner->right };
            assert(heavy.rotate_left() == turned);
            assert(t.with_left(turned) == BinTree::Fork { left: Box::new(turned), key: t->key, right: t->right });
            assert(t.rotate_left_right() == BinTree::Fork { left: Box::new(pushed), key: inner->key, right: Box::new(pulled) });
            assert(pushed.height() >= 1 && pulled.height() >= 1 && inner.height() >= 1);
            assert(heavy.is_balanced());
            assert(inner.is_balanced());
            assert(inner->left.is_balanced() && inner->right.is_balanced());
            assert(pushed.is_balanced());
            assert(pulled.is_balanced());
            assert(t.rotate_left_right().is_balanced());
        }
    }
    if t->right.height() == t->left.height() + 2 {
        let heavy = *t->right;
        assert(heavy is Fork);
        let inner = *heavy->left;
        let low = BinTree::Fork { left: t->left, key: t->key, right: heavy->left };
        assert(t.rotate_left() == BinTree::Fork { left: Box::new(low), key: heavy->key, right: heavy->right });
        assert(low.height() >= 1 && heavy.height() >= 1 && t.height() >= 1);
        assert(heavy.rotate_right().height() <= heavy.height() + 1) by {
            if inner is Fork {
                let pushed = BinTree::Fork { left: inner->right, key: heavy->key, right: heavy->right };
                assert(heavy.rotate_right() == BinTree::Fork { left: inner->left, key: inner->key, right: Box::new(pushed) });
                assert(pushed.height() >= 1 && inner.height() >= 1);
            }
        }
        if heavy->right.height() >= inner.height() {
            assert(low.is_balanced());
            assert(t.rotate_left().is_balanced());
        } else {
            assert(inner is Fork);
            let pushed = BinTree::Fork { left: inner->right, key: heavy->key, right: heavy->right };
            let pulled = BinTree::Fork { left: t->left, key: t->key, right: inner->left };
            let turned = BinTree::Fork { left: inner->left, key: inner->key, right: Box::new(pushed) };
            assert(heavy.rotate_right() == turned);
            assert(t.with_right(turned) == BinTree::Fork { left: t->left, key: t->key, right: Box::new(turned) });
            assert(t.rotate_right_left() == BinTree::Fork { left: Box::new(pulled), key: inner->key, right: Box::new(pushed) });
            assert(pushed.height() >= 1 && pulled.height() >= 1 && inner.height() >= 1);
            assert(heavy.is_balanced());
            assert(inner.is_balanced());
            assert(inner->left.is_balanced() && inner->right.is_balanced());
            assert(pushed.is_balanced());
            assert(pulled.is_balanced());
            assert(t.rotate_right_left().is_balanced());
        }
    }
}

/// A deletion below the root keeps the search-tree order and removes the key.
proof fn lemma_delete_order(before: BinTree, shrunk: BinTree, key: i64)
    requires
        before.is_bst(),
        shrunk_from(before, shrunk, key),
    ensures
        shrunk.is_bst(),
        shrunk.keys() =~= before.keys().remove(key),
        !before.keys().contains(key) ==> shrunk == before,
{
    if key == before->key {
        before->right.lemma_leftmost_is_min();
        let m = shrunk->key;
        assert(before->right.keys().contains(m));
        assert(before->key < m);
        assert forall|k: i64| shrunk->left.keys().contains(k) implies k < m by {
            assert(k < before->key);
        }
        assert forall|k: i64| shrunk->right.keys().contains(k) implies m < k by {
            assert(before->right.keys().contains(k));
        }
        assert(!before->left.keys().contains(key));
        assert(!before->right.keys().contains(key));
        assert(!before->left.keys().contains(m));
    } else if key < before->key {
        assert forall|k: i64| shrunk->left.keys().contains(k) implies k < shrunk->key by {
            assert(before->left.keys().contains(k));
        }
        assert(!before->right.keys().contains(key));
    } else {
        assert forall|k: i64| shrunk->right.keys().contains(k) implies shrunk->key < k by {
            assert(before->right.keys().contains(k));
        }
        assert(!before->left.keys().contains(key));
    }
}

/// After a deletion below the root the two sides differ by at most two
/// levels, and rebalancing the root restores the balance. The result is as
/// high as the tree was before, or one level lower.
proof fn lemma_delete_balance(before: BinTree, shrunk: BinTree, key: i64)
    requires
        before.is_balanced(),
        shrunk_from(before, shrunk, key),
    ensures
        shrunk->left.height() <= shrunk->right.height() + 2,
        shrunk->right.height() <= shrunk->left.height() + 2,
        shrunk->left.height() == shrunk->right.height() + 2 ==> {
            &&& *shrunk->left is Fork
            &&& shrunk->left->left.height() < shrunk->left->right.height()
                ==> *shrunk->left->right is Fork
            &&& shrunk->left.rotate_left().height() <= before.height()
        },
        shrunk->right.height() == shrunk->left.height() + 2 ==> {
            &&& *shrunk->right is Fork
            &&& shrunk->right->right.height() < shrunk->right->left.height()
                ==> *shrunk->right->left is Fork
            &&& shrunk->right.rotate_right().height() <= before.height()
        },
        shrunk.height() <= before.height(),
        rebalanced_after_delete(shrunk).is_balanced(),
        rebalanced_after_delete(shrunk).height() == before.height() || rebalanced_after_delete(
            shrunk,
        ).height() + 1 == before.height(),
{
    reveal_with_fuel(BinTree::height, 2);
    reveal_with_fuel(BinTree::is_balanced, 2);
    lemma_rotation_balances(shrunk);
}

} // verus!
