//! What every node kind offers: its key, its two children, and the read-only
//! operations that follow from them alone.

use crate::shape::BinTree;
use vstd::prelude::*;

verus! {

/// Read access to one node of a binary tree.
///
/// A node kind says what its key and children are, and what tree of keys it
/// is the root of. `shape_unfolds` ties the two together.
pub trait Links: Sized {
    /// The key stored in this node.
    spec fn key_spec(&self) -> i64;

    /// The left child.
    spec fn left_spec(&self) -> Option<Box<Self>>;

    /// The right child.
    spec fn right_spec(&self) -> Option<Box<Self>>;

    /// The tree of keys rooted at this node.
    spec fn shape(&self) -> BinTree;

    /// The shape of a node is made of its key and the shapes of its children.
    proof fn shape_unfolds(&self)
        ensures
            self.shape() is Fork,
            self.shape()->key == self.key_spec(),
            *self.shape()->left == (match self.left_spec() {
                None => BinTree::Nil,
                Some(l) => l.shape(),
            }),
            *self.shape()->right == (match self.right_spec() {
                None => BinTree::Nil,
                Some(r) => r.shape(),
            }),
    ;

    /// A fresh node without children.
    fn new(key: i64) -> (node: Option<Box<Self>>)
        ensures
            node matches Some(n) && n.key_spec() == key && n.left_spec() is None
                && n.right_spec() is None,
    ;

    fn get_left(&self) -> (left: &Option<Box<Self>>)
        ensures
            *left == self.left_spec(),
    ;

    fn get_right(&self) -> (right: &Option<Box<Self>>)
        ensures
            *right == self.right_spec(),
    ;

    fn get_key(&self) -> (key: i64)
        ensures
            key == self.key_spec(),
    ;
}

/// The tree of keys below a child link; `Nil` where there is no child.
pub open spec fn link_shape<N: Links>(link: Option<Box<N>>) -> BinTree {
    match link {
        None => BinTree::Nil,
        Some(n) => n.shape(),
    }
}

/// The node at which a descent from `node` by comparison with `key` stops:
/// the one that holds `key`, or the last one on the way.
pub open spec fn search_node<N: Links>(node: N, key: i64) -> N
    decreases node.shape(),
{
    let next = if key < node.key_spec() {
        node.left_spec()
    } else {
        node.right_spec()
    };
    if key == node.key_spec() {
        node
    } else {
        match next {
            None => node,
            Some(child) => {
                proof {
                    node.shape_unfolds();
                }
                search_node(*child, key)
            },
        }
    }
}

/// Where a descent stops: at a node that holds `key` exactly if the descent
/// through the shape meets `key`, and else at a node without a child on the
/// side of `key`, below which `key` would be inserted.
pub proof fn lemma_search_node<N: Links>(node: N, key: i64)
    ensures
        search_node(node, key).key_spec() == key <==> node.shape().descends_to(key),
        key < search_node(node, key).key_spec() ==> search_node(node, key).left_spec() is None,
        key > search_node(node, key).key_spec() ==> search_node(node, key).right_spec() is None,
        search_node(node, key).shape() == node.shape().search_end(key),
    decreases node.shape(),
{
    reveal_with_fuel(BinTree::descends_to, 2);
    node.shape_unfolds();
    if key != node.key_spec() {
        let next = if key < node.key_spec() {
            node.left_spec()
        } else {
            node.right_spec()
        };
        match next {
            None => {},
            Some(child) => {
                child.shape_unfolds();
                lemma_search_node(*child, key);
            },
        }
    }
}

fn height_of<N: Links>(node: &N) -> (h: u32)
    requires
        node.shape().height() <= u32::MAX,
    ensures
        h == node.shape().height(),
    decreases node.shape(),
{
    proof {
        reveal_with_fuel(BinTree::height, 2);
        node.shape_unfolds();
    }
    let left_height: u32 = match node.get_left() {
        None => 0,
        Some(left) => height_of::<N>(left),
    };
    let right_height: u32 = match node.get_right() {
        None => 0,
        Some(right) => height_of::<N>(right),
    };
    if left_height >= right_height {
        left_height + 1
    } else {
        right_height + 1
    }
}

fn min_of<N: Links>(node: &N) -> (m: i64)
    ensures
        m == node.shape().leftmost(),
    decreases node.shape(),
{
    proof {
        node.shape_unfolds();
    }
    match node.get_left() {
        None => node.get_key(),
        Some(left) => {
            proof {
                left.shape_unfolds();
            }
            min_of::<N>(left)
        },
    }
}

fn max_of<N: Links>(node: &N) -> (m: i64)
    ensures
        m == node.shape().rightmost(),
    decreases node.shape(),
{
    proof {
        node.shape_unfolds();
    }
    match node.get_right() {
        None => node.get_key(),
        Some(right) => {
            proof {
                right.shape_unfolds();
            }
            max_of::<N>(right)
        },
    }
}

fn leaves_of<N: Links>(node: &N) -> (n: u32)
    requires
        node.shape().leaf_count() <= u32::MAX,
    ensures
        n == node.shape().leaf_count(),
    decreases node.shape(),
{
    proof {
        reveal_with_fuel(BinTree::leaf_count, 2);
        node.shape_unfolds();
    }
    match (node.get_left(), node.get_right()) {
        (Some(left), Some(right)) => {
            proof {
                left.shape_unfolds();
                right.shape_unfolds();
            }
            leaves_of::<N>(left) + leaves_of::<N>(right)
        },
        (Some(left), None) => {
            proof {
                left.shape_unfolds();
            }
            leaves_of::<N>(left)
        },
        (None, Some(right)) => {
            proof {
                right.shape_unfolds();
            }
            leaves_of::<N>(right)
        },
        (None, None) => 1,
    }
}

fn nodes_of<N: Links>(node: &N) -> (n: u32)
    requires
        node.shape().node_count() <= u32::MAX,
    ensures
        n == node.shape().node_count(),
    decreases node.shape(),
{
    proof {
        reveal_with_fuel(BinTree::node_count, 2);
        node.shape_unfolds();
    }
    let left_count: u32 = match node.get_left() {
        None => 0,
        Some(left) => nodes_of::<N>(left),
    };
    let right_count: u32 = match node.get_right() {
        None => 0,
        Some(right) => nodes_of::<N>(right),
    };
    left_count + right_count + 1
}

fn holds<N: Links>(node: &N, key: i64) -> (found: bool)
    ensures
        found == node.shape().descends_to(key),
    decreases node.shape(),
{
    proof {
        reveal_with_fuel(BinTree::descends_to, 2);
        node.shape_unfolds();
    }
    let here: i64 = node.get_key();
    if here < key {
        match node.get_right() {
            None => false,
            Some(right) => holds::<N>(right, key),
        }
    } else if here > key {
        match node.get_left() {
            None => false,
            Some(left) => holds::<N>(left, key),
        }
    } else {
        true
    }
}

/// The read-only operations shared by every node kind. They are computed by
/// descent through the child links and never look at what else a node stores.
pub trait Node: Links {
    /// Height of the subtree rooted here; 1 for a node without children.
    fn get_height(&self) -> (h: u32)
        requires
            self.shape().height() <= u32::MAX,
        ensures
            h == self.shape().height(),
    {
        height_of(self)
    }

    /// The leftmost key, which in a search tree is the smallest.
    fn get_min(&self) -> (m: i64)
        ensures
            m == self.shape().leftmost(),
            self.shape().is_bst() ==> self.shape().keys().contains(m) && forall|k: i64|
                self.shape().keys().contains(k) ==> m <= k,
    {
        proof {
            self.shape_unfolds();
            if self.shape().is_bst() {
                self.shape().lemma_leftmost_is_min();
            }
        }
        min_of(self)
    }

    /// The rightmost key, which in a search tree is the largest.
    fn get_max(&self) -> (m: i64)
        ensures
            m == self.shape().rightmost(),
            self.shape().is_bst() ==> self.shape().keys().contains(m) && forall|k: i64|
                self.shape().keys().contains(k) ==> k <= m,
    {
        proof {
            self.shape_unfolds();
            if self.shape().is_bst() {
                self.shape().lemma_rightmost_is_max();
            }
        }
        max_of(self)
    }

    /// Number of nodes without children in the subtree rooted here.
    fn count_leaves(&self) -> (n: u32)
        requires
            self.shape().leaf_count() <= u32::MAX,
        ensures
            n == self.shape().leaf_count(),
    {
        leaves_of(self)
    }

    /// Number of nodes in the subtree rooted here, this one included.
    fn count_nodes(&self) -> (n: u32)
        requires
            self.shape().node_count() <= u32::MAX,
        ensures
            n == self.shape().node_count(),
    {
        nodes_of(self)
    }

    /// Descends by comparison and reports whether `key` was met. In a search
    /// tree that is whether the subtree holds `key`.
    fn contains(&self, key: i64) -> (found: bool)
        ensures
            found == self.shape().descends_to(key),
            self.shape().is_bst() ==> found == self.shape().keys().contains(key),
    {
        proof {
            if self.shape().is_bst() {
                self.shape().lemma_descent_finds(key);
            }
        }
        holds(self, key)
    }
}

} // verus!
