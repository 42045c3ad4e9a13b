//! The mathematical model behind every tree of this crate: a binary tree of keys.
//!
//! Node kinds differ in what they store beside a key (a cached height, a color).
//! What they have in common is their shape, and every read-only operation is
//! specified here, once, as a function of that shape.

use vstd::prelude::*;
use vstd::seq_lib::lemma_multiset_commutative;

verus! {

/// A binary tree of keys. `Nil` is the absent subtree.
pub enum BinTree {
    Nil,
    Fork { left: Box<BinTree>, key: i64, right: Box<BinTree> },
}

/// Every element of `s` is smaller than the one after it.
pub open spec fn strictly_ascending(s: Seq<i64>) -> bool {
    forall|i: int, j: int| 0 <= i < j < s.len() ==> s[i] < s[j]
}

impl BinTree {
    /// The tree that holds `key` and nothing else.
    pub open spec fn leaf(key: i64) -> BinTree {
        BinTree::Fork { left: Box::new(BinTree::Nil), key, right: Box::new(BinTree::Nil) }
    }

    /// The keys stored in the tree.
    pub open spec fn keys(self) -> Set<i64>
        decreases self,
    {
        match self {
            BinTree::Nil => Set::empty(),
            BinTree::Fork { left, key, right } => left.keys().union(right.keys()).insert(key),
        }
    }

    /// Search-tree order: at every node, the keys to the left are smaller and
    /// the keys to the right are larger than the node's own key.
    pub open spec fn is_bst(self) -> bool
        decreases self,
    {
        match self {
            BinTree::Nil => true,
            BinTree::Fork { left, key, right } => {
                &&& left.is_bst()
                &&& right.is_bst()
                &&& forall|k: i64| left.keys().contains(k) ==> k < key
                &&& forall|k: i64| right.keys().contains(k) ==> key < k
            },
        }
    }

    /// Number of nodes on the longest path from the root down; 0 for `Nil`.
    pub open spec fn height(self) -> nat
        decreases self,
    {
        match self {
            BinTree::Nil => 0,
            BinTree::Fork { left, key, right } => {
                if left.height() >= right.height() {
                    left.height() + 1
                } else {
                    right.height() + 1
                }
            },
        }
    }

    /// Height balance: at every node the two subtrees differ in height by at most one.
    pub open spec fn is_balanced(self) -> bool
        decreases self,
    {
        match self {
            BinTree::Nil => true,
            BinTree::Fork { left, key, right } => {
                &&& left.is_balanced()
                &&& right.is_balanced()
                &&& left.height() <= right.height() + 1
                &&& right.height() <= left.height() + 1
            },
        }
    }

    /// Number of nodes.
    pub open spec fn node_count(self) -> nat
        decreases self,
    {
        match self {
            BinTree::Nil => 0,
            BinTree::Fork { left, key, right } => left.node_count() + right.node_count() + 1,
        }
    }

    /// Number of nodes without children.
    pub open spec fn leaf_count(self) -> nat
        decreases self,
    {
        match self {
            BinTree::Nil => 0,
            BinTree::Fork { left, key, right } => {
                if *left is Nil && *right is Nil {
                    1
                } else {
                    left.leaf_count() + right.leaf_count()
                }
            },
        }
    }

    /// The key reached by following left links to their end. Meaningful for a `Fork`.
    pub open spec fn leftmost(self) -> i64
        decreases self,
    {
        match self {
            BinTree::Nil => 0,
            BinTree::Fork { left, key, right } => {
                if *left is Nil {
                    key
                } else {
                    left.leftmost()
                }
            },
        }
    }

    /// The key reached by following right links to their end. Meaningful for a `Fork`.
    pub open spec fn rightmost(self) -> i64
        decreases self,
    {
        match self {
            BinTree::Nil => 0,
            BinTree::Fork { left, key, right } => {
                if *right is Nil {
                    key
                } else {
                    right.rightmost()
                }
            },
        }
    }

    /// The subtree at which a descent by comparison with `key` stops: the
    /// subtree whose root holds `key`, or else the one whose root is the last
    /// node on the way. `Nil` only for the empty tree.
    pub open spec fn search_end(self, key: i64) -> BinTree
        decreases self,
    {
        match self {
            BinTree::Nil => BinTree::Nil,
            BinTree::Fork { left, key: here, right } => {
                if key == here {
                    self
                } else if key < here {
                    if *left is Nil {
                        self
                    } else {
                        left.search_end(key)
                    }
                } else {
                    if *right is Nil {
                        self
                    } else {
                        right.search_end(key)
                    }
                }
            },
        }
    }

    /// Whether a descent by comparison with `key` ends at a node that holds it.
    pub open spec fn descends_to(self, key: i64) -> bool
        decreases self,
    {
        match self {
            BinTree::Nil => false,
            BinTree::Fork { left, key: here, right } => {
                if key == here {
                    true
                } else if key < here {
                    left.descends_to(key)
                } else {
                    right.descends_to(key)
                }
            },
        }
    }

    /// Keys in the order left subtree, node, right subtree.
    pub open spec fn in_order(self) -> Seq<i64>
        decreases self,
    {
        match self {
            BinTree::Nil => Seq::empty(),
            BinTree::Fork { left, key, right } => left.in_order().push(key) + right.in_order(),
        }
    }

    /// Keys in the order node, left subtree, right subtree.
    pub open spec fn pre_order(self) -> Seq<i64>
        decreases self,
    {
        match self {
            BinTree::Nil => Seq::empty(),
            BinTree::Fork { left, key, right } => seq![key] + left.pre_order() + right.pre_order(),
        }
    }

    /// Keys in the order left subtree, right subtree, node.
    pub open spec fn post_order(self) -> Seq<i64>
        decreases self,
    {
        match self {
            BinTree::Nil => Seq::empty(),
            BinTree::Fork { left, key, right } => (left.post_order() + right.post_order()).push(key),
        }
    }

    /// The tree after its right child is lifted to the root: the old root
    /// becomes the left child and takes over the lifted node's left subtree.
    /// A tree without a right child stays as it is.
    pub open spec fn rotate_left(self) -> BinTree {
        match self {
            BinTree::Fork { left: a, key: x, right } => match *right {
                BinTree::Fork { left: b, key: y, right: c } => BinTree::Fork {
                    left: Box::new(BinTree::Fork { left: a, key: x, right: b }),
                    key: y,
                    right: c,
                },
                BinTree::Nil => self,
            },
            BinTree::Nil => self,
        }
    }

    /// The tree after its left child is lifted to the root: the old root
    /// becomes the right child and takes over the lifted node's right subtree.
    /// A tree without a left child stays as it is.
    pub open spec fn rotate_right(self) -> BinTree {
        match self {
            BinTree::Fork { left, key: y, right: c } => match *left {
                BinTree::Fork { left: a, key: x, right: b } => BinTree::Fork {
                    left: a,
                    key: x,
                    right: Box::new(BinTree::Fork { left: b, key: y, right: c }),
                },
                BinTree::Nil => self,
            },
            BinTree::Nil => self,
        }
    }

    /// A left rotation at the left child followed by a right rotation at the root.
    pub open spec fn rotate_left_right(self) -> BinTree {
        match self {
            BinTree::Fork { left, key, right } => self.with_left(left.rotate_left()).rotate_right(),
            BinTree::Nil => self,
        }
    }

    /// A right rotation at the right child followed by a left rotation at the root.
    pub open spec fn rotate_right_left(self) -> BinTree {
        match self {
            BinTree::Fork { left, key, right } => self.with_right(right.rotate_right()).rotate_left(),
            BinTree::Nil => self,
        }
    }

    /// Whether the tree is higher on the side on which `key` belongs, or is
    /// the single node that holds `key`.
    pub open spec fn leans_toward(self, key: i64) -> bool {
        match self {
            BinTree::Nil => false,
            BinTree::Fork { left, key: here, right } => {
                ||| key < here && left.height() > right.height()
                ||| key > here && right.height() > left.height()
                ||| key == here && *left is Nil && *right is Nil
            },
        }
    }

    /// The same tree with another key at the root.
    pub open spec fn with_key(self, key: i64) -> BinTree {
        match self {
            BinTree::Fork { left, key: _, right } => BinTree::Fork { left, key, right },
            BinTree::Nil => self,
        }
    }

    /// The same tree with another left subtree.
    pub open spec fn with_left(self, left: BinTree) -> BinTree {
        match self {
            BinTree::Fork { left: _, key, right } => BinTree::Fork { left: Box::new(left), key, right },
            BinTree::Nil => self,
        }
    }

    /// The same tree with another right subtree.
    pub open spec fn with_right(self, right: BinTree) -> BinTree {
        match self {
            BinTree::Fork { left, key, right: _ } => BinTree::Fork { left, key, right: Box::new(right) },
            BinTree::Nil => self,
        }
    }

    /// A rotation keeps the keys, their in-order sequence and the search-tree order.
    pub proof fn lemma_rotate_left(self)
        ensures
            self.rotate_left().keys() =~= self.keys(),
            self.rotate_left().in_order() =~= self.in_order(),
            self.is_bst() ==> self.rotate_left().is_bst(),
            self.rotate_left().node_count() == self.node_count(),
    {
        reveal_with_fuel(BinTree::keys, 3);
        reveal_with_fuel(BinTree::in_order, 3);
        reveal_with_fuel(BinTree::is_bst, 3);
        reveal_with_fuel(BinTree::node_count, 3);
        if self is Fork && *self->right is Fork && self.is_bst() {
            let x = self->key;
            let y = self->right->key;
            let low = BinTree::Fork { left: self->left, key: x, right: self->right->left };
            assert(self->right.keys().contains(y));
            assert(x < y);
            assert(self->right.is_bst());
            assert forall|k: i64| low.keys().contains(k) implies k < y by {
                if self->right->left.keys().contains(k) {
                    assert(k < y);
                } else if self->left.keys().contains(k) {
                    assert(k < x);
                } else {
                    assert(k == x);
                }
            }
            assert forall|k: i64| self->right->left.keys().contains(k) implies x < k by {
                assert(self->right.keys().contains(k));
            }
        }
    }

    /// A rotation keeps the keys, their in-order sequence and the search-tree order.
    pub proof fn lemma_rotate_right(self)
        ensures
            self.rotate_right().keys() =~= self.keys(),
            self.rotate_right().in_order() =~= self.in_order(),
            self.is_bst() ==> self.rotate_right().is_bst(),
            self.rotate_right().node_count() == self.node_count(),
    {
        reveal_with_fuel(BinTree::keys, 3);
        reveal_with_fuel(BinTree::in_order, 3);
        reveal_with_fuel(BinTree::is_bst, 3);
        reveal_with_fuel(BinTree::node_count, 3);
        if self is Fork && *self->left is Fork && self.is_bst() {
            let y = self->key;
            let x = self->left->key;
            let high = BinTree::Fork { left: self->left->right, key: y, right: self->right };
            assert(self->left.keys().contains(x));
            assert(x < y);
            assert(self->left.is_bst());
            assert forall|k: i64| high.keys().contains(k) implies x < k by {
                if self->left->right.keys().contains(k) {
                    assert(x < k);
                } else if self->right.keys().contains(k) {
                    assert(y < k);
                } else {
                    assert(k == y);
                }
            }
            assert forall|k: i64| self->left->right.keys().contains(k) implies k < y by {
                assert(self->left.keys().contains(k));
            }
        }
    }

    /// A double rotation keeps the keys, their in-order sequence and the search-tree order.
    pub proof fn lemma_rotate_left_right(self)
        ensures
            self.rotate_left_right().keys() =~= self.keys(),
            self.rotate_left_right().in_order() =~= self.in_order(),
            self.is_bst() ==> self.rotate_left_right().is_bst(),
            self.rotate_left_right().node_count() == self.node_count(),
    {
        if self is Fork {
            let inner = self->left.rotate_left();
            let mid = self.with_left(inner);
            self->left.lemma_rotate_left();
            mid.lemma_rotate_right();
        }
    }

    /// A double rotation keeps the keys, their in-order sequence and the search-tree order.
    pub proof fn lemma_rotate_right_left(self)
        ensures
            self.rotate_right_left().keys() =~= self.keys(),
            self.rotate_right_left().in_order() =~= self.in_order(),
            self.is_bst() ==> self.rotate_right_left().is_bst(),
            self.rotate_right_left().node_count() == self.node_count(),
    {
        if self is Fork {
            let inner = self->right.rotate_right();
            let mid = self.with_right(inner);
            self->right.lemma_rotate_right();
            mid.lemma_rotate_left();
        }
    }

    /// Only the empty tree holds no key.
    pub proof fn lemma_no_keys_iff_nil(self)
        ensures
            self.keys() =~= Set::<i64>::empty() <==> self is Nil,
    {
        match self {
            BinTree::Nil => {},
            BinTree::Fork { left, key, right } => {
                assert(self.keys().contains(key));
            },
        }
    }

    /// In a search tree no key occurs twice: there are as many keys as nodes.
    pub proof fn lemma_key_count(self)
        requires
            self.is_bst(),
        ensures
            self.keys().finite(),
            self.keys().len() == self.node_count(),
        decreases self,
    {
        match self {
            BinTree::Nil => {},
            BinTree::Fork { left, key, right } => {
                left.lemma_key_count();
                right.lemma_key_count();
                assert(left.keys().disjoint(right.keys())) by {
                    assert forall|k: i64| left.keys().contains(k) implies !right.keys().contains(
                        k,
                    ) by {}
                }
                vstd::set_lib::lemma_set_disjoint_lens(left.keys(), right.keys());
                assert(left.keys() + right.keys() =~= left.keys().union(right.keys()));
            },
        }
    }

    /// A tree is at most as high as it has nodes.
    pub proof fn lemma_height_le_count(self)
        ensures
            self.height() <= self.node_count(),
            self.leaf_count() <= self.node_count(),
        decreases self,
    {
        match self {
            BinTree::Nil => {},
            BinTree::Fork { left, key, right } => {
                left.lemma_height_le_count();
                right.lemma_height_le_count();
            },
        }
    }

    /// In a search tree, descent by comparison finds exactly the keys it holds.
    pub proof fn lemma_descent_finds(self, key: i64)
        requires
            self.is_bst(),
        ensures
            self.descends_to(key) == self.keys().contains(key),
        decreases self,
    {
        match self {
            BinTree::Nil => {},
            BinTree::Fork { left, key: here, right } => {
                left.lemma_descent_finds(key);
                right.lemma_descent_finds(key);
            },
        }
    }

    /// In a search tree the leftmost key is the smallest.
    pub proof fn lemma_leftmost_is_min(self)
        requires
            self is Fork,
            self.is_bst(),
        ensures
            self.keys().contains(self.leftmost()),
            forall|k: i64| self.keys().contains(k) ==> self.leftmost() <= k,
        decreases self,
    {
        let left = *self->left;
        if left is Fork {
            left.lemma_leftmost_is_min();
            assert(left.keys().contains(left.leftmost()));
        } else {
            assert(left.keys() =~= Set::<i64>::empty());
        }
        assert forall|k: i64| self.keys().contains(k) implies self.leftmost() <= k by {
            if self->right.keys().contains(k) {
                assert(self->key < k);
            }
        }
    }

    /// In a search tree the rightmost key is the largest.
    pub proof fn lemma_rightmost_is_max(self)
        requires
            self is Fork,
            self.is_bst(),
        ensures
            self.keys().contains(self.rightmost()),
            forall|k: i64| self.keys().contains(k) ==> k <= self.rightmost(),
        decreases self,
    {
        let right = *self->right;
        if right is Fork {
            right.lemma_rightmost_is_max();
            assert(right.keys().contains(right.rightmost()));
        } else {
            assert(right.keys() =~= Set::<i64>::empty());
        }
        assert forall|k: i64| self.keys().contains(k) implies k <= self.rightmost() by {
            if self->left.keys().contains(k) {
                assert(k < self->key);
            }
        }
    }

    /// The in-order walk visits exactly the keys of the tree.
    pub proof fn lemma_in_order_keys(self)
        ensures
            self.in_order().to_set() =~= self.keys(),
        decreases self,
    {
        match self {
            BinTree::Nil => {},
            BinTree::Fork { left, key, right } => {
                left.lemma_in_order_keys();
                right.lemma_in_order_keys();
                let l = left.in_order();
                let r = right.in_order();
                let all = self.in_order();
                assert forall|k: i64| all.to_set().contains(k) implies self.keys().contains(k) by {
                    let i = choose|i: int| 0 <= i < all.len() && all[i] == k;
                    if i < l.len() {
                        assert(l.to_set().contains(l[i]));
                    } else if i > l.len() {
                        assert(r.to_set().contains(r[i - l.len() - 1]));
                    }
                }
                assert forall|k: i64| self.keys().contains(k) implies all.to_set().contains(k) by {
                    if left.keys().contains(k) {
                        assert(l.to_set().contains(k));
                        let i = choose|i: int| 0 <= i < l.len() && l[i] == k;
                        assert(all[i] == k);
                    } else if right.keys().contains(k) {
                        assert(r.to_set().contains(k));
                        let i = choose|i: int| 0 <= i < r.len() && r[i] == k;
                        assert(all[l.len() + 1 + i] == k);
                    } else {
                        assert(all[l.len() as int] == k);
                    }
                }
            },
        }
    }

    /// The in-order walk of a search tree is strictly ascending.
    pub proof fn lemma_in_order_ascending(self)
        requires
            self.is_bst(),
        ensures
            strictly_ascending(self.in_order()),
        decreases self,
    {
        match self {
            BinTree::Nil => {},
            BinTree::Fork { left, key, right } => {
                left.lemma_in_order_ascending();
                right.lemma_in_order_ascending();
                left.lemma_in_order_keys();
                right.lemma_in_order_keys();
                let l = left.in_order();
                let r = right.in_order();
                let all = self.in_order();
                assert forall|i: int, j: int| 0 <= i < j < all.len() implies all[i] < all[j] by {
                    if i < l.len() {
                        assert(l.to_set().contains(l[i]));
                    }
                    if j > l.len() {
                        assert(r.to_set().contains(r[j - l.len() - 1]));
                    }
                }
            },
        }
    }

    /// Each of the three walks visits every node once.
    pub proof fn lemma_walk_lengths(self)
        ensures
            self.in_order().len() == self.node_count(),
            self.pre_order().len() == self.node_count(),
            self.post_order().len() == self.node_count(),
        decreases self,
    {
        match self {
            BinTree::Nil => {},
            BinTree::Fork { left, key, right } => {
                left.lemma_walk_lengths();
                right.lemma_walk_lengths();
            },
        }
    }

    /// The three walks list the same keys, each as often as the others.
    pub proof fn lemma_walks_permute(self)
        ensures
            self.pre_order().to_multiset() =~= self.in_order().to_multiset(),
            self.post_order().to_multiset() =~= self.in_order().to_multiset(),
        decreases self,
    {
        match self {
            BinTree::Nil => {},
            BinTree::Fork { left, key, right } => {
                left.lemma_walks_permute();
                right.lemma_walks_permute();
                let one = seq![key];
                assert(left.in_order().push(key) =~= left.in_order() + one);
                assert((left.post_order() + right.post_order()).push(key) =~= left.post_order()
                    + right.post_order() + one);
                lemma_multiset_commutative(left.in_order(), one);
                lemma_multiset_commutative(left.in_order() + one, right.in_order());
                lemma_multiset_commutative(one, left.pre_order());
                lemma_multiset_commutative(one + left.pre_order(), right.pre_order());
                lemma_multiset_commutative(left.post_order(), right.post_order());
                lemma_multiset_commutative(left.post_order() + right.post_order(), one);
            },
        }
    }
}

/// Two strictly ascending sequences with the same elements are the same sequence.
pub proof fn lemma_ascending_unique(a: Seq<i64>, b: Seq<i64>)
    requires
        strictly_ascending(a),
        strictly_ascending(b),
        a.to_set() =~= b.to_set(),
    ensures
        a =~= b,
    decreases a.len(),
{
    if a.len() == 0 {
        if b.len() > 0 {
            assert(b.to_set().contains(b[0]));
        }
    } else if b.len() == 0 {
        assert(a.to_set().contains(a[0]));
    } else {
        let x = a.last();
        let y = b.last();
        assert(a.to_set().contains(x));
        assert(b.to_set().contains(y));
        assert(b.contains(x));
        assert(a.contains(y));
        assert(x == y);
        let a0 = a.drop_last();
        let b0 = b.drop_last();
        assert forall|k: i64| a0.to_set().contains(k) <==> b0.to_set().contains(k) by {
            if a0.contains(k) {
                let i = choose|i: int| 0 <= i < a0.len() && a0[i] == k;
                assert(a[i] == k);
                assert(a.to_set().contains(k));
                let j = choose|j: int| 0 <= j < b.len() && b[j] == k;
                assert(b0[j] == k);
            }
            if b0.contains(k) {
                let i = choose|i: int| 0 <= i < b0.len() && b0[i] == k;
                assert(b[i] == k);
                assert(b.to_set().contains(k));
                let j = choose|j: int| 0 <= j < a.len() && a[j] == k;
                assert(a0[j] == k);
            }
        }
        lemma_ascending_unique(a0, b0);
        assert(a =~= a0.push(x));
        assert(b =~= b0.push(y));
    }
}

} // verus!
