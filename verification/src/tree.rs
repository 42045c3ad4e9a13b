//! The interface shared by both kinds of tree: a root link, insertion and
//! deletion supplied by the tree kind, and search, walks and measurements
//! written once against the node interface.

use crate::node::{lemma_search_node, link_shape, search_node, Links, Node};
use crate::shape::{strictly_ascending, BinTree};
use vstd::prelude::*;

verus! {

/// The keys still to come from an in-order walk whose stack is `stack`, top
/// last: for each node from the top down, its key and then its right subtree.
spec fn pending_in_order<N: Links>(stack: Seq<&N>) -> Seq<i64>
    decreases stack.len(),
{
    if stack.len() == 0 {
        Seq::empty()
    } else {
        seq![stack.last().key_spec()] + link_shape(stack.last().right_spec()).in_order()
            + pending_in_order(stack.drop_last())
    }
}

/// The keys still to come from a pre-order walk whose stack is `stack`, top
/// last: the pre-order walks of the stacked subtrees, from the top down.
spec fn pending_pre_order<N: Links>(stack: Seq<&N>) -> Seq<i64>
    decreases stack.len(),
{
    if stack.len() == 0 {
        Seq::empty()
    } else {
        stack.last().shape().pre_order() + pending_pre_order(stack.drop_last())
    }
}

/// The keys that a post-order walk built from its end still has to put in
/// front, for the stack `stack`, top last: the post-order walks of the
/// stacked subtrees, from the bottom up.
spec fn pending_post_order<N: Links>(stack: Seq<&N>) -> Seq<i64>
    decreases stack.len(),
{
    if stack.len() == 0 {
        Seq::empty()
    } else {
        pending_post_order(stack.drop_last()) + stack.last().shape().post_order()
    }
}

/// A tree of nodes of kind `TN`: one optional root, and the invariant that
/// the tree kind keeps.
pub trait Tree<TN: Node>: Sized {
    /// The root link.
    spec fn root(&self) -> Option<Box<TN>>;

    /// The invariant of this kind of tree.
    spec fn wf(&self) -> bool;

    /// Whether the tree can take one more key without leaving the range of
    /// the machine words that its nodes store.
    spec fn has_room(&self) -> bool;

    /// Every kind of tree keeps its keys in search-tree order.
    proof fn wf_is_ordered(&self)
        requires
            self.wf(),
        ensures
            link_shape(self.root()).is_bst(),
    ;

    /// The empty tree.
    fn new() -> (tree: Self)
        ensures
            tree.wf(),
            tree.has_room(),
            tree.root() is None,
    ;

    fn get_root(&self) -> (root: &Option<Box<TN>>)
        ensures
            *root == self.root(),
    ;

    /// Adds `key` to the keys of the tree. A key that is already there
    /// leaves the tree as it is.
    fn insert(&mut self, key: i64)
        requires
            old(self).wf(),
            old(self).has_room(),
        ensures
            final(self).wf(),
            link_shape(final(self).root()).keys() =~= link_shape(old(self).root()).keys().insert(
                key,
            ),
            link_shape(old(self).root()).keys().contains(key) ==> final(self).root() == old(
                self,
            ).root(),
    ;

    /// Takes `key` from the keys of the tree. A key that is not there leaves
    /// the tree as it is.
    fn delete(&mut self, key: i64)
        requires
            old(self).wf(),
        ensures
            final(self).wf(),
            old(self).has_room() ==> final(self).has_room(),
            link_shape(final(self).root()).keys() =~= link_shape(old(self).root()).keys().remove(
                key,
            ),
            !link_shape(old(self).root()).keys().contains(key) ==> final(self).root() == old(
                self,
            ).root(),
    ;

    /// Height of the tree; 0 for the empty tree.
    fn get_height(&self) -> (h: u32)
        requires
            link_shape(self.root()).height() <= u32::MAX,
        ensures
            h == link_shape(self.root()).height(),
    {
        match self.get_root() {
            None => 0,
            Some(node) => node.get_height(),
        }
    }

    /// The leftmost key, which under the invariant is the smallest; `None`
    /// for the empty tree.
    fn get_min(&self) -> (min: Option<i64>)
        ensures
            self.root() is None <==> min is None,
            min matches Some(m) ==> {
                &&& m == link_shape(self.root()).leftmost()
                &&& link_shape(self.root()).is_bst() ==> link_shape(self.root()).keys().contains(m)
                    && forall|k: i64| link_shape(self.root()).keys().contains(k) ==> m <= k
            },
    {
        match self.get_root() {
            None => None,
            Some(node) => Some(node.get_min()),
        }
    }

    /// The rightmost key, which under the invariant is the largest; `None`
    /// for the empty tree.
    fn get_max(&self) -> (max: Option<i64>)
        ensures
            self.root() is None <==> max is None,
            max matches Some(m) ==> {
                &&& m == link_shape(self.root()).rightmost()
                &&& link_shape(self.root()).is_bst() ==> link_shape(self.root()).keys().contains(m)
                    && forall|k: i64| link_shape(self.root()).keys().contains(k) ==> k <= m
            },
    {
        match self.get_root() {
            None => None,
            Some(node) => Some(node.get_max()),
        }
    }

    /// Number of nodes without children; 0 for the empty tree.
    fn count_leaves(&self) -> (n: u32)
        requires
            link_shape(self.root()).leaf_count() <= u32::MAX,
        ensures
            n == link_shape(self.root()).leaf_count(),
    {
        match self.get_root() {
            None => 0,
            Some(node) => node.count_leaves(),
        }
    }

    /// Number of nodes; 0 for the empty tree. Under the invariant this is
    /// the number of keys.
    fn count_nodes(&self) -> (n: u32)
        requires
            link_shape(self.root()).node_count() <= u32::MAX,
        ensures
            n == link_shape(self.root()).node_count(),
            link_shape(self.root()).is_bst() ==> n == link_shape(self.root()).keys().len(),
    {
        proof {
            if link_shape(self.root()).is_bst() {
                link_shape(self.root()).lemma_key_count();
            }
        }
        match self.get_root() {
            None => 0,
            Some(node) => node.count_nodes(),
        }
    }

    /// Whether a descent by comparison meets `key`. Under the invariant that
    /// is whether the tree holds `key`.
    fn contain(&self, key: i64) -> (found: bool)
        ensures
            found == link_shape(self.root()).descends_to(key),
            link_shape(self.root()).is_bst() ==> found == link_shape(self.root()).keys().contains(
                key,
            ),
    {
        proof {
            if link_shape(self.root()).is_bst() {
                link_shape(self.root()).lemma_descent_finds(key);
            }
        }
        match self.get_root() {
            None => false,
            Some(node) => node.contains(key),
        }
    }

    /// Whether the tree has no node, and so no key.
    fn is_empty(&self) -> (empty: bool)
        ensures
            empty == (self.root() is None),
            empty == (link_shape(self.root()) is Nil),
            empty == (link_shape(self.root()).keys() =~= Set::<i64>::empty()),
    {
        proof {
            link_shape(self.root()).lemma_no_keys_iff_nil();
        }
        match self.get_root() {
            Some(node) => {
                proof {
                    node.shape_unfolds();
                }
                false
            },
            None => true,
        }
    }

    /// Descends from the root by comparison with `key`. Returns whether a
    /// node holding `key` was met, and the node at which the descent
    /// stopped: that node, or the last one on the way, under which `key`
    /// would be inserted. The empty tree has no such node.
    fn search(&self, key: i64) -> (found: (bool, Option<&TN>))
        ensures
            found.0 == link_shape(self.root()).descends_to(key),
            link_shape(self.root()).is_bst() ==> found.0 == link_shape(
                self.root(),
            ).keys().contains(key),
            match self.root() {
                None => found.1 is None,
                Some(root) => found.1 matches Some(node) && *node == search_node(*root, key),
            },
            found.1 matches Some(node) ==> {
                &&& found.0 <==> node.key_spec() == key
                &&& key < node.key_spec() ==> node.left_spec() is None
                &&& key > node.key_spec() ==> node.right_spec() is None
            },
    {
        proof {
            if let Some(root) = self.root() {
                lemma_search_node(*root, key);
            }
            if link_shape(self.root()).is_bst() {
                link_shape(self.root()).lemma_descent_finds(key);
            }
        }
        let mut parent: Option<&TN> = None;
        let mut current: &Option<Box<TN>> = self.get_root();
        while current.is_some()
            invariant
                link_shape(*current).descends_to(key) == link_shape(self.root()).descends_to(key),
                self.root() is None ==> (*current is None && parent is None),
                self.root() matches Some(root) ==> (match *current {
                    Some(node) => search_node(*node, key) == search_node(*root, key),
                    None => parent matches Some(last) && *last == search_node(*root, key),
                }),
            ensures
                !link_shape(self.root()).descends_to(key),
                *current is None,
                match self.root() {
                    None => parent is None,
                    Some(root) => parent matches Some(last) && *last == search_node(*root, key),
                },
            decreases link_shape(*current),
        {
            let node: &Box<TN> = current.as_ref().unwrap();
            proof {
                reveal_with_fuel(BinTree::descends_to, 2);
                node.shape_unfolds();
            }
            let node_key: i64 = node.get_key();
            if node_key == key {
                proof {
                    if let Some(root) = self.root() {
                        lemma_search_node(*root, key);
                    }
                    if link_shape(self.root()).is_bst() {
                        link_shape(self.root()).lemma_descent_finds(key);
                    }
                }
                return (true, Some(&**node));
            } else if node_key > key {
                parent = Some(&**node);
                current = node.get_left();
            } else {
                parent = Some(&**node);
                current = node.get_right();
            }
        }
        (false, parent)
    }

    /// The keys in the order left subtree, node, right subtree. Under the
    /// invariant that is every key of the tree once, in ascending order.
    fn in_order_traversal(&self) -> (keys: Vec<i64>)
        ensures
            keys@ == link_shape(self.root()).in_order(),
            link_shape(self.root()).is_bst() ==> strictly_ascending(keys@) && keys@.to_set()
                =~= link_shape(self.root()).keys(),
            keys@.len() == link_shape(self.root()).node_count(),
    {
        proof {
            link_shape(self.root()).lemma_walk_lengths();
            if link_shape(self.root()).is_bst() {
                link_shape(self.root()).lemma_in_order_ascending();
                link_shape(self.root()).lemma_in_order_keys();
            }
        }
        let mut result: Vec<i64> = Vec::new();
        if self.get_root().is_none() {
            return result;
        }
        let ghost total = link_shape(self.root()).in_order();
        let mut stack: Vec<&TN> = Vec::new();
        let mut node: &Option<Box<TN>> = self.get_root();
        while stack.len() > 0 || node.is_some()
            invariant
                result@ + link_shape(*node).in_order() + pending_in_order(stack@) == total,
            decreases total.len() - result@.len(),
        {
            while node.is_some()
                invariant
                    result@ + link_shape(*node).in_order() + pending_in_order(stack@) == total,
                    stack@.len() > 0 || *node is Some,
                decreases link_shape(*node),
            {
                let current: &Box<TN> = node.as_ref().unwrap();
                proof {
                    current.shape_unfolds();
                    let grown = stack@.push(&**current);
                    assert(grown.drop_last() == stack@);
                    assert(link_shape(*node).in_order() + pending_in_order(stack@) == link_shape(
                        current.left_spec(),
                    ).in_order() + pending_in_order(grown));
                }
                stack.push(&**current);
                node = current.get_left();
            }
            assert(link_shape(*node).in_order() == Seq::<i64>::empty());
            let ghost stacked = stack@;
            if let Some(current) = stack.pop() {
                proof {
                    assert(stack@ == stacked.drop_last());
                    assert(result@ + pending_in_order(stacked) == total);
                    assert(result@.push(current.key_spec()) + link_shape(
                        current.right_spec(),
                    ).in_order() + pending_in_order(stack@) == total);
                }
                result.push(current.get_key());
                node = current.get_right();
            }
        }
        assert(pending_in_order(stack@) == Seq::<i64>::empty());
        assert(link_shape(*node).in_order() == Seq::<i64>::empty());
        result
    }

    /// The keys in the order node, left subtree, right subtree: the keys of
    /// the in-order walk, each as often, in another order.
    fn pre_order_traversal(&self) -> (keys: Vec<i64>)
        ensures
            keys@ == link_shape(self.root()).pre_order(),
            keys@.len() == link_shape(self.root()).node_count(),
            keys@.to_multiset() =~= link_shape(self.root()).in_order().to_multiset(),
    {
        proof {
            link_shape(self.root()).lemma_walk_lengths();
            link_shape(self.root()).lemma_walks_permute();
        }
        let mut result: Vec<i64> = Vec::new();
        let ghost total = link_shape(self.root()).pre_order();
        if let Some(node) = self.get_root() {
            let mut stack: Vec<&TN> = Vec::new();
            stack.push(&**node);
            proof {
                assert(stack@.drop_last() == Seq::<&TN>::empty());
                assert(pending_pre_order(Seq::<&TN>::empty()) == Seq::<i64>::empty());
                assert(pending_pre_order(stack@) == total);
            }
            while stack.len() > 0
                invariant
                    result@ + pending_pre_order(stack@) == total,
                decreases total.len() - result@.len(),
            {
                let ghost stacked = stack@;
                let curr: &TN = stack.pop().unwrap();
                let ghost rest = stack@;
                proof {
                    curr.shape_unfolds();
                    assert(rest == stacked.drop_last());
                }
                result.push(curr.get_key());
                if let Some(right) = curr.get_right() {
                    stack.push(&**right);
                    assert(stack@.drop_last() == rest);
                }
                let ghost with_right = stack@;
                assert(pending_pre_order(with_right) == link_shape(curr.right_spec()).pre_order()
                    + pending_pre_order(rest));
                if let Some(left) = curr.get_left() {
                    stack.push(&**left);
                    assert(stack@.drop_last() == with_right);
                }
                assert(pending_pre_order(stack@) == link_shape(curr.left_spec()).pre_order()
                    + pending_pre_order(with_right));
                assert(result@ + pending_pre_order(stack@) == total);
            }
        }
        result
    }

    /// The keys in the order left subtree, right subtree, node: the keys of
    /// the in-order walk, each as often, in another order.
    fn post_order_traversal(&self) -> (keys: Vec<i64>)
        ensures
            keys@ == link_shape(self.root()).post_order(),
            keys@.len() == link_shape(self.root()).node_count(),
            keys@.to_multiset() =~= link_shape(self.root()).in_order().to_multiset(),
    {
        proof {
            link_shape(self.root()).lemma_walk_lengths();
            link_shape(self.root()).lemma_walks_permute();
        }
        let mut result: Vec<i64> = Vec::new();
        let ghost total = link_shape(self.root()).post_order();
        if let Some(node) = self.get_root() {
            let mut stack: Vec<&TN> = Vec::new();
            stack.push(&**node);
            proof {
                assert(stack@.drop_last() == Seq::<&TN>::empty());
                assert(pending_post_order(Seq::<&TN>::empty()) == Seq::<i64>::empty());
                assert(pending_post_order(stack@) == total);
            }
            while stack.len() > 0
                invariant
                    pending_post_order(stack@) + result@ == total,
                decreases total.len() - result@.len(),
            {
                let ghost stacked = stack@;
                let curr: &TN = stack.pop().unwrap();
                let ghost rest = stack@;
                proof {
                    curr.shape_unfolds();
                    assert(rest == stacked.drop_last());
                }
                result.insert(0, curr.get_key());
                if let Some(left) = curr.get_left() {
                    stack.push(&**left);
                    assert(stack@.drop_last() == rest);
                }
                let ghost with_left = stack@;
                assert(pending_post_order(with_left) == pending_post_order(rest) + link_shape(
                    curr.left_spec(),
                ).post_order());
                if let Some(right) = curr.get_right() {
                    stack.push(&**right);
                    assert(stack@.drop_last() == with_left);
                }
                assert(pending_post_order(stack@) == pending_post_order(with_left) + link_shape(
                    curr.right_spec(),
                ).post_order());
                assert(pending_post_order(stack@) + result@ == total);
            }
        }
        result
    }
}

} // verus!
