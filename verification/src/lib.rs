//! Self-balancing binary search trees over `i64` keys: a height-balanced
//! (AVL) tree and a color-balanced (red-black) tree behind one interface.
//!
//! - `shape`: the mathematical model, a binary tree of keys, and what every
//!   query answers as a function of it.
//! - `node`: what every node kind offers, and the read-only operations that
//!   follow from key and children alone.
//! - `tree`: the interface of a tree: search, walks and measurements written
//!   once, insertion and deletion supplied by the tree kind.
//! - `avlnode`, `avltree`: the height-balanced tree.
//! - `rbnode`, `rbmodel`, `rbtree`: the red-black tree.
//! - `laws`: what holds of every tree, whatever was inserted and deleted.

pub mod avlnode;
pub mod avltree;
pub mod laws;
pub mod node;
pub mod rbmodel;
pub mod rbnode;
pub mod rbtree;
pub mod shape;
pub mod tree;
