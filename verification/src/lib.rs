//! A family of ordered in-memory dictionaries ("sorted maps") over `u64` keys.
//!
//! Five binary-search-tree variants share one abstract interface: an
//! unbalanced reference tree ([`rawst::RawST`]), a height-balanced AVL tree
//! ([`avl::AVL`]), a colour-balanced red-black tree ([`rb::RB`]), a
//! self-adjusting splay tree ([`splay::Splay`]) and a randomised treap
//! ([`treap::Treap`]), which doubles as a max-heap on its weights.
//! Every operation is specified against the tree's abstract view, a
//! `Map<u64, V>`, and every variant's shape invariant is maintained by proof.

use vstd::prelude::*;

pub mod avl;
pub mod heaps;
pub mod laws;
pub mod rawst;
pub mod rb;
pub mod splay;
pub mod treap;

verus! {

/// The first shape invariant a validator found broken.
///
/// A validator walks the whole structure and reports the first clause that
/// fails; on a tree reached only through this library's public operations
/// every clause is maintained by proof, so none of these can be observed.
#[derive(Debug, Clone, Copy, PartialEq, Eq, Structural)]
pub enum InvariantError {
    /// A key outside the open interval its position allows.
    BstOrder,
    /// A stored AVL height that is not one more than the taller child.
    AvlHeight,
    /// Child heights of an AVL node differing by more than one.
    AvlBalance,
    /// A red root.
    RedRoot,
    /// A red node with a red child.
    RedRed,
    /// Two root-to-empty paths with different black counts.
    BlackHeight,
    /// A treap node whose weight is below a child's weight.
    HeapOrder,
}

impl InvariantError {
    /// The description each kind of violation carries.
    pub open spec fn spec_describe(self) -> Seq<char> {
        match self {
            InvariantError::BstOrder => "binary search tree order violated"@,
            InvariantError::AvlHeight => "stored AVL height is stale"@,
            InvariantError::AvlBalance => "AVL balance factor out of range"@,
            InvariantError::RedRoot => "red-black root is red"@,
            InvariantError::RedRed => "red node has a red child"@,
            InvariantError::BlackHeight => "black heights differ between paths"@,
            InvariantError::HeapOrder => "treap weight below a child's weight"@,
        }
    }

    /// A human-readable description of the violated invariant.
    pub fn describe(&self) -> (r: &'static str)
        ensures
            r@ == self.spec_describe(),
    {
        match self {
            InvariantError::BstOrder => "binary search tree order violated",
            InvariantError::AvlHeight => "stored AVL height is stale",
            InvariantError::AvlBalance => "AVL balance factor out of range",
            InvariantError::RedRoot => "red-black root is red",
            InvariantError::RedRed => "red node has a red child",
            InvariantError::BlackHeight => "black heights differ between paths",
            InvariantError::HeapOrder => "treap weight below a child's weight",
        }
    }
}

} // verus!
