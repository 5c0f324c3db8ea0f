use bstrees::avl::AVL;
use bstrees::heaps::{MaxDictHeap, MinDictHeap, MinHeap};
use bstrees::rawst::RawST;
use bstrees::rb::RB;
use bstrees::splay::Splay;
use bstrees::treap::Treap;
use bstrees::InvariantError;

// Inserting a fresh pair and looking it up returns the inserted value.
#[test]
fn test_insert_then_get_every_variant() {
    let mut raw = RawST::new();
    assert!(raw.insert(7, 70u64));
    assert_eq!(raw.get(&7), Some(&70));

    let mut avl = AVL::new();
    assert!(avl.insert(7, 70u64));
    assert_eq!(avl.get(&7), Some(&70));

    let mut rb = RB::new();
    assert!(rb.insert(7, 70u64));
    assert_eq!(rb.get(&7), Some(&70));

    let mut splay = Splay::new();
    assert!(splay.insert(7, 70u64));
    assert_eq!(splay.get(&7), Some(&70));

    let mut treap = Treap::new();
    assert!(treap.insert(7, 70u64));
    assert_eq!(treap.get(&7), Some(&70));
}

// Inserting a key twice: accepted, then refused, the first value kept.
#[test]
fn test_insert_twice_every_variant() {
    let mut raw = RawST::new();
    assert!(raw.insert(3, 1u64));
    assert!(!raw.insert(3, 2u64));
    assert_eq!(raw.get(&3), Some(&1));

    let mut avl = AVL::new();
    assert!(avl.insert(3, 1u64));
    assert!(!avl.insert(3, 2u64));
    assert_eq!(avl.get(&3), Some(&1));

    let mut rb = RB::new();
    assert!(rb.insert(3, 1u64));
    assert!(!rb.insert(3, 2u64));
    assert_eq!(rb.get(&3), Some(&1));

    let mut splay = Splay::new();
    assert!(splay.insert(3, 1u64));
    assert!(!splay.insert(3, 2u64));
    assert_eq!(splay.get(&3), Some(&1));

    let mut treap = Treap::new();
    assert!(treap.insert(3, 1u64));
    assert!(!treap.insert(3, 2u64));
    assert_eq!(treap.get(&3), Some(&1));
}

// Writing through a mutable borrow from `get_mut` changes what the key
// maps to; an absent key yields no borrow.
#[test]
fn test_get_mut_every_variant() {
    let mut raw = RawST::new();
    assert!(raw.insert(6, 60u64));
    *raw.get_mut(&6).unwrap() = 61;
    assert_eq!(raw.get(&6), Some(&61));
    assert!(raw.get_mut(&7).is_none());

    let mut avl = AVL::new();
    assert!(avl.insert(6, 60u64));
    *avl.get_mut(&6).unwrap() = 61;
    assert_eq!(avl.get(&6), Some(&61));
    assert!(avl.get_mut(&7).is_none());

    let mut rb = RB::new();
    assert!(rb.insert(6, 60u64));
    *rb.get_mut(&6).unwrap() = 61;
    assert_eq!(rb.get(&6), Some(&61));
    assert!(rb.get_mut(&7).is_none());

    let mut splay = Splay::new();
    assert!(splay.insert(6, 60u64));
    splay.insert(9, 90);
    *splay.get_mut(&6).unwrap() = 61;
    assert_eq!(splay.root_key(), Some(6));
    assert_eq!(splay.get(&6), Some(&61));
    assert!(splay.get_mut(&7).is_none());
}

// A modify after an insert replaces the stored value.
#[test]
fn test_modify_after_insert_every_variant() {
    let mut raw = RawST::new();
    assert!(raw.insert(9, 1u64));
    assert!(raw.modify(&9, 5));
    assert_eq!(raw.get(&9), Some(&5));
    assert!(!raw.modify(&10, 6));
    assert_eq!(raw.get(&10), None);

    let mut avl = AVL::new();
    assert!(avl.insert(9, 1u64));
    assert!(avl.modify(&9, 5));
    assert_eq!(avl.get(&9), Some(&5));

    let mut rb = RB::new();
    assert!(rb.insert(9, 1u64));
    assert!(rb.modify(&9, 5));
    assert_eq!(rb.get(&9), Some(&5));

    let mut splay = Splay::new();
    assert!(splay.insert(9, 1u64));
    assert!(splay.modify(&9, 5));
    assert_eq!(splay.get(&9), Some(&5));

    let mut treap = Treap::new();
    assert!(treap.insert(9, 1u64));
    assert!(treap.modify(&9, 5));
    assert_eq!(treap.get(&9), Some(&5));
}

// Removing a freshly inserted key returns its value; a second removal
// finds nothing.
#[test]
fn test_insert_then_remove_every_variant() {
    let mut raw = RawST::new();
    assert!(raw.insert(4, 44u64));
    assert_eq!(raw.remove(&4), Some(44));
    assert_eq!(raw.remove(&4), None);

    let mut avl = AVL::new();
    assert!(avl.insert(4, 44u64));
    assert_eq!(avl.remove(&4), Some(44));
    assert_eq!(avl.remove(&4), None);

    let mut rb = RB::new();
    assert!(rb.insert(4, 44u64));
    assert_eq!(rb.remove(&4), Some(44));
    assert_eq!(rb.remove(&4), None);

    let mut splay = Splay::new();
    assert!(splay.insert(4, 44u64));
    assert_eq!(splay.remove(&4), Some(44));
    assert_eq!(splay.remove(&4), None);

    let mut treap = Treap::new();
    assert!(treap.insert(4, 44u64));
    assert_eq!(treap.remove(&4), Some(44));
    assert_eq!(treap.remove(&4), None);
}

// Any permutation of the same insertions leaves identical contents, across
// variants and across orders.
#[test]
fn test_permutation_agreement() {
    let order_a: [(u64, u64); 6] = [(5, 50), (1, 10), (9, 90), (3, 30), (7, 70), (2, 20)];
    let order_b: [(u64, u64); 6] = [(9, 90), (2, 20), (5, 50), (7, 70), (1, 10), (3, 30)];

    let mut raw = RawST::new();
    let mut avl = AVL::new();
    let mut rb = RB::new();
    let mut splay = Splay::new();
    let mut treap = Treap::new();

    for (k, v) in order_a {
        raw.insert(k, v);
        avl.insert(k, v);
    }
    for (k, v) in order_b {
        rb.insert(k, v);
        splay.insert(k, v);
        treap.insert(k, v);
    }

    let keys = vec![1u64, 2, 3, 5, 7, 9];
    assert_eq!(raw.keys_in_order(), keys);
    assert_eq!(avl.keys_in_order(), keys);
    assert_eq!(rb.keys_in_order(), keys);
    assert_eq!(splay.keys_in_order(), keys);
    assert_eq!(treap.keys_in_order(), keys);

    for (k, v) in order_a {
        assert_eq!(raw.get(&k), Some(&v));
        assert_eq!(avl.get(&k), Some(&v));
        assert_eq!(rb.get(&k), Some(&v));
        assert_eq!(splay.get(&k), Some(&v));
        assert_eq!(treap.get(&k), Some(&v));
    }
}

// Operations on an empty tree find nothing, and validation passes.
#[test]
fn test_empty_tree_operations() {
    let mut raw = RawST::<u64>::new();
    assert_eq!(raw.get(&1), None);
    assert_eq!(raw.remove(&1), None);
    assert!(!raw.modify(&1, 2));
    raw.self_validate().unwrap();

    let mut avl = AVL::<u64>::new();
    assert_eq!(avl.get(&1), None);
    assert_eq!(avl.remove(&1), None);
    assert!(!avl.modify(&1, 2));
    avl.self_validate().unwrap();
    assert!(avl.height().is_none());

    let mut rb = RB::<u64>::new();
    assert_eq!(rb.get(&1), None);
    assert_eq!(rb.remove(&1), None);
    assert!(!rb.modify(&1, 2));
    rb.self_validate().unwrap();
    assert!(rb.height().is_none());

    let mut splay = Splay::<u64>::new();
    assert_eq!(splay.get(&1), None);
    assert_eq!(splay.remove(&1), None);
    assert!(!splay.modify(&1, 2));
    assert_eq!(splay.root_key(), None);
    splay.self_validate().unwrap();

    let mut treap = Treap::<u64>::new();
    assert_eq!(treap.get(&1), None);
    assert_eq!(treap.remove(&1), None);
    assert!(!treap.modify(&1, 2));
    assert!(treap.is_empty());
    assert_eq!(treap.len(), 0);
    treap.self_validate().unwrap();
}

// Removing the only pair empties the tree again.
#[test]
fn test_remove_only_node() {
    let mut raw = RawST::new();
    raw.insert(8, 80u64);
    assert_eq!(raw.remove(&8), Some(80));
    assert_eq!(raw.get(&8), None);
    assert_eq!(raw.keys_in_order(), Vec::<u64>::new());
    raw.self_validate().unwrap();

    let mut avl = AVL::new();
    avl.insert(8, 80u64);
    assert_eq!(avl.remove(&8), Some(80));
    assert!(avl.height().is_none());
    avl.self_validate().unwrap();

    let mut rb = RB::new();
    rb.insert(8, 80u64);
    assert_eq!(rb.remove(&8), Some(80));
    assert!(rb.height().is_none());
    rb.self_validate().unwrap();

    let mut splay = Splay::new();
    splay.insert(8, 80u64);
    assert_eq!(splay.remove(&8), Some(80));
    assert_eq!(splay.root_key(), None);
    splay.self_validate().unwrap();

    let mut treap = Treap::new();
    treap.insert(8, 80u64);
    assert_eq!(treap.remove(&8), Some(80));
    assert!(treap.is_empty());
    treap.self_validate().unwrap();
}

// The plain heaps hand their entries back in order.
#[test]
fn test_plain_heaps() {
    let mut min = MinHeap::new();
    assert_eq!(min.pop(), None);
    min.push(40);
    min.push(10);
    min.push(30);
    min.push(10);
    assert_eq!(min.pop(), Some(10));
    assert_eq!(min.pop(), Some(10));
    assert_eq!(min.pop(), Some(30));
    assert_eq!(min.pop(), Some(40));
    assert_eq!(min.pop(), None);

    let mut mind = MinDictHeap::new();
    mind.push(1, 9);
    mind.push(2, 3);
    mind.push(3, 6);
    assert_eq!(mind.pop(), Some(3));
    assert_eq!(mind.pop(), Some(6));
    assert_eq!(mind.pop(), Some(9));
    assert_eq!(mind.pop(), None);

    let mut maxd = MaxDictHeap::new();
    maxd.push(1, 9);
    maxd.push(2, 3);
    maxd.push(3, 6);
    assert_eq!(maxd.pop(), Some(9));
    assert_eq!(maxd.pop(), Some(6));
    assert_eq!(maxd.pop(), Some(3));
    assert_eq!(maxd.pop(), None);
}

// Every kind of invariant violation carries a readable description.
#[test]
fn test_error_descriptions() {
    let kinds = [
        InvariantError::BstOrder,
        InvariantError::AvlHeight,
        InvariantError::AvlBalance,
        InvariantError::RedRoot,
        InvariantError::RedRed,
        InvariantError::BlackHeight,
        InvariantError::HeapOrder,
    ];
    for kind in kinds {
        assert!(!kind.describe().is_empty());
    }
}

// A deterministic treap build through explicit weights: structure checks
// hold and contents match, whatever the weights were.
#[test]
fn test_treap_explicit_weights() {
    let mut treap = Treap::new();
    assert!(treap.insert_weighted(10, 100u64, 5));
    assert!(treap.insert_weighted(20, 200, 9));
    assert!(treap.insert_weighted(5, 50, 7));
    assert!(!treap.insert_weighted(10, 999, 8));

    treap.self_validate().unwrap();
    assert_eq!(treap.len(), 3);
    assert_eq!(treap.get(&10), Some(&100));
    assert_eq!(treap.keys_in_order(), vec![5, 10, 20]);

    let mut keyed = Treap::<()>::new();
    keyed.push(10, 5);
    keyed.push(20, 9);
    keyed.push(5, 7);
    assert_eq!(keyed.top(), Some(9));
    assert_eq!(keyed.pop(), Some(9));
    assert_eq!(keyed.top(), Some(7));
}
