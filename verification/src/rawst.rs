//! Unbalanced binary search tree: the reference baseline and correctness
//! oracle for the balanced variants. Only the search-tree order invariant is
//! maintained; no rebalancing ever happens.

use vstd::prelude::*;

use crate::InvariantError;

verus! {

/// One node of the unbalanced tree, owning a key, a value and two subtrees.
pub struct RawSTNode<V> {
    key: u64,
    value: V,
    left: Option<Box<RawSTNode<V>>>,
    right: Option<Box<RawSTNode<V>>>,
}

/// The unbalanced search tree: an owned root, possibly absent.
pub struct RawST<V> {
    root: Option<Box<RawSTNode<V>>>,
}

impl<V> RawSTNode<V> {
    /// The key-value pairs stored in an optional subtree.
    pub closed spec fn opt_entries(o: Option<Box<RawSTNode<V>>>) -> Map<u64, V>
        decreases o,
    {
        match o {
            None => Map::empty(),
            Some(n) => n.entries(),
        }
    }

    /// The key-value pairs stored in the subtree rooted at this node.
    pub closed spec fn entries(self) -> Map<u64, V>
        decreases self,
    {
        Self::opt_entries(self.left)
            .union_prefer_right(Self::opt_entries(self.right))
            .insert(self.key, self.value)
    }

    /// Search-tree order: left keys below, right keys above, recursively.
    pub closed spec fn ordered(self) -> bool
        decreases self,
    {
        &&& forall|k: u64| Self::opt_entries(self.left).dom().contains(k) ==> k < self.key
        &&& forall|k: u64| Self::opt_entries(self.right).dom().contains(k) ==> k > self.key
        &&& match self.left {
            Some(l) => l.ordered(),
            None => true,
        }
        &&& match self.right {
            Some(r) => r.ordered(),
            None => true,
        }
    }

    /// Search-tree order of an optional subtree.
    pub closed spec fn opt_ordered(o: Option<Box<RawSTNode<V>>>) -> bool {
        match o {
            None => true,
            Some(n) => n.ordered(),
        }
    }

    /// The keys met by an in-order walk, left to right.
    pub closed spec fn opt_key_seq(o: Option<Box<RawSTNode<V>>>) -> Seq<u64>
        decreases o,
    {
        match o {
            None => Seq::empty(),
            Some(n) => Self::opt_key_seq(n.left) + seq![n.key] + Self::opt_key_seq(n.right),
        }
    }

    /// A fresh leaf node holding one pair.
    pub fn new(key: u64, value: V) -> (n: Self)
        ensures
            n.ordered(),
            n.entries() == Map::<u64, V>::empty().insert(key, value),
    {
        let n = RawSTNode { key, value, left: None, right: None };
        proof {
            assert(n.entries() =~= Map::<u64, V>::empty().insert(key, value));
        }
        n
    }

    fn insert_opt(o: &mut Option<Box<RawSTNode<V>>>, key: u64, value: V) -> (added: bool)
        requires
            Self::opt_ordered(*old(o)),
        ensures
            Self::opt_ordered(*final(o)),
            added == !Self::opt_entries(*old(o)).dom().contains(key),
            Self::opt_entries(*final(o)) == if added {
                Self::opt_entries(*old(o)).insert(key, value)
            } else {
                Self::opt_entries(*old(o))
            },
        decreases *old(o),
    {
        match o.take() {
            None => {
                *o = Some(Box::new(RawSTNode { key, value, left: None, right: None }));
                proof {
                    assert(Self::opt_entries(*o) =~= Self::opt_entries(*old(o)).insert(
                        key,
                        value,
                    ));
                }
                true
            },
            Some(mut n) => {
                let added = (&mut *n).insert_node(key, value);
                *o = Some(n);
                added
            },
        }
    }

    fn insert_node(&mut self, key: u64, value: V) -> (added: bool)
        requires
            old(self).ordered(),
        ensures
            final(self).ordered(),
            added == !old(self).entries().dom().contains(key),
            final(self).entries() == if added {
                old(self).entries().insert(key, value)
            } else {
                old(self).entries()
            },
        decreases *old(self),
    {
        if key == self.key {
            false
        } else if key < self.key {
            let added = Self::insert_opt(&mut self.left, key, value);
            proof {
                assert(!Self::opt_entries(self.right).dom().contains(key));
                if added {
                    assert(self.entries() =~= old(self).entries().insert(key, value));
                } else {
                    assert(self.entries() =~= old(self).entries());
                }
            }
            added
        } else {
            let added = Self::insert_opt(&mut self.right, key, value);
            proof {
                assert(!Self::opt_entries(self.left).dom().contains(key));
                if added {
                    assert(self.entries() =~= old(self).entries().insert(key, value));
                } else {
                    assert(self.entries() =~= old(self).entries());
                }
            }
            added
        }
    }

    fn get_opt<'a>(o: &'a Option<Box<RawSTNode<V>>>, key: u64) -> (r: Option<&'a V>)
        requires
            Self::opt_ordered(*o),
        ensures
            match r {
                Some(v) => Self::opt_entries(*o).dom().contains(key) && *v == Self::opt_entries(
                    *o,
                )[key],
                None => !Self::opt_entries(*o).dom().contains(key),
            },
        decreases *o,
    {
        match o {
            None => None,
            Some(n) => {
                if key == n.key {
                    Some(&n.value)
                } else if key < n.key {
                    proof {
                        assert(!Self::opt_entries(n.right).dom().contains(key));
                    }
                    Self::get_opt(&n.left, key)
                } else {
                    proof {
                        assert(!Self::opt_entries(n.left).dom().contains(key));
                    }
                    Self::get_opt(&n.right, key)
                }
            },
        }
    }

    fn get_mut_opt<'a>(o: &'a mut Option<Box<RawSTNode<V>>>, key: u64) -> (r: Option<
        &'a mut V,
    >)
        requires
            Self::opt_ordered(*old(o)),
        ensures
            Self::opt_ordered(*final(o)),
            match r {
                Some(v) => Self::opt_entries(*old(o)).dom().contains(key) && *v
                    == Self::opt_entries(*old(o))[key] && Self::opt_entries(*final(o))
                    == Self::opt_entries(*old(o)).insert(key, *final(v)),
                None => !Self::opt_entries(*old(o)).dom().contains(key) && *final(o) == *old(
                    o,
                ),
            },
        decreases *old(o),
    {
        match o {
            None => None,
            Some(n) => {
                if key == n.key {
                    proof {
                        assert(!Self::opt_entries(n.left).dom().contains(key));
                        assert(!Self::opt_entries(n.right).dom().contains(key));
                    }
                    Some(&mut n.value)
                } else if key < n.key {
                    proof {
                        assert(!Self::opt_entries(n.right).dom().contains(key));
                    }
                    Self::get_mut_opt(&mut n.left, key)
                } else {
                    proof {
                        assert(!Self::opt_entries(n.left).dom().contains(key));
                    }
                    Self::get_mut_opt(&mut n.right, key)
                }
            },
        }
    }

    fn modify_opt(o: &mut Option<Box<RawSTNode<V>>>, key: u64, value: V) -> (hit: bool)
        requires
            Self::opt_ordered(*old(o)),
        ensures
            Self::opt_ordered(*final(o)),
            hit == Self::opt_entries(*old(o)).dom().contains(key),
            Self::opt_entries(*final(o)) == if hit {
                Self::opt_entries(*old(o)).insert(key, value)
            } else {
                Self::opt_entries(*old(o))
            },
        decreases *old(o),
    {
        match o.take() {
            None => false,
            Some(mut n) => {
                let hit;
                if key == n.key {
                    (&mut *n).value = value;
                    hit = true;
                    proof {
                        assert(!Self::opt_entries(n.left).dom().contains(key));
                        assert(!Self::opt_entries(n.right).dom().contains(key));
                        assert(n.entries() =~= old(o)->Some_0.entries().insert(key, value));
                    }
                } else if key < n.key {
                    hit = Self::modify_opt(&mut (&mut *n).left, key, value);
                    proof {
                        assert(!Self::opt_entries(n.right).dom().contains(key));
                        if hit {
                            assert(n.entries() =~= old(o)->Some_0.entries().insert(key, value));
                        } else {
                            assert(n.entries() =~= old(o)->Some_0.entries());
                        }
                    }
                } else {
                    hit = Self::modify_opt(&mut (&mut *n).right, key, value);
                    proof {
                        assert(!Self::opt_entries(n.left).dom().contains(key));
                        if hit {
                            assert(n.entries() =~= old(o)->Some_0.entries().insert(key, value));
                        } else {
                            assert(n.entries() =~= old(o)->Some_0.entries());
                        }
                    }
                }
                *o = Some(n);
                hit
            },
        }
    }

    /// Unlink the least pair of a non-empty subtree and hand it back.
    fn pop_min(o: &mut Option<Box<RawSTNode<V>>>) -> (popped: (u64, V))
        requires
            old(o).is_some(),
            Self::opt_ordered(*old(o)),
        ensures
            Self::opt_ordered(*final(o)),
            Self::opt_entries(*old(o)).dom().contains(popped.0),
            Self::opt_entries(*old(o))[popped.0] == popped.1,
            Self::opt_entries(*final(o)) == Self::opt_entries(*old(o)).remove(popped.0),
            forall|k: u64|
                Self::opt_entries(*old(o)).dom().contains(k) ==> popped.0 <= k,
        decreases *old(o),
    {
        let mut n = o.take().unwrap();
        if n.left.is_none() {
            proof {
                assert(Self::opt_entries(n.left) =~= Map::<u64, V>::empty());
                assert(!Self::opt_entries(n.right).dom().contains(n.key));
            }
            *o = n.right.take();
            proof {
                assert(Self::opt_entries(*o) =~= Self::opt_entries(*old(o)).remove(n.key));
            }
            let boxed = *n;
            let RawSTNode { key, value, .. } = boxed;
            (key, value)
        } else {
            let popped = Self::pop_min(&mut (&mut *n).left);
            proof {
                assert(!Self::opt_entries(n.right).dom().contains(popped.0));
                assert(n.key != popped.0);
                assert(n.entries() =~= old(o)->Some_0.entries().remove(popped.0));
            }
            *o = Some(n);
            popped
        }
    }

    fn remove_opt(o: &mut Option<Box<RawSTNode<V>>>, key: u64) -> (r: Option<V>)
        requires
            Self::opt_ordered(*old(o)),
        ensures
            Self::opt_ordered(*final(o)),
            Self::opt_entries(*final(o)) == Self::opt_entries(*old(o)).remove(key),
            r == if Self::opt_entries(*old(o)).dom().contains(key) {
                Some(Self::opt_entries(*old(o))[key])
            } else {
                None::<V>
            },
        decreases *old(o),
    {
        match o.take() {
            None => {
                proof {
                    assert(Self::opt_entries(*old(o)).remove(key) =~= Self::opt_entries(
                        *old(o),
                    ));
                }
                None
            },
            Some(mut n) => {
                if key == n.key {
                    proof {
                        assert(!Self::opt_entries(n.left).dom().contains(key));
                        assert(!Self::opt_entries(n.right).dom().contains(key));
                    }
                    if n.left.is_none() {
                        *o = n.right.take();
                        proof {
                            assert(Self::opt_entries(n.left) =~= Map::<u64, V>::empty());
                            assert(Self::opt_entries(*o) =~= Self::opt_entries(
                                *old(o),
                            ).remove(key));
                        }
                        let boxed = *n;
                        Some(boxed.value)
                    } else if n.right.is_none() {
                        *o = n.left.take();
                        proof {
                            assert(Self::opt_entries(n.right) =~= Map::<u64, V>::empty());
                            assert(Self::opt_entries(*o) =~= Self::opt_entries(
                                *old(o),
                            ).remove(key));
                        }
                        let boxed = *n;
                        Some(boxed.value)
                    } else {
                        // Replace the pair by its in-order successor, the
                        // least pair of the right subtree, then drop that
                        // node.
                        let (succ_key, succ_value) = Self::pop_min(&mut (&mut *n).right);
                        let boxed = *n;
                        let RawSTNode { key: _, value: out, left, right } = boxed;
                        let replacement = RawSTNode {
                            key: succ_key,
                            value: succ_value,
                            left,
                            right,
                        };
                        proof {
                            assert(replacement.entries() =~= Self::opt_entries(
                                *old(o),
                            ).remove(key));
                        }
                        *o = Some(Box::new(replacement));
                        Some(out)
                    }
                } else if key < n.key {
                    let r = Self::remove_opt(&mut (&mut *n).left, key);
                    proof {
                        assert(!Self::opt_entries(n.right).dom().contains(key));
                        assert(n.key != key);
                        assert(n.entries() =~= old(o)->Some_0.entries().remove(key));
                    }
                    *o = Some(n);
                    r
                } else {
                    let r = Self::remove_opt(&mut (&mut *n).right, key);
                    proof {
                        assert(!Self::opt_entries(n.left).dom().contains(key));
                        assert(n.entries() =~= old(o)->Some_0.entries().remove(key));
                    }
                    *o = Some(n);
                    r
                }
            },
        }
    }

    /// Check search-tree order within an open interval, each bound optional.
    fn check_range(o: &Option<Box<RawSTNode<V>>>, lo: Option<u64>, hi: Option<u64>) -> (r: bool)
        ensures
            r == (Self::opt_ordered(*o) && Self::opt_bounded(*o, lo, hi)),
        decreases *o,
    {
        match o {
            None => {
                proof {
                    assert(Self::opt_entries(*o).dom() =~= Set::<u64>::empty());
                }
                true
            },
            Some(n) => {
                let lo_ok = match lo {
                    Some(l) => l < n.key,
                    None => true,
                };
                let hi_ok = match hi {
                    Some(h) => n.key < h,
                    None => true,
                };
                if !lo_ok || !hi_ok {
                    proof {
                        assert(Self::opt_entries(*o).dom().contains(n.key));
                    }
                    false
                } else {
                    let left_ok = Self::check_range(&n.left, lo, Some(n.key));
                    let right_ok = Self::check_range(&n.right, Some(n.key), hi);
                    proof {
                        assert(Self::opt_entries(*o).dom() =~= Self::opt_entries(
                            n.left,
                        ).dom().union(Self::opt_entries(n.right).dom()).insert(n.key));
                        if left_ok && right_ok {
                            assert(forall|k: u64|
                                Self::opt_entries(n.left).dom().contains(k) ==> k < n.key);
                            assert(forall|k: u64|
                                Self::opt_entries(n.right).dom().contains(k) ==> k > n.key);
                            assert(n.ordered());
                            assert(Self::opt_bounded(*o, lo, hi));
                        } else {
                            assert(!(Self::opt_ordered(*o) && Self::opt_bounded(*o, lo, hi)))
                                by {
                                if Self::opt_ordered(*o) && Self::opt_bounded(*o, lo, hi) {
                                    assert forall|k: u64|
                                        Self::opt_entries(n.left).dom().contains(k) implies (
                                    match lo {
                                        Some(l) => l < k,
                                        None => true,
                                    } && k < n.key) by {
                                        assert(Self::opt_entries(*o).dom().contains(k));
                                    }
                                    assert(Self::opt_bounded(n.left, lo, Some(n.key)));
                                    assert forall|k: u64|
                                        Self::opt_entries(n.right).dom().contains(k) implies (
                                    n.key < k && match hi {
                                        Some(h) => k < h,
                                        None => true,
                                    }) by {
                                        assert(Self::opt_entries(*o).dom().contains(k));
                                    }
                                    assert(Self::opt_bounded(n.right, Some(n.key), hi));
                                    assert(false);
                                }
                            }
                        }
                    }
                    left_ok && right_ok
                }
            },
        }
    }

    /// All keys of the subtree lie strictly inside the given bounds.
    pub closed spec fn opt_bounded(
        o: Option<Box<RawSTNode<V>>>,
        lo: Option<u64>,
        hi: Option<u64>,
    ) -> bool {
        forall|k: u64|
            Self::opt_entries(o).dom().contains(k) ==> (match lo {
                Some(l) => l < k,
                None => true,
            } && match hi {
                Some(h) => k < h,
                None => true,
            })
    }

    /// An ordered walk visits strictly increasing keys: exactly the key set,
    /// each key once.
    proof fn lemma_walk(o: Option<Box<RawSTNode<V>>>)
        requires
            Self::opt_ordered(o),
        ensures
            crate::laws::strictly_increasing(Self::opt_key_seq(o)),
            Self::opt_key_seq(o).to_set() =~= Self::opt_entries(o).dom(),
        decreases o,
    {
        match o {
            None => {
                assert(Self::opt_key_seq(o).to_set() =~= Self::opt_entries(o).dom()) by {
                    assert(forall|k: u64| !Self::opt_key_seq(o).contains(k));
                    assert(Self::opt_entries(o).dom() =~= Set::<u64>::empty());
                }
            },
            Some(n) => {
                Self::lemma_walk(n.left);
                Self::lemma_walk(n.right);
                let l = Self::opt_key_seq(n.left);
                let r = Self::opt_key_seq(n.right);
                let s = Self::opt_key_seq(o);
                let ll = l.len() as int;
                assert(s == l + seq![n.key] + r);
                assert(Self::opt_entries(o).dom() =~= Self::opt_entries(n.left).dom().union(
                    Self::opt_entries(n.right).dom(),
                ).insert(n.key));
                assert forall|k: u64| s.contains(k) implies Self::opt_entries(o).dom().contains(
                    k,
                ) by {
                    let i = choose|i: int| 0 <= i < s.len() && s[i] == k;
                    if i < ll {
                        assert(l[i] == k);
                        assert(l.contains(k));
                        assert(l.to_set().contains(k));
                    } else if i == ll {
                        assert(k == n.key);
                    } else {
                        assert(r[i - ll - 1] == k);
                        assert(r.contains(k));
                        assert(r.to_set().contains(k));
                    }
                }
                assert forall|k: u64| Self::opt_entries(o).dom().contains(k) implies s.contains(
                    k,
                ) by {
                    if Self::opt_entries(n.left).dom().contains(k) {
                        assert(l.to_set().contains(k));
                        let i = choose|i: int| 0 <= i < l.len() && l[i] == k;
                        assert(s[i] == k);
                    } else if k == n.key {
                        assert(s[ll] == k);
                    } else {
                        assert(r.to_set().contains(k));
                        let i = choose|i: int| 0 <= i < r.len() && r[i] == k;
                        assert(s[ll + 1 + i] == k);
                    }
                }
                assert(s.to_set() =~= Self::opt_entries(o).dom());
                assert forall|i: int, j: int| 0 <= i < j < s.len() implies s[i] < s[j] by {
                    if i < ll {
                        assert(s[i] == l[i]);
                        assert(l.contains(l[i]));
                        assert(l.to_set().contains(l[i]));
                    }
                    if j > ll {
                        assert(s[j] == r[j - ll - 1]);
                        assert(r.contains(r[j - ll - 1]));
                        assert(r.to_set().contains(r[j - ll - 1]));
                    }
                    if i == ll {
                        assert(s[i] == n.key);
                    }
                    if j == ll {
                        assert(s[j] == n.key);
                    }
                }
            },
        }
    }

    /// Push the subtree's keys, in order, onto the end of a vector.
    fn push_keys(o: &Option<Box<RawSTNode<V>>>, out: &mut Vec<u64>)
        ensures
            final(out)@ == old(out)@ + Self::opt_key_seq(*o),
        decreases *o,
    {
        match o {
            None => {
                proof {
                    assert(out@ =~= old(out)@ + Self::opt_key_seq(*o));
                }
            },
            Some(n) => {
                Self::push_keys(&n.left, out);
                out.push(n.key);
                Self::push_keys(&n.right, out);
                proof {
                    assert(out@ =~= old(out)@ + Self::opt_key_seq(*o));
                }
            },
        }
    }
}

impl<V> RawST<V> {
    /// Structural well-formedness: the search-tree order invariant.
    pub closed spec fn wf(self) -> bool {
        RawSTNode::opt_ordered(self.root)
    }

    /// The keys of an in-order walk of the whole tree.
    pub closed spec fn key_seq(self) -> Seq<u64> {
        RawSTNode::opt_key_seq(self.root)
    }

    /// An empty tree.
    pub fn new() -> (t: Self)
        ensures
            t.wf(),
            t@ == Map::<u64, V>::empty(),
    {
        RawST { root: None }
    }

    /// Add `key -> value` unless the key is already present; report whether
    /// the pair was added. A present key keeps its old value.
    pub fn insert(&mut self, key: u64, value: V) -> (added: bool)
        requires
            old(self).wf(),
        ensures
            final(self).wf(),
            added == !old(self)@.dom().contains(key),
            final(self)@ == if added {
                old(self)@.insert(key, value)
            } else {
                old(self)@
            },
    {
        RawSTNode::insert_opt(&mut self.root, key, value)
    }

    /// Look the key up.
    pub fn get(&self, key: &u64) -> (r: Option<&V>)
        requires
            self.wf(),
        ensures
            match r {
                Some(v) => self@.dom().contains(*key) && *v == self@[*key],
                None => !self@.dom().contains(*key),
            },
    {
        RawSTNode::get_opt(&self.root, *key)
    }

    /// Borrow the value under the key mutably; what the caller writes
    /// through the borrow is what the key maps to afterwards.
    pub fn get_mut<'a>(&'a mut self, key: &u64) -> (r: Option<&'a mut V>)
        requires
            old(self).wf(),
        ensures
            final(self).wf(),
            match r {
                Some(v) => old(self)@.dom().contains(*key) && *v == old(self)@[*key]
                    && final(self)@ == old(self)@.insert(*key, *final(v)),
                None => !old(self)@.dom().contains(*key) && final(self)@ == old(self)@,
            },
    {
        RawSTNode::get_mut_opt(&mut self.root, *key)
    }

    /// Replace the value under a present key; report whether it was present.
    pub fn modify(&mut self, key: &u64, value: V) -> (hit: bool)
        requires
            old(self).wf(),
        ensures
            final(self).wf(),
            hit == old(self)@.dom().contains(*key),
            final(self)@ == if hit {
                old(self)@.insert(*key, value)
            } else {
                old(self)@
            },
    {
        RawSTNode::modify_opt(&mut self.root, *key, value)
    }

    /// Take the pair under the key out of the tree and return its value.
    pub fn remove(&mut self, key: &u64) -> (r: Option<V>)
        requires
            old(self).wf(),
        ensures
            final(self).wf(),
            final(self)@ == old(self)@.remove(*key),
            r == if old(self)@.dom().contains(*key) {
                Some(old(self)@[*key])
            } else {
                None::<V>
            },
    {
        RawSTNode::remove_opt(&mut self.root, *key)
    }

    /// Walk the tree and report the first violated invariant, if any.
    pub fn self_validate(&self) -> (r: Result<(), InvariantError>)
        ensures
            r.is_ok() <==> self.wf(),
    {
        if RawSTNode::check_range(&self.root, None, None) {
            Ok(())
        } else {
            Err(InvariantError::BstOrder)
        }
    }

    /// BST order, proved of every well-formed tree: the in-order walk is
    /// strictly increasing, and it visits exactly the stored keys, each of
    /// them once.
    pub proof fn lemma_in_order(self)
        requires
            self.wf(),
        ensures
            crate::laws::strictly_increasing(self.key_seq()),
            self.key_seq().to_set() == self@.dom(),
    {
        RawSTNode::lemma_walk(self.root);
    }

    /// The keys in ascending order.
    pub fn keys_in_order(&self) -> (out: Vec<u64>)
        ensures
            out@ == self.key_seq(),
    {
        let mut out: Vec<u64> = Vec::new();
        RawSTNode::push_keys(&self.root, &mut out);
        proof {
            assert(out@ =~= self.key_seq());
        }
        out
    }
}

impl<V> View for RawST<V> {
    type V = Map<u64, V>;

    /// The abstract contents: a finite map from keys to values.
    closed spec fn view(&self) -> Map<u64, V> {
        RawSTNode::opt_entries(self.root)
    }
}

} // verus!
