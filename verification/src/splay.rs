//! Splay tree: a self-adjusting binary search tree without per-node
//! metadata. Every access moves the touched node to the root through
//! repeated rotations, so lookups mutate the tree; only the search-tree
//! order invariant is maintained.

use vstd::prelude::*;

use crate::InvariantError;

verus! {

/// One splay node, owning a key, a value and two subtrees.
pub struct SplayNode<V> {
    key: u64,
    value: V,
    left: Option<Box<SplayNode<V>>>,
    right: Option<Box<SplayNode<V>>>,
}

/// The splay tree: an owned root, possibly absent.
pub struct Splay<V> {
    root: Option<Box<SplayNode<V>>>,
}

impl<V> SplayNode<V> {
    /// The key-value pairs stored in an optional subtree.
    pub closed spec fn opt_entries(o: Option<Box<SplayNode<V>>>) -> Map<u64, V>
        decreases o,
    {
        match o {
            None => Map::empty(),
            Some(n) => n.entries(),
        }
    }

    /// The key-value pairs stored in the subtree rooted at this node.
    pub closed spec fn entries(self) -> Map<u64, V>
        decreases self,
    {
        Self::opt_entries(self.left)
            .union_prefer_right(Self::opt_entries(self.right))
            .insert(self.key, self.value)
    }

    /// Search-tree order: left keys below, right keys above, recursively.
    pub closed spec fn ordered(self) -> bool
        decreases self,
    {
        &&& forall|k: u64| Self::opt_entries(self.left).dom().contains(k) ==> k < self.key
        &&& forall|k: u64| Self::opt_entries(self.right).dom().contains(k) ==> k > self.key
        &&& match self.left {
            Some(l) => l.ordered(),
            None => true,
        }
        &&& match self.right {
            Some(r) => r.ordered(),
            None => true,
        }
    }

    /// Search-tree order of an optional subtree.
    pub closed spec fn opt_ordered(o: Option<Box<SplayNode<V>>>) -> bool {
        match o {
            None => true,
            Some(n) => n.ordered(),
        }
    }

    /// The keys met by an in-order walk, left to right.
    pub closed spec fn opt_key_seq(o: Option<Box<SplayNode<V>>>) -> Seq<u64>
        decreases o,
    {
        match o {
            None => Seq::empty(),
            Some(n) => Self::opt_key_seq(n.left) + seq![n.key] + Self::opt_key_seq(n.right),
        }
    }

    /// A fresh leaf node holding one pair.
    pub fn new(key: u64, value: V) -> (n: Self)
        ensures
            n.ordered(),
            n.entries() == Map::<u64, V>::empty().insert(key, value),
    {
        let n = SplayNode { key, value, left: None, right: None };
        proof {
            assert(n.entries() =~= Map::<u64, V>::empty().insert(key, value));
        }
        n
    }

    /// Move the node holding `key`, if present, to the root of the subtree
    /// by rotating it upward out of the recursion: bottom-up splaying.
    fn splay_to(t: Box<SplayNode<V>>, key: u64) -> (r: Box<SplayNode<V>>)
        requires
            t.ordered(),
        ensures
            r.ordered(),
            r.entries() == t.entries(),
            t.entries().dom().contains(key) ==> r.key == key,
        decreases *t,
    {
        let SplayNode { key: nk, value: nv, left, right } = *t;
        proof {
            assert(t.entries() == Self::opt_entries(left).union_prefer_right(
                Self::opt_entries(right),
            ).insert(nk, nv));
            assert(t.entries().dom() =~= Self::opt_entries(left).dom().union(
                Self::opt_entries(right).dom(),
            ).insert(nk));
        }
        if key == nk {
            let r = Box::new(SplayNode { key: nk, value: nv, left, right });
            proof {
                assert(r == t);
            }
            r
        } else if key < nk {
            match left {
                None => {
                    let r = Box::new(SplayNode { key: nk, value: nv, left: None, right });
                    proof {
                        assert(r == t);
                        assert(!t.entries().dom().contains(key));
                    }
                    r
                },
                Some(l) => {
                    let l2 = Self::splay_to(l, key);
                    proof {
                        assert(l2.entries() == l.entries());
                        assert(!Self::opt_entries(right).dom().contains(key));
                    }
                    if l2.key == key {
                        // The target sits at the left child: one final
                        // rotation toward the root lifts it over this node.
                        let SplayNode { key: lk, value: lv, left: a, right: b } = *l2;
                        proof {
                            assert(l2.entries() == Self::opt_entries(a).union_prefer_right(
                                Self::opt_entries(b),
                            ).insert(lk, lv));
                            assert(l2.entries().dom() =~= Self::opt_entries(a).dom().union(
                                Self::opt_entries(b).dom(),
                            ).insert(lk));
                            assert forall|k: u64|
                                Self::opt_entries(b).dom().contains(k) implies k < nk && k
                                > lk by {
                                assert(l.entries().dom().contains(k));
                            }
                            assert(lk < nk);
                        }
                        let inner = Box::new(SplayNode { key: nk, value: nv, left: b, right });
                        let r = Box::new(
                            SplayNode { key: lk, value: lv, left: a, right: Some(inner) },
                        );
                        proof {
                            assert(inner.ordered());
                            assert(inner.entries() == Self::opt_entries(
                                b,
                            ).union_prefer_right(Self::opt_entries(right)).insert(nk, nv));
                            assert(inner.entries().dom() =~= Self::opt_entries(b).dom().union(
                                Self::opt_entries(right).dom(),
                            ).insert(nk));
                            assert forall|k: u64|
                                Self::opt_entries(Some(inner)).dom().contains(k) implies k
                                > lk by {
                                if Self::opt_entries(right).dom().contains(k) {
                                    assert(k > nk);
                                }
                            }
                            assert(r.ordered());
                            assert(r.entries() =~= t.entries());
                        }
                        r
                    } else {
                        let r = Box::new(SplayNode { key: nk, value: nv, left: Some(l2), right });
                        proof {
                            assert forall|k: u64|
                                Self::opt_entries(Some(l2)).dom().contains(k) implies k < nk by {
                                assert(l.entries().dom().contains(k));
                            }
                            assert(r.ordered());
                            assert(r.entries() =~= t.entries());
                            assert(!l.entries().dom().contains(key));
                            assert(!t.entries().dom().contains(key));
                        }
                        r
                    }
                },
            }
        } else {
            match right {
                None => {
                    let r = Box::new(SplayNode { key: nk, value: nv, left, right: None });
                    proof {
                        assert(r == t);
                        assert(!t.entries().dom().contains(key));
                    }
                    r
                },
                Some(rt) => {
                    let r2 = Self::splay_to(rt, key);
                    proof {
                        assert(r2.entries() == rt.entries());
                        assert(!Self::opt_entries(left).dom().contains(key));
                    }
                    if r2.key == key {
                        let SplayNode { key: rk, value: rv, left: a, right: b } = *r2;
                        proof {
                            assert(r2.entries() == Self::opt_entries(a).union_prefer_right(
                                Self::opt_entries(b),
                            ).insert(rk, rv));
                            assert(r2.entries().dom() =~= Self::opt_entries(a).dom().union(
                                Self::opt_entries(b).dom(),
                            ).insert(rk));
                            assert forall|k: u64|
                                Self::opt_entries(a).dom().contains(k) implies k > nk && k
                                < rk by {
                                assert(rt.entries().dom().contains(k));
                            }
                            assert(rk > nk);
                        }
                        let inner = Box::new(SplayNode { key: nk, value: nv, left, right: a });
                        let r = Box::new(
                            SplayNode { key: rk, value: rv, left: Some(inner), right: b },
                        );
                        proof {
                            assert(inner.ordered());
                            assert(inner.entries() == Self::opt_entries(
                                left,
                            ).union_prefer_right(Self::opt_entries(a)).insert(nk, nv));
                            assert(inner.entries().dom() =~= Self::opt_entries(
                                left,
                            ).dom().union(Self::opt_entries(a).dom()).insert(nk));
                            assert forall|k: u64|
                                Self::opt_entries(Some(inner)).dom().contains(k) implies k
                                < rk by {
                                if Self::opt_entries(left).dom().contains(k) {
                                    assert(k < nk);
                                }
                            }
                            assert(r.ordered());
                            assert(r.entries() =~= t.entries());
                        }
                        r
                    } else {
                        let r = Box::new(SplayNode { key: nk, value: nv, left, right: Some(r2) });
                        proof {
                            assert forall|k: u64|
                                Self::opt_entries(Some(r2)).dom().contains(k) implies k > nk by {
                                assert(rt.entries().dom().contains(k));
                            }
                            assert(r.ordered());
                            assert(r.entries() =~= t.entries());
                            assert(!rt.entries().dom().contains(key));
                            assert(!t.entries().dom().contains(key));
                        }
                        r
                    }
                },
            }
        }
    }

    fn insert_opt(o: &mut Option<Box<SplayNode<V>>>, key: u64, value: V) -> (added: bool)
        requires
            Self::opt_ordered(*old(o)),
        ensures
            Self::opt_ordered(*final(o)),
            added == !Self::opt_entries(*old(o)).dom().contains(key),
            Self::opt_entries(*final(o)) == if added {
                Self::opt_entries(*old(o)).insert(key, value)
            } else {
                Self::opt_entries(*old(o))
            },
        decreases *old(o),
    {
        match o.take() {
            None => {
                *o = Some(Box::new(SplayNode { key, value, left: None, right: None }));
                proof {
                    assert(Self::opt_entries(*o) =~= Self::opt_entries(*old(o)).insert(
                        key,
                        value,
                    ));
                }
                true
            },
            Some(mut n) => {
                let added;
                if key == n.key {
                    added = false;
                } else if key < n.key {
                    added = Self::insert_opt(&mut (&mut *n).left, key, value);
                    proof {
                        assert(!Self::opt_entries(n.right).dom().contains(key));
                        if added {
                            assert(n.entries() =~= old(o)->Some_0.entries().insert(key, value));
                        } else {
                            assert(n.entries() =~= old(o)->Some_0.entries());
                        }
                    }
                } else {
                    added = Self::insert_opt(&mut (&mut *n).right, key, value);
                    proof {
                        assert(!Self::opt_entries(n.left).dom().contains(key));
                        if added {
                            assert(n.entries() =~= old(o)->Some_0.entries().insert(key, value));
                        } else {
                            assert(n.entries() =~= old(o)->Some_0.entries());
                        }
                    }
                }
                *o = Some(n);
                added
            },
        }
    }

    /// Unlink the least pair of a non-empty subtree and hand it back.
    fn pop_min(o: &mut Option<Box<SplayNode<V>>>) -> (popped: (u64, V))
        requires
            old(o).is_some(),
            Self::opt_ordered(*old(o)),
        ensures
            Self::opt_ordered(*final(o)),
            Self::opt_entries(*old(o)).dom().contains(popped.0),
            Self::opt_entries(*old(o))[popped.0] == popped.1,
            Self::opt_entries(*final(o)) == Self::opt_entries(*old(o)).remove(popped.0),
            forall|k: u64| Self::opt_entries(*old(o)).dom().contains(k) ==> popped.0 <= k,
        decreases *old(o),
    {
        let mut n = o.take().unwrap();
        if n.left.is_none() {
            proof {
                assert(Self::opt_entries(n.left) =~= Map::<u64, V>::empty());
                assert(!Self::opt_entries(n.right).dom().contains(n.key));
            }
            *o = n.right.take();
            proof {
                assert(Self::opt_entries(*o) =~= Self::opt_entries(*old(o)).remove(n.key));
            }
            let boxed = *n;
            let SplayNode { key, value, .. } = boxed;
            (key, value)
        } else {
            let popped = Self::pop_min(&mut (&mut *n).left);
            proof {
                assert(!Self::opt_entries(n.right).dom().contains(popped.0));
                assert(n.key != popped.0);
                assert(n.entries() =~= old(o)->Some_0.entries().remove(popped.0));
            }
            *o = Some(n);
            popped
        }
    }

    /// All keys of the subtree lie strictly inside the given bounds.
    pub closed spec fn opt_bounded(
        o: Option<Box<SplayNode<V>>>,
        lo: Option<u64>,
        hi: Option<u64>,
    ) -> bool {
        forall|k: u64|
            Self::opt_entries(o).dom().contains(k) ==> (match lo {
                Some(l) => l < k,
                None => true,
            } && match hi {
                Some(h) => k < h,
                None => true,
            })
    }

    /// Check search-tree order within an open interval, each bound optional.
    fn check_range(o: &Option<Box<SplayNode<V>>>, lo: Option<u64>, hi: Option<u64>) -> (r: bool)
        ensures
            r == (Self::opt_ordered(*o) && Self::opt_bounded(*o, lo, hi)),
        decreases *o,
    {
        match o {
            None => {
                proof {
                    assert(Self::opt_entries(*o).dom() =~= Set::<u64>::empty());
                }
                true
            },
            Some(n) => {
                let lo_ok = match lo {
                    Some(l) => l < n.key,
                    None => true,
                };
                let hi_ok = match hi {
                    Some(h) => n.key < h,
                    None => true,
                };
                if !lo_ok || !hi_ok {
                    proof {
                        assert(Self::opt_entries(*o).dom().contains(n.key));
                    }
                    false
                } else {
                    let left_ok = Self::check_range(&n.left, lo, Some(n.key));
                    let right_ok = Self::check_range(&n.right, Some(n.key), hi);
                    proof {
                        assert(Self::opt_entries(*o).dom() =~= Self::opt_entries(
                            n.left,
                        ).dom().union(Self::opt_entries(n.right).dom()).insert(n.key));
                        if left_ok && right_ok {
                            assert(forall|k: u64|
                                Self::opt_entries(n.left).dom().contains(k) ==> k < n.key);
                            assert(forall|k: u64|
                                Self::opt_entries(n.right).dom().contains(k) ==> k > n.key);
                            assert(n.ordered());
                            assert(Self::opt_bounded(*o, lo, hi));
                        } else {
                            assert(!(Self::opt_ordered(*o) && Self::opt_bounded(*o, lo, hi)))
                                by {
                                if Self::opt_ordered(*o) && Self::opt_bounded(*o, lo, hi) {
                                    assert forall|k: u64|
                                        Self::opt_entries(n.left).dom().contains(k) implies (
                                    match lo {
                                        Some(l) => l < k,
                                        None => true,
                                    } && k < n.key) by {
                                        assert(Self::opt_entries(*o).dom().contains(k));
                                    }
                                    assert(Self::opt_bounded(n.left, lo, Some(n.key)));
                                    assert forall|k: u64|
                                        Self::opt_entries(n.right).dom().contains(k) implies (
                                    n.key < k && match hi {
                                        Some(h) => k < h,
                                        None => true,
                                    }) by {
                                        assert(Self::opt_entries(*o).dom().contains(k));
                                    }
                                    assert(Self::opt_bounded(n.right, Some(n.key), hi));
                                    assert(false);
                                }
                            }
                        }
                    }
                    left_ok && right_ok
                }
            },
        }
    }

    /// Push the subtree's keys, in order, onto the end of a vector.
    fn push_keys(o: &Option<Box<SplayNode<V>>>, out: &mut Vec<u64>)
        ensures
            final(out)@ == old(out)@ + Self::opt_key_seq(*o),
        decreases *o,
    {
        match o {
            None => {
                proof {
                    assert(out@ =~= old(out)@ + Self::opt_key_seq(*o));
                }
            },
            Some(n) => {
                Self::push_keys(&n.left, out);
                out.push(n.key);
                Self::push_keys(&n.right, out);
                proof {
                    assert(out@ =~= old(out)@ + Self::opt_key_seq(*o));
                }
            },
        }
    }

    /// An ordered walk visits strictly increasing keys: exactly the key set,
    /// each key once.
    proof fn lemma_walk(o: Option<Box<SplayNode<V>>>)
        requires
            Self::opt_ordered(o),
        ensures
            crate::laws::strictly_increasing(Self::opt_key_seq(o)),
            Self::opt_key_seq(o).to_set() =~= Self::opt_entries(o).dom(),
        decreases o,
    {
        match o {
            None => {
                assert(Self::opt_key_seq(o).to_set() =~= Self::opt_entries(o).dom()) by {
                    assert(forall|k: u64| !Self::opt_key_seq(o).contains(k));
                    assert(Self::opt_entries(o).dom() =~= Set::<u64>::empty());
                }
            },
            Some(n) => {
                Self::lemma_walk(n.left);
                Self::lemma_walk(n.right);
                let l = Self::opt_key_seq(n.left);
                let r = Self::opt_key_seq(n.right);
                let s = Self::opt_key_seq(o);
                let ll = l.len() as int;
                assert(s == l + seq![n.key] + r);
                assert(Self::opt_entries(o).dom() =~= Self::opt_entries(n.left).dom().union(
                    Self::opt_entries(n.right).dom(),
                ).insert(n.key));
                assert forall|k: u64| s.contains(k) implies Self::opt_entries(o).dom().contains(
                    k,
                ) by {
                    let i = choose|i: int| 0 <= i < s.len() && s[i] == k;
                    if i < ll {
                        assert(l[i] == k);
                        assert(l.contains(k));
                        assert(l.to_set().contains(k));
                    } else if i == ll {
                        assert(k == n.key);
                    } else {
                        assert(r[i - ll - 1] == k);
                        assert(r.contains(k));
                        assert(r.to_set().contains(k));
                    }
                }
                assert forall|k: u64| Self::opt_entries(o).dom().contains(k) implies s.contains(
                    k,
                ) by {
                    if Self::opt_entries(n.left).dom().contains(k) {
                        assert(l.to_set().contains(k));
                        let i = choose|i: int| 0 <= i < l.len() && l[i] == k;
                        assert(s[i] == k);
                    } else if k == n.key {
                        assert(s[ll] == k);
                    } else {
                        assert(r.to_set().contains(k));
                        let i = choose|i: int| 0 <= i < r.len() && r[i] == k;
                        assert(s[ll + 1 + i] == k);
                    }
                }
                assert(s.to_set() =~= Self::opt_entries(o).dom());
                assert forall|i: int, j: int| 0 <= i < j < s.len() implies s[i] < s[j] by {
                    if i < ll {
                        assert(s[i] == l[i]);
                        assert(l.contains(l[i]));
                        assert(l.to_set().contains(l[i]));
                    }
                    if j > ll {
                        assert(s[j] == r[j - ll - 1]);
                        assert(r.contains(r[j - ll - 1]));
                        assert(r.to_set().contains(r[j - ll - 1]));
                    }
                    if i == ll {
                        assert(s[i] == n.key);
                    }
                    if j == ll {
                        assert(s[j] == n.key);
                    }
                }
            },
        }
    }
}

impl<V> Splay<V> {
    /// Structural well-formedness: the search-tree order invariant. A splay
    /// tree keeps no other shape invariant.
    pub closed spec fn wf(self) -> bool {
        SplayNode::opt_ordered(self.root)
    }

    /// The keys of an in-order walk of the whole tree.
    pub closed spec fn key_seq(self) -> Seq<u64> {
        SplayNode::opt_key_seq(self.root)
    }

    /// The key at the root, absent for an empty tree.
    pub closed spec fn spec_root_key(self) -> Option<u64> {
        match self.root {
            None => None,
            Some(n) => Some(n.key),
        }
    }

    /// An empty tree.
    pub fn new() -> (t: Self)
        ensures
            t.wf(),
            t@ == Map::<u64, V>::empty(),
    {
        Splay { root: None }
    }

    /// Add `key -> value` unless the key is already present; report whether
    /// the pair was added. A present key keeps its old value. A new pair is
    /// splayed to the root.
    pub fn insert(&mut self, key: u64, value: V) -> (added: bool)
        requires
            old(self).wf(),
        ensures
            final(self).wf(),
            added == !old(self)@.dom().contains(key),
            final(self)@ == if added {
                old(self)@.insert(key, value)
            } else {
                old(self)@
            },
            added ==> final(self).spec_root_key() == Some(key),
    {
        let added = SplayNode::insert_opt(&mut self.root, key, value);
        if added {
            proof {
                assert(SplayNode::opt_entries(self.root).dom().contains(key));
                if self.root is None {
                    assert(SplayNode::opt_entries(self.root) =~= Map::<u64, V>::empty());
                }
            }
            let t = self.root.take().unwrap();
            let t2 = SplayNode::splay_to(t, key);
            self.root = Some(t2);
        }
        added
    }

    /// Look the key up, splaying the found node to the root.
    pub fn get(&mut self, key: &u64) -> (r: Option<&V>)
        requires
            old(self).wf(),
        ensures
            final(self).wf(),
            final(self)@ == old(self)@,
            match r {
                Some(v) => old(self)@.dom().contains(*key) && *v == old(self)@[*key],
                None => !old(self)@.dom().contains(*key),
            },
            old(self)@.dom().contains(*key) ==> final(self).spec_root_key() == Some(*key),
    {
        match self.root.take() {
            None => None,
            Some(t) => {
                let t2 = SplayNode::splay_to(t, *key);
                self.root = Some(t2);
                match &self.root {
                    Some(n) => {
                        if n.key == *key {
                            Some(&n.value)
                        } else {
                            proof {
                                assert(!self@.dom().contains(*key));
                            }
                            None
                        }
                    },
                    None => None,
                }
            },
        }
    }

    /// Borrow the value under the key mutably, splaying the found node to
    /// the root first; what the caller writes through the borrow is what
    /// the key maps to afterwards.
    pub fn get_mut<'a>(&'a mut self, key: &u64) -> (r: Option<&'a mut V>)
        requires
            old(self).wf(),
        ensures
            final(self).wf(),
            match r {
                Some(v) => old(self)@.dom().contains(*key) && *v == old(self)@[*key]
                    && final(self)@ == old(self)@.insert(*key, *final(v))
                    && final(self).spec_root_key() == Some(*key),
                None => !old(self)@.dom().contains(*key) && final(self)@ == old(self)@,
            },
    {
        match self.root.take() {
            None => None,
            Some(t) => {
                let t2 = SplayNode::splay_to(t, *key);
                let hit = t2.key == *key;
                proof {
                    if !hit {
                        assert(!t2.entries().dom().contains(*key));
                    }
                }
                self.root = Some(t2);
                if hit {
                    match &mut self.root {
                        Some(n) => Some(&mut n.value),
                        None => None,
                    }
                } else {
                    None
                }
            },
        }
    }

    /// Replace the value under a present key, splaying the touched node to
    /// the root; report whether the key was present.
    pub fn modify(&mut self, key: &u64, value: V) -> (hit: bool)
        requires
            old(self).wf(),
        ensures
            final(self).wf(),
            hit == old(self)@.dom().contains(*key),
            final(self)@ == if hit {
                old(self)@.insert(*key, value)
            } else {
                old(self)@
            },
            hit ==> final(self).spec_root_key() == Some(*key),
    {
        match self.root.take() {
            None => false,
            Some(t) => {
                let t2 = SplayNode::splay_to(t, *key);
                if t2.key == *key {
                    let SplayNode { key: k0, value: _, left, right } = *t2;
                    let n = Box::new(SplayNode { key: k0, value, left, right });
                    proof {
                        assert(n.ordered());
                        assert(n.entries() =~= old(self)@.insert(*key, value));
                    }
                    self.root = Some(n);
                    true
                } else {
                    proof {
                        assert(!t2.entries().dom().contains(*key));
                    }
                    self.root = Some(t2);
                    false
                }
            },
        }
    }

    /// Take the pair under the key out of the tree and return its value:
    /// the target is splayed to the root and its subtrees are rejoined
    /// through the in-order successor.
    pub fn remove(&mut self, key: &u64) -> (r: Option<V>)
        requires
            old(self).wf(),
        ensures
            final(self).wf(),
            final(self)@ == old(self)@.remove(*key),
            r == if old(self)@.dom().contains(*key) {
                Some(old(self)@[*key])
            } else {
                None::<V>
            },
    {
        match self.root.take() {
            None => {
                proof {
                    assert(old(self)@.remove(*key) =~= old(self)@);
                }
                None
            },
            Some(t) => {
                let t2 = SplayNode::splay_to(t, *key);
                if t2.key == *key {
                    let SplayNode { key: k0, value: out, left, right } = *t2;
                    proof {
                        assert(t2.entries() == SplayNode::opt_entries(
                            left,
                        ).union_prefer_right(SplayNode::opt_entries(right)).insert(k0, out));
                        assert(t2.entries().dom() =~= SplayNode::opt_entries(
                            left,
                        ).dom().union(SplayNode::opt_entries(right).dom()).insert(k0));
                        assert(!SplayNode::opt_entries(left).dom().contains(k0));
                        assert(!SplayNode::opt_entries(right).dom().contains(k0));
                    }
                    if left.is_none() {
                        proof {
                            assert(SplayNode::opt_entries(left) =~= Map::<u64, V>::empty());
                            assert(SplayNode::opt_entries(right) =~= old(self)@.remove(*key));
                        }
                        self.root = right;
                        Some(out)
                    } else if right.is_none() {
                        proof {
                            assert(SplayNode::opt_entries(right) =~= Map::<u64, V>::empty());
                            assert(SplayNode::opt_entries(left) =~= old(self)@.remove(*key));
                        }
                        self.root = left;
                        Some(out)
                    } else {
                        // Both subtrees remain: the in-order successor, the
                        // least pair on the right, becomes the new root.
                        let mut right_opt = right;
                        let (sk, sv) = SplayNode::pop_min(&mut right_opt);
                        proof {
                            assert(sk > k0);
                            assert forall|k: u64|
                                SplayNode::opt_entries(right_opt).dom().contains(
                                    k,
                                ) implies k > sk by {
                                assert(SplayNode::opt_entries(right).dom().contains(k));
                                assert(sk <= k && sk != k);
                            }
                            assert forall|k: u64|
                                SplayNode::opt_entries(left).dom().contains(k) implies k
                                < sk by {
                                assert(k < k0);
                            }
                        }
                        let n = Box::new(
                            SplayNode { key: sk, value: sv, left, right: right_opt },
                        );
                        proof {
                            assert(n.ordered());
                            assert(n.entries() =~= old(self)@.remove(*key));
                        }
                        self.root = Some(n);
                        Some(out)
                    }
                } else {
                    proof {
                        assert(!t2.entries().dom().contains(*key));
                        assert(t2.entries().remove(*key) =~= t2.entries());
                    }
                    self.root = Some(t2);
                    None
                }
            },
        }
    }

    /// The key at the root, absent for an empty tree.
    pub fn root_key(&self) -> (r: Option<u64>)
        ensures
            r == self.spec_root_key(),
    {
        match &self.root {
            None => None,
            Some(n) => Some(n.key),
        }
    }

    /// Walk the tree and report the first violated invariant, if any.
    pub fn self_validate(&self) -> (r: Result<(), InvariantError>)
        ensures
            r.is_ok() <==> self.wf(),
    {
        if SplayNode::check_range(&self.root, None, None) {
            Ok(())
        } else {
            Err(InvariantError::BstOrder)
        }
    }

    /// The keys in ascending order.
    pub fn keys_in_order(&self) -> (out: Vec<u64>)
        ensures
            out@ == self.key_seq(),
    {
        let mut out: Vec<u64> = Vec::new();
        SplayNode::push_keys(&self.root, &mut out);
        proof {
            assert(out@ =~= self.key_seq());
        }
        out
    }

    /// BST order, proved of every well-formed tree: the in-order walk is
    /// strictly increasing, and it visits exactly the stored keys, each of
    /// them once.
    pub proof fn lemma_in_order(self)
        requires
            self.wf(),
        ensures
            crate::laws::strictly_increasing(self.key_seq()),
            self.key_seq().to_set() == self@.dom(),
    {
        SplayNode::lemma_walk(self.root);
    }
}

impl<V> View for Splay<V> {
    type V = Map<u64, V>;

    /// The abstract contents: a finite map from keys to values.
    closed spec fn view(&self) -> Map<u64, V> {
        SplayNode::opt_entries(self.root)
    }
}

} // verus!
