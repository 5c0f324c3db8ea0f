//! Treap: a randomised binary search tree. Every node draws a weight from a
//! uniform source; the structure is a search tree on keys and a max-heap on
//! weights at once. All mutations go through the two algebraic primitives
//! `split` and `join`, and the root's weight makes the treap usable as a
//! max-heap.

use vstd::prelude::*;

use crate::InvariantError;

verus! {

/// One treap node: a pair, a heap weight, and two subtrees.
pub struct TreapNode<V> {
    key: u64,
    value: V,
    weight: u64,
    left: Option<Box<TreapNode<V>>>,
    right: Option<Box<TreapNode<V>>>,
}

/// The treap: an owned root, possibly absent, and the number of pairs.
pub struct Treap<V> {
    root: Option<Box<TreapNode<V>>>,
    count: usize,
}

impl<V> TreapNode<V> {
    /// The key-value pairs stored in an optional subtree.
    pub closed spec fn opt_entries(o: Option<Box<TreapNode<V>>>) -> Map<u64, V>
        decreases o,
    {
        match o {
            None => Map::empty(),
            Some(n) => n.entries(),
        }
    }

    /// The key-value pairs stored in the subtree rooted at this node.
    pub closed spec fn entries(self) -> Map<u64, V>
        decreases self,
    {
        Self::opt_entries(self.left)
            .union_prefer_right(Self::opt_entries(self.right))
            .insert(self.key, self.value)
    }

    /// The weight stored under each key of an optional subtree.
    pub closed spec fn opt_weights(o: Option<Box<TreapNode<V>>>) -> Map<u64, u64>
        decreases o,
    {
        match o {
            None => Map::empty(),
            Some(n) => Self::opt_weights(n.left).union_prefer_right(
                Self::opt_weights(n.right),
            ).insert(n.key, n.weight),
        }
    }

    /// Search-tree order: left keys below, right keys above, recursively.
    pub closed spec fn ordered(self) -> bool
        decreases self,
    {
        &&& forall|k: u64| Self::opt_entries(self.left).dom().contains(k) ==> k < self.key
        &&& forall|k: u64| Self::opt_entries(self.right).dom().contains(k) ==> k > self.key
        &&& match self.left {
            Some(l) => l.ordered(),
            None => true,
        }
        &&& match self.right {
            Some(r) => r.ordered(),
            None => true,
        }
    }

    /// Search-tree order of an optional subtree.
    pub closed spec fn opt_ordered(o: Option<Box<TreapNode<V>>>) -> bool {
        match o {
            None => true,
            Some(n) => n.ordered(),
        }
    }

    /// Every weight in the subtree is at most `w`.
    pub closed spec fn opt_weights_le(o: Option<Box<TreapNode<V>>>, w: u64) -> bool
        decreases o,
    {
        match o {
            None => true,
            Some(n) => n.weight <= w && Self::opt_weights_le(n.left, w)
                && Self::opt_weights_le(n.right, w),
        }
    }

    /// Every weight in the subtree is strictly below `w`.
    pub closed spec fn opt_weights_below(o: Option<Box<TreapNode<V>>>, w: u64) -> bool
        decreases o,
    {
        match o {
            None => true,
            Some(n) => n.weight < w && Self::opt_weights_below(n.left, w)
                && Self::opt_weights_below(n.right, w),
        }
    }

    /// The max-heap shape: no weight anywhere below a node exceeds its own.
    pub closed spec fn heap_ok(self) -> bool
        decreases self,
    {
        &&& Self::opt_weights_le(self.left, self.weight)
        &&& Self::opt_weights_le(self.right, self.weight)
        &&& match self.left {
            Some(l) => l.heap_ok(),
            None => true,
        }
        &&& match self.right {
            Some(r) => r.heap_ok(),
            None => true,
        }
    }

    /// The max-heap shape of an optional subtree.
    pub closed spec fn opt_heap(o: Option<Box<TreapNode<V>>>) -> bool {
        match o {
            None => true,
            Some(n) => n.heap_ok(),
        }
    }

    /// The strict max-heap shape: every weight below a node is strictly
    /// smaller than its own, as with distinct weights.
    pub closed spec fn heap_strict(self) -> bool
        decreases self,
    {
        &&& Self::opt_weights_below(self.left, self.weight)
        &&& Self::opt_weights_below(self.right, self.weight)
        &&& match self.left {
            Some(l) => l.heap_strict(),
            None => true,
        }
        &&& match self.right {
            Some(r) => r.heap_strict(),
            None => true,
        }
    }

    /// The strict max-heap shape of an optional subtree.
    pub closed spec fn opt_heap_strict(o: Option<Box<TreapNode<V>>>) -> bool {
        match o {
            None => true,
            Some(n) => n.heap_strict(),
        }
    }

    /// A strict weight bound is in particular a non-strict one.
    proof fn lemma_below_le(o: Option<Box<TreapNode<V>>>, w: u64)
        requires
            Self::opt_weights_below(o, w),
        ensures
            Self::opt_weights_le(o, w),
        decreases o,
    {
        match o {
            None => {},
            Some(n) => {
                Self::lemma_below_le(n.left, w);
                Self::lemma_below_le(n.right, w);
            },
        }
    }

    /// A strict heap is in particular a heap.
    proof fn lemma_strict_implies_heap(o: Option<Box<TreapNode<V>>>)
        requires
            Self::opt_heap_strict(o),
        ensures
            Self::opt_heap(o),
        decreases o,
    {
        match o {
            None => {},
            Some(n) => {
                Self::lemma_strict_implies_heap(n.left);
                Self::lemma_strict_implies_heap(n.right);
                Self::lemma_below_le(n.left, n.weight);
                Self::lemma_below_le(n.right, n.weight);
            },
        }
    }

    /// The keys met by an in-order walk, left to right.
    pub closed spec fn opt_key_seq(o: Option<Box<TreapNode<V>>>) -> Seq<u64>
        decreases o,
    {
        match o {
            None => Seq::empty(),
            Some(n) => Self::opt_key_seq(n.left) + seq![n.key] + Self::opt_key_seq(n.right),
        }
    }

    /// What `split` yields: the pairs with keys at most `key` on the left,
    /// the rest on the right, each part keeping its relative structure.
    pub closed spec fn spec_split(o: Option<Box<TreapNode<V>>>, key: u64) -> (
        Option<Box<TreapNode<V>>>,
        Option<Box<TreapNode<V>>>,
    )
        decreases o,
    {
        match o {
            None => (None, None),
            Some(n) => if key < n.key {
                let (a, b) = Self::spec_split(n.left, key);
                (
                    a,
                    Some(
                        Box::new(
                            TreapNode {
                                key: n.key,
                                value: n.value,
                                weight: n.weight,
                                left: b,
                                right: n.right,
                            },
                        ),
                    ),
                )
            } else {
                let (a, b) = Self::spec_split(n.right, key);
                (
                    Some(
                        Box::new(
                            TreapNode {
                                key: n.key,
                                value: n.value,
                                weight: n.weight,
                                left: n.left,
                                right: a,
                            },
                        ),
                    ),
                    b,
                )
            },
        }
    }

    /// What `join` yields: the tree whose root is the heavier of the two
    /// roots, its inner child joined recursively with the other tree.
    pub closed spec fn spec_join(
        a: Option<Box<TreapNode<V>>>,
        b: Option<Box<TreapNode<V>>>,
    ) -> Option<Box<TreapNode<V>>>
        decreases a, b,
    {
        match a {
            None => b,
            Some(u) => match b {
                None => a,
                Some(v) => if u.weight > v.weight {
                    Some(
                        Box::new(
                            TreapNode {
                                key: u.key,
                                value: u.value,
                                weight: u.weight,
                                left: u.left,
                                right: Self::spec_join(u.right, b),
                            },
                        ),
                    )
                } else {
                    Some(
                        Box::new(
                            TreapNode {
                                key: v.key,
                                value: v.value,
                                weight: v.weight,
                                left: Self::spec_join(a, v.left),
                                right: v.right,
                            },
                        ),
                    )
                },
            },
        }
    }

    /// A weight bound extends to any larger bound.
    proof fn lemma_weights_le_mono(o: Option<Box<TreapNode<V>>>, w1: u64, w2: u64)
        requires
            Self::opt_weights_le(o, w1),
            w1 <= w2,
        ensures
            Self::opt_weights_le(o, w2),
        decreases o,
    {
        match o {
            None => {},
            Some(n) => {
                Self::lemma_weights_le_mono(n.left, w1, w2);
                Self::lemma_weights_le_mono(n.right, w1, w2);
            },
        }
    }

    /// A bound on all node weights bounds every weight in the weight map.
    proof fn lemma_weights_le_map(o: Option<Box<TreapNode<V>>>, w: u64)
        requires
            Self::opt_weights_le(o, w),
        ensures
            forall|k: u64|
                Self::opt_weights(o).dom().contains(k) ==> Self::opt_weights(o)[k] <= w,
        decreases o,
    {
        match o {
            None => {},
            Some(n) => {
                Self::lemma_weights_le_map(n.left, w);
                Self::lemma_weights_le_map(n.right, w);
                assert forall|k: u64|
                    Self::opt_weights(o).dom().contains(k) implies Self::opt_weights(o)[k]
                    <= w by {
                    assert(Self::opt_weights(o) == Self::opt_weights(
                        n.left,
                    ).union_prefer_right(Self::opt_weights(n.right)).insert(n.key, n.weight));
                }
            },
        }
    }

    /// What splitting guarantees: both parts are well-shaped treaps, their
    /// contents partition the input around `key`, and no weight grows.
    proof fn lemma_split(o: Option<Box<TreapNode<V>>>, key: u64)
        requires
            Self::opt_ordered(o),
            Self::opt_heap(o),
        ensures
            Self::opt_ordered(Self::spec_split(o, key).0),
            Self::opt_ordered(Self::spec_split(o, key).1),
            Self::opt_heap(Self::spec_split(o, key).0),
            Self::opt_heap(Self::spec_split(o, key).1),
            Self::opt_entries(Self::spec_split(o, key).0).union_prefer_right(
                Self::opt_entries(Self::spec_split(o, key).1),
            ) == Self::opt_entries(o),
            Self::opt_weights(Self::spec_split(o, key).0).union_prefer_right(
                Self::opt_weights(Self::spec_split(o, key).1),
            ) == Self::opt_weights(o),
            forall|k: u64|
                Self::opt_entries(Self::spec_split(o, key).0).dom().contains(k) ==> k <= key,
            forall|k: u64|
                Self::opt_entries(Self::spec_split(o, key).1).dom().contains(k) ==> k > key,
            forall|w: u64|
                Self::opt_weights_le(o, w) ==> Self::opt_weights_le(Self::spec_split(o, key).0, w)
                    && Self::opt_weights_le(Self::spec_split(o, key).1, w),
            forall|w: u64|
                Self::opt_weights_below(o, w) ==> Self::opt_weights_below(
                    Self::spec_split(o, key).0,
                    w,
                ) && Self::opt_weights_below(Self::spec_split(o, key).1, w),
        decreases o,
    {
        match o {
            None => {
                assert(Self::opt_entries(o) =~= Map::<u64, V>::empty());
                assert(Self::opt_entries(Self::spec_split(o, key).0).union_prefer_right(
                    Self::opt_entries(Self::spec_split(o, key).1),
                ) =~= Self::opt_entries(o));
                assert(Self::opt_weights(Self::spec_split(o, key).0).union_prefer_right(
                    Self::opt_weights(Self::spec_split(o, key).1),
                ) =~= Self::opt_weights(o));
            },
            Some(n) => {
                assert(Self::opt_entries(o) == Self::opt_entries(n.left).union_prefer_right(
                    Self::opt_entries(n.right),
                ).insert(n.key, n.value));
                assert(Self::opt_entries(o).dom() =~= Self::opt_entries(n.left).dom().union(
                    Self::opt_entries(n.right).dom(),
                ).insert(n.key));
                assert(Self::opt_weights(o) == Self::opt_weights(n.left).union_prefer_right(
                    Self::opt_weights(n.right),
                ).insert(n.key, n.weight));
                Self::lemma_same_doms(n.left);
                Self::lemma_same_doms(n.right);
                if key < n.key {
                    Self::lemma_split(n.left, key);
                    let (a, b) = Self::spec_split(n.left, key);
                    Self::lemma_same_doms(a);
                    Self::lemma_same_doms(b);
                    let rt = Self::spec_split(o, key).1;
                    assert(Self::opt_entries(rt) == Self::opt_entries(b).union_prefer_right(
                        Self::opt_entries(n.right),
                    ).insert(n.key, n.value));
                    assert(Self::opt_weights(rt) == Self::opt_weights(b).union_prefer_right(
                        Self::opt_weights(n.right),
                    ).insert(n.key, n.weight));
                    Self::lemma_same_doms(rt);
                    assert forall|k: u64|
                        Self::opt_entries(b).dom().contains(k) implies k < n.key by {
                        assert(Self::opt_entries(n.left).dom().contains(k));
                    }
                    assert forall|w: u64|
                        Self::opt_weights_le(o, w) implies Self::opt_weights_le(a, w)
                        && Self::opt_weights_le(rt, w) by {
                        assert(Self::opt_weights_le(n.left, w));
                    }
                    assert forall|w: u64|
                        Self::opt_weights_below(o, w) implies Self::opt_weights_below(a, w)
                        && Self::opt_weights_below(rt, w) by {
                        assert(Self::opt_weights_below(n.left, w));
                    }
                    assert(Self::opt_ordered(rt));
                    assert(Self::opt_heap(rt));
                    assert(Self::opt_entries(a).union_prefer_right(Self::opt_entries(rt))
                        =~= Self::opt_entries(o));
                    assert(Self::opt_weights(a).union_prefer_right(Self::opt_weights(rt))
                        =~= Self::opt_weights(o));
                    assert forall|k: u64|
                        Self::opt_entries(rt).dom().contains(k) implies k > key by {
                        assert(Self::opt_entries(rt).dom() =~= Self::opt_entries(
                            b,
                        ).dom().union(Self::opt_entries(n.right).dom()).insert(n.key));
                        if Self::opt_entries(n.right).dom().contains(k) {
                            assert(k > n.key);
                        }
                    }
                } else {
                    Self::lemma_split(n.right, key);
                    let (a, b) = Self::spec_split(n.right, key);
                    Self::lemma_same_doms(a);
                    Self::lemma_same_doms(b);
                    let lt = Self::spec_split(o, key).0;
                    assert(Self::opt_entries(lt) == Self::opt_entries(n.left).union_prefer_right(
                        Self::opt_entries(a),
                    ).insert(n.key, n.value));
                    assert(Self::opt_weights(lt) == Self::opt_weights(n.left).union_prefer_right(
                        Self::opt_weights(a),
                    ).insert(n.key, n.weight));
                    Self::lemma_same_doms(lt);
                    assert forall|k: u64|
                        Self::opt_entries(a).dom().contains(k) implies k > n.key by {
                        assert(Self::opt_entries(n.right).dom().contains(k));
                    }
                    assert forall|w: u64|
                        Self::opt_weights_le(o, w) implies Self::opt_weights_le(lt, w)
                        && Self::opt_weights_le(b, w) by {
                        assert(Self::opt_weights_le(n.right, w));
                    }
                    assert forall|w: u64|
                        Self::opt_weights_below(o, w) implies Self::opt_weights_below(lt, w)
                        && Self::opt_weights_below(b, w) by {
                        assert(Self::opt_weights_below(n.right, w));
                    }
                    assert(Self::opt_ordered(lt));
                    assert(Self::opt_heap(lt));
                    assert(Self::opt_entries(lt).union_prefer_right(Self::opt_entries(b))
                        =~= Self::opt_entries(o));
                    assert(Self::opt_weights(lt).union_prefer_right(Self::opt_weights(b))
                        =~= Self::opt_weights(o));
                    assert forall|k: u64|
                        Self::opt_entries(lt).dom().contains(k) implies k <= key by {
                        assert(Self::opt_entries(lt).dom() =~= Self::opt_entries(
                            n.left,
                        ).dom().union(Self::opt_entries(a).dom()).insert(n.key));
                        if Self::opt_entries(n.left).dom().contains(k) {
                            assert(k < n.key);
                        }
                    }
                }
            },
        }
    }

    /// What joining guarantees, when every left key is below every right
    /// key: a well-shaped treap holding the union, under any weight bound
    /// that covers both parts.
    proof fn lemma_join(a: Option<Box<TreapNode<V>>>, b: Option<Box<TreapNode<V>>>)
        requires
            Self::opt_ordered(a),
            Self::opt_ordered(b),
            Self::opt_heap(a),
            Self::opt_heap(b),
            forall|ka: u64, kb: u64|
                Self::opt_entries(a).dom().contains(ka) && Self::opt_entries(b).dom().contains(
                    kb,
                ) ==> ka < kb,
        ensures
            Self::opt_ordered(Self::spec_join(a, b)),
            Self::opt_heap(Self::spec_join(a, b)),
            Self::opt_entries(Self::spec_join(a, b)) == Self::opt_entries(
                a,
            ).union_prefer_right(Self::opt_entries(b)),
            Self::opt_weights(Self::spec_join(a, b)) == Self::opt_weights(
                a,
            ).union_prefer_right(Self::opt_weights(b)),
            forall|w: u64|
                Self::opt_weights_le(a, w) && Self::opt_weights_le(b, w)
                    ==> Self::opt_weights_le(Self::spec_join(a, b), w),
        decreases a, b,
    {
        match a {
            None => {
                assert(Self::opt_entries(Self::spec_join(a, b)) =~= Self::opt_entries(
                    a,
                ).union_prefer_right(Self::opt_entries(b)));
                assert(Self::opt_weights(Self::spec_join(a, b)) =~= Self::opt_weights(
                    a,
                ).union_prefer_right(Self::opt_weights(b)));
            },
            Some(u) => match b {
                None => {
                    assert(Self::opt_entries(Self::spec_join(a, b)) =~= Self::opt_entries(
                        a,
                    ).union_prefer_right(Self::opt_entries(b)));
                    assert(Self::opt_weights(Self::spec_join(a, b)) =~= Self::opt_weights(
                        a,
                    ).union_prefer_right(Self::opt_weights(b)));
                },
                Some(v) => {
                    let j = Self::spec_join(a, b);
                    assert(Self::opt_entries(a) == Self::opt_entries(
                        u.left,
                    ).union_prefer_right(Self::opt_entries(u.right)).insert(u.key, u.value));
                    assert(Self::opt_entries(a).dom() =~= Self::opt_entries(
                        u.left,
                    ).dom().union(Self::opt_entries(u.right).dom()).insert(u.key));
                    assert(Self::opt_weights(a) == Self::opt_weights(
                        u.left,
                    ).union_prefer_right(Self::opt_weights(u.right)).insert(u.key, u.weight));
                    assert(Self::opt_entries(b) == Self::opt_entries(
                        v.left,
                    ).union_prefer_right(Self::opt_entries(v.right)).insert(v.key, v.value));
                    assert(Self::opt_entries(b).dom() =~= Self::opt_entries(
                        v.left,
                    ).dom().union(Self::opt_entries(v.right).dom()).insert(v.key));
                    assert(Self::opt_weights(b) == Self::opt_weights(
                        v.left,
                    ).union_prefer_right(Self::opt_weights(v.right)).insert(v.key, v.weight));
                    Self::lemma_same_doms(a);
                    Self::lemma_same_doms(b);
                    Self::lemma_same_doms(u.left);
                    Self::lemma_same_doms(u.right);
                    Self::lemma_same_doms(v.left);
                    Self::lemma_same_doms(v.right);
                    if u.weight > v.weight {
                        assert forall|ka: u64, kb: u64|
                            Self::opt_entries(u.right).dom().contains(ka) && Self::opt_entries(
                                b,
                            ).dom().contains(kb) implies ka < kb by {
                            assert(Self::opt_entries(a).dom().contains(ka));
                        }
                        Self::lemma_join(u.right, b);
                        let jr = Self::spec_join(u.right, b);
                        Self::lemma_same_doms(jr);
                        assert(j == Some(
                            Box::new(
                                TreapNode {
                                    key: u.key,
                                    value: u.value,
                                    weight: u.weight,
                                    left: u.left,
                                    right: jr,
                                },
                            ),
                        ));
                        assert(Self::opt_entries(j) == Self::opt_entries(
                            u.left,
                        ).union_prefer_right(Self::opt_entries(jr)).insert(u.key, u.value));
                        assert(Self::opt_weights(j) == Self::opt_weights(
                            u.left,
                        ).union_prefer_right(Self::opt_weights(jr)).insert(u.key, u.weight));
                        assert forall|w: u64|
                            Self::opt_weights_le(a, w) && Self::opt_weights_le(
                                b,
                            w) implies Self::opt_weights_le(j, w) by {
                            assert(Self::opt_weights_le(u.right, w));
                        }
                        assert(Self::opt_weights_le(u.right, u.weight));
                        assert(Self::opt_weights_le(b, v.weight));
                        Self::lemma_weights_le_mono(b, v.weight, u.weight);
                        assert(Self::opt_weights_le(jr, u.weight));
                        assert forall|k: u64|
                            Self::opt_entries(jr).dom().contains(k) implies k > u.key by {
                            assert(Self::opt_entries(jr).dom() =~= Self::opt_entries(
                                u.right,
                            ).dom().union(Self::opt_entries(b).dom()).insert(v.key));
                            if Self::opt_entries(u.right).dom().contains(k) {
                                assert(Self::opt_entries(a).dom().contains(k));
                            } else {
                                assert(Self::opt_entries(b).dom().contains(k));
                                assert(Self::opt_entries(a).dom().contains(u.key));
                            }
                        }
                        assert(Self::opt_ordered(j));
                        assert(Self::opt_heap(j));
                        assert(Self::opt_entries(j) =~= Self::opt_entries(
                            a,
                        ).union_prefer_right(Self::opt_entries(b)));
                        assert(Self::opt_weights(j) =~= Self::opt_weights(
                            a,
                        ).union_prefer_right(Self::opt_weights(b)));
                    } else {
                        assert forall|ka: u64, kb: u64|
                            Self::opt_entries(a).dom().contains(ka) && Self::opt_entries(
                                v.left,
                            ).dom().contains(kb) implies ka < kb by {
                            assert(Self::opt_entries(b).dom().contains(kb));
                        }
                        Self::lemma_join(a, v.left);
                        let jl = Self::spec_join(a, v.left);
                        Self::lemma_same_doms(jl);
                        assert(j == Some(
                            Box::new(
                                TreapNode {
                                    key: v.key,
                                    value: v.value,
                                    weight: v.weight,
                                    left: jl,
                                    right: v.right,
                                },
                            ),
                        ));
                        assert(Self::opt_entries(j) == Self::opt_entries(
                            jl,
                        ).union_prefer_right(Self::opt_entries(v.right)).insert(v.key, v.value));
                        assert(Self::opt_weights(j) == Self::opt_weights(
                            jl,
                        ).union_prefer_right(Self::opt_weights(v.right)).insert(v.key, v.weight));
                        assert forall|w: u64|
                            Self::opt_weights_le(a, w) && Self::opt_weights_le(
                                b,
                            w) implies Self::opt_weights_le(j, w) by {
                            assert(Self::opt_weights_le(v.left, w));
                        }
                        assert(Self::opt_weights_le(v.left, v.weight));
                        assert(Self::opt_weights_le(a, u.weight));
                        Self::lemma_weights_le_mono(a, u.weight, v.weight);
                        assert(Self::opt_weights_le(jl, v.weight));
                        assert forall|k: u64|
                            Self::opt_entries(jl).dom().contains(k) implies k < v.key by {
                            assert(Self::opt_entries(jl).dom() =~= Self::opt_entries(
                                a,
                            ).dom().union(Self::opt_entries(v.left).dom()).insert(u.key));
                            if Self::opt_entries(v.left).dom().contains(k) {
                                assert(k < v.key);
                            } else {
                                assert(Self::opt_entries(a).dom().contains(k));
                                assert(Self::opt_entries(b).dom().contains(v.key));
                            }
                        }
                        assert(Self::opt_ordered(j));
                        assert(Self::opt_heap(j));
                        assert(Self::opt_entries(j) =~= Self::opt_entries(
                            a,
                        ).union_prefer_right(Self::opt_entries(b)));
                        assert(Self::opt_weights(j) =~= Self::opt_weights(
                            a,
                        ).union_prefer_right(Self::opt_weights(b)));
                    }
                },
            },
        }
    }

    /// The treap split/join algebra: splitting a well-shaped treap at any
    /// key and joining the two halves rebuilds exactly the original tree,
    /// structure included. With a tie between a node's weight and one in
    /// its right subtree the rebuilt tree can differ in shape, so strictly
    /// decreasing weights are required here.
    pub proof fn lemma_split_join_id(o: Option<Box<TreapNode<V>>>, key: u64)
        requires
            Self::opt_ordered(o),
            Self::opt_heap_strict(o),
        ensures
            Self::spec_join(Self::spec_split(o, key).0, Self::spec_split(o, key).1) == o,
        decreases o,
    {
        match o {
            None => {},
            Some(n) => {
                if key < n.key {
                    Self::lemma_split_join_id(n.left, key);
                    Self::lemma_strict_implies_heap(n.left);
                    Self::lemma_split(n.left, key);
                    let (a, b) = Self::spec_split(n.left, key);
                    let rt = Self::spec_split(o, key).1;
                    match a {
                        None => {
                            assert(Self::spec_join(a, rt) == rt);
                            assert(Self::spec_join(a, b) == b);
                            assert(rt == o);
                        },
                        Some(u) => {
                            assert(Self::opt_weights_below(n.left, n.weight));
                            assert(Self::opt_weights_below(a, n.weight));
                            assert(u.weight < n.weight);
                            assert(Self::spec_join(a, rt) == o);
                        },
                    }
                } else {
                    Self::lemma_split_join_id(n.right, key);
                    Self::lemma_strict_implies_heap(n.right);
                    Self::lemma_split(n.right, key);
                    let (a, b) = Self::spec_split(n.right, key);
                    let lt = Self::spec_split(o, key).0;
                    match b {
                        None => {
                            assert(Self::spec_join(lt, b) == lt);
                            assert(Self::spec_join(a, b) == a);
                            assert(lt == o);
                        },
                        Some(v) => {
                            assert(Self::opt_weights_below(n.right, n.weight));
                            assert(Self::opt_weights_below(b, n.weight));
                            assert(v.weight < n.weight);
                            assert(!(v.weight > n.weight));
                            assert(Self::spec_join(lt, b) == o);
                        },
                    }
                }
            },
        }
    }

    /// Split into the pairs with keys at most `key` and the rest.
    fn split(o: Option<Box<TreapNode<V>>>, key: u64) -> (r: (
        Option<Box<TreapNode<V>>>,
        Option<Box<TreapNode<V>>>,
    ))
        ensures
            r == Self::spec_split(o, key),
        decreases o,
    {
        match o {
            None => (None, None),
            Some(n) => {
                let TreapNode { key: nk, value: nv, weight: nw, left, right } = *n;
                if key < nk {
                    let (a, b) = Self::split(left, key);
                    (
                        a,
                        Some(
                            Box::new(
                                TreapNode { key: nk, value: nv, weight: nw, left: b, right },
                            ),
                        ),
                    )
                } else {
                    let (a, b) = Self::split(right, key);
                    (
                        Some(
                            Box::new(
                                TreapNode { key: nk, value: nv, weight: nw, left, right: a },
                            ),
                        ),
                        b,
                    )
                }
            },
        }
    }

    /// Join two treaps, every left key below every right key: the heavier
    /// root wins and its inner child is joined recursively with the rest.
    fn join(a: Option<Box<TreapNode<V>>>, b: Option<Box<TreapNode<V>>>) -> (r: Option<
        Box<TreapNode<V>>,
    >)
        ensures
            r == Self::spec_join(a, b),
        decreases a, b,
    {
        match a {
            None => b,
            Some(u) => match b {
                None => Some(u),
                Some(v) => {
                    if u.weight > v.weight {
                        let TreapNode { key: uk, value: uv, weight: uw, left: ul, right: ur } =
                            *u;
                        let j = Self::join(ur, Some(v));
                        Some(
                            Box::new(
                                TreapNode {
                                    key: uk,
                                    value: uv,
                                    weight: uw,
                                    left: ul,
                                    right: j,
                                },
                            ),
                        )
                    } else {
                        let TreapNode { key: vk, value: vv, weight: vw, left: vl, right: vr } =
                            *v;
                        let j = Self::join(Some(u), vl);
                        Some(
                            Box::new(
                                TreapNode {
                                    key: vk,
                                    value: vv,
                                    weight: vw,
                                    left: j,
                                    right: vr,
                                },
                            ),
                        )
                    }
                },
            },
        }
    }

    fn get_opt<'a>(o: &'a Option<Box<TreapNode<V>>>, key: u64) -> (r: Option<&'a V>)
        requires
            Self::opt_ordered(*o),
        ensures
            match r {
                Some(v) => Self::opt_entries(*o).dom().contains(key) && *v == Self::opt_entries(
                    *o,
                )[key],
                None => !Self::opt_entries(*o).dom().contains(key),
            },
        decreases *o,
    {
        match o {
            None => None,
            Some(n) => {
                if key == n.key {
                    Some(&n.value)
                } else if key < n.key {
                    proof {
                        assert(!Self::opt_entries(n.right).dom().contains(key));
                    }
                    Self::get_opt(&n.left, key)
                } else {
                    proof {
                        assert(!Self::opt_entries(n.left).dom().contains(key));
                    }
                    Self::get_opt(&n.right, key)
                }
            },
        }
    }

    fn modify_opt(o: &mut Option<Box<TreapNode<V>>>, key: u64, value: V) -> (hit: bool)
        requires
            Self::opt_ordered(*old(o)),
            Self::opt_heap(*old(o)),
        ensures
            Self::opt_ordered(*final(o)),
            Self::opt_heap(*final(o)),
            Self::opt_weights(*final(o)) == Self::opt_weights(*old(o)),
            forall|w: u64|
                Self::opt_weights_le(*old(o), w) ==> Self::opt_weights_le(*final(o), w),
            hit == Self::opt_entries(*old(o)).dom().contains(key),
            Self::opt_entries(*final(o)) == if hit {
                Self::opt_entries(*old(o)).insert(key, value)
            } else {
                Self::opt_entries(*old(o))
            },
        decreases *old(o),
    {
        match o.take() {
            None => false,
            Some(mut n) => {
                let hit;
                if key == n.key {
                    (&mut *n).value = value;
                    hit = true;
                    proof {
                        assert(!Self::opt_entries(n.left).dom().contains(key));
                        assert(!Self::opt_entries(n.right).dom().contains(key));
                        assert(n.entries() =~= old(o)->Some_0.entries().insert(key, value));
                    }
                } else if key < n.key {
                    hit = Self::modify_opt(&mut (&mut *n).left, key, value);
                    proof {
                        assert(!Self::opt_entries(n.right).dom().contains(key));
                        if hit {
                            assert(n.entries() =~= old(o)->Some_0.entries().insert(key, value));
                        } else {
                            assert(n.entries() =~= old(o)->Some_0.entries());
                        }
                    }
                } else {
                    hit = Self::modify_opt(&mut (&mut *n).right, key, value);
                    proof {
                        assert(!Self::opt_entries(n.left).dom().contains(key));
                        if hit {
                            assert(n.entries() =~= old(o)->Some_0.entries().insert(key, value));
                        } else {
                            assert(n.entries() =~= old(o)->Some_0.entries());
                        }
                    }
                }
                proof {
                    assert(Self::opt_weights(Some(n)) =~= Self::opt_weights(*old(o)));
                    assert forall|w: u64|
                        Self::opt_weights_le(*old(o), w) implies Self::opt_weights_le(
                            Some(n),
                            w,
                        ) by {
                        assert(Self::opt_weights_le(*old(o), w) == (old(o)->Some_0.weight <= w
                            && Self::opt_weights_le(old(o)->Some_0.left, w)
                            && Self::opt_weights_le(old(o)->Some_0.right, w)));
                    }
                    assert(n.heap_ok());
                }
                *o = Some(n);
                hit
            },
        }
    }

    /// Remove through the join primitive: where the key is found, its two
    /// subtrees are joined in its place.
    fn remove_at(o: Option<Box<TreapNode<V>>>, key: u64) -> (r: (
        Option<Box<TreapNode<V>>>,
        Option<V>,
    ))
        requires
            Self::opt_ordered(o),
            Self::opt_heap(o),
        ensures
            Self::opt_ordered(r.0),
            Self::opt_heap(r.0),
            Self::opt_entries(r.0) == Self::opt_entries(o).remove(key),
            Self::opt_weights(r.0) == Self::opt_weights(o).remove(key),
            r.1 == if Self::opt_entries(o).dom().contains(key) {
                Some(Self::opt_entries(o)[key])
            } else {
                None::<V>
            },
            forall|w: u64| Self::opt_weights_le(o, w) ==> Self::opt_weights_le(r.0, w),
        decreases o,
    {
        match o {
            None => {
                proof {
                    assert(Self::opt_entries(o).remove(key) =~= Self::opt_entries(o));
                    assert(Self::opt_weights(o).remove(key) =~= Self::opt_weights(o));
                }
                (None, None)
            },
            Some(n) => {
                let TreapNode { key: nk, value: nv, weight: nw, left, right } = *n;
                proof {
                    assert(Self::opt_entries(o) == Self::opt_entries(left).union_prefer_right(
                        Self::opt_entries(right),
                    ).insert(nk, nv));
                    assert(Self::opt_entries(o).dom() =~= Self::opt_entries(left).dom().union(
                        Self::opt_entries(right).dom(),
                    ).insert(nk));
                    assert(Self::opt_weights(o) == Self::opt_weights(left).union_prefer_right(
                        Self::opt_weights(right),
                    ).insert(nk, nw));
                }
                if key < nk {
                    let (l2, v) = Self::remove_at(left, key);
                    proof {
                        assert(!Self::opt_entries(right).dom().contains(key));
                        assert forall|k: u64|
                            Self::opt_entries(l2).dom().contains(k) implies k < nk by {
                            assert(Self::opt_entries(left).dom().contains(k));
                        }
                        assert(Self::opt_weights_le(l2, nw));
                    }
                    let t = Box::new(
                        TreapNode { key: nk, value: nv, weight: nw, left: l2, right },
                    );
                    proof {
                        Self::lemma_same_doms(left);
                        Self::lemma_same_doms(right);
                        Self::lemma_same_doms(l2);
                        assert(t.entries() =~= Self::opt_entries(o).remove(key));
                        assert(Self::opt_weights(Some(t)) =~= Self::opt_weights(o).remove(key));
                        assert forall|w: u64|
                            Self::opt_weights_le(o, w) implies Self::opt_weights_le(
                                Some(t),
                                w,
                            ) by {
                            assert(Self::opt_weights_le(o, w) == (nw <= w
                                && Self::opt_weights_le(left, w) && Self::opt_weights_le(
                                right,
                                w,
                            )));
                        }
                    }
                    (Some(t), v)
                } else if key > nk {
                    let (r2, v) = Self::remove_at(right, key);
                    proof {
                        assert(!Self::opt_entries(left).dom().contains(key));
                        assert forall|k: u64|
                            Self::opt_entries(r2).dom().contains(k) implies k > nk by {
                            assert(Self::opt_entries(right).dom().contains(k));
                        }
                        assert(Self::opt_weights_le(r2, nw));
                    }
                    let t = Box::new(
                        TreapNode { key: nk, value: nv, weight: nw, left, right: r2 },
                    );
                    proof {
                        Self::lemma_same_doms(left);
                        Self::lemma_same_doms(right);
                        Self::lemma_same_doms(r2);
                        assert(t.entries() =~= Self::opt_entries(o).remove(key));
                        assert(Self::opt_weights(Some(t)) =~= Self::opt_weights(o).remove(key));
                        assert forall|w: u64|
                            Self::opt_weights_le(o, w) implies Self::opt_weights_le(
                                Some(t),
                                w,
                            ) by {
                            assert(Self::opt_weights_le(o, w) == (nw <= w
                                && Self::opt_weights_le(left, w) && Self::opt_weights_le(
                                right,
                                w,
                            )));
                        }
                    }
                    (Some(t), v)
                } else {
                    proof {
                        assert(!Self::opt_entries(left).dom().contains(nk));
                        assert(!Self::opt_entries(right).dom().contains(nk));
                        assert(!Self::opt_weights(left).dom().contains(nk)) by {
                            Self::lemma_same_doms(left);
                        }
                        assert(!Self::opt_weights(right).dom().contains(nk)) by {
                            Self::lemma_same_doms(right);
                        }
                        assert forall|ka: u64, kb: u64|
                            Self::opt_entries(left).dom().contains(ka) && Self::opt_entries(
                                right,
                            ).dom().contains(kb) implies ka < kb by {
                            assert(ka < nk);
                            assert(kb > nk);
                        }
                        Self::lemma_join(left, right);
                    }
                    let j = Self::join(left, right);
                    proof {
                        assert(Self::opt_entries(j) =~= Self::opt_entries(o).remove(nk));
                        assert(Self::opt_weights(j) =~= Self::opt_weights(o).remove(nk));
                        assert forall|w: u64|
                            Self::opt_weights_le(o, w) implies Self::opt_weights_le(j, w) by {
                            assert(Self::opt_weights_le(o, w) == (nw <= w
                                && Self::opt_weights_le(left, w) && Self::opt_weights_le(
                                right,
                                w,
                            )));
                        }
                    }
                    (j, Some(nv))
                }
            },
        }
    }

    /// The entry map and the weight map always share their key set.
    proof fn lemma_same_doms(o: Option<Box<TreapNode<V>>>)
        ensures
            Self::opt_weights(o).dom() =~= Self::opt_entries(o).dom(),
        decreases o,
    {
        match o {
            None => {},
            Some(n) => {
                Self::lemma_same_doms(n.left);
                Self::lemma_same_doms(n.right);
                assert(Self::opt_entries(o) == Self::opt_entries(n.left).union_prefer_right(
                    Self::opt_entries(n.right),
                ).insert(n.key, n.value));
                assert(Self::opt_weights(o) == Self::opt_weights(n.left).union_prefer_right(
                    Self::opt_weights(n.right),
                ).insert(n.key, n.weight));
            },
        }
    }

    /// Descend the right spine while weights exceed the new one; the new
    /// node takes the displaced subtree as its left child. Every present
    /// key must lie below the new key.
    fn spine_insert(o: Option<Box<TreapNode<V>>>, key: u64, value: V, weight: u64) -> (r: Box<
        TreapNode<V>,
    >)
        requires
            Self::opt_ordered(o),
            Self::opt_heap(o),
            forall|k: u64| Self::opt_entries(o).dom().contains(k) ==> k < key,
        ensures
            r.ordered(),
            r.heap_ok(),
            r.entries() == Self::opt_entries(o).insert(key, value),
            forall|wb: u64|
                Self::opt_weights_le(o, wb) && weight <= wb ==> Self::opt_weights_le(
                    Some(r),
                    wb,
                ),
        decreases o,
    {
        match o {
            None => {
                let r = Box::new(
                    TreapNode { key, value, weight, left: None, right: None },
                );
                proof {
                    assert(r.entries() =~= Self::opt_entries(o).insert(key, value));
                    assert forall|wb: u64|
                        Self::opt_weights_le(o, wb) && weight <= wb implies Self::opt_weights_le(
                            Some(r),
                            wb,
                        ) by {
                        assert(Self::opt_weights_le(r.left, wb));
                        assert(Self::opt_weights_le(r.right, wb));
                    }
                }
                r
            },
            Some(n) => {
                let TreapNode { key: nk, value: nv, weight: nw, left, right } = *n;
                proof {
                    assert(Self::opt_entries(o) == Self::opt_entries(left).union_prefer_right(
                        Self::opt_entries(right),
                    ).insert(nk, nv));
                    assert(Self::opt_entries(o).dom() =~= Self::opt_entries(left).dom().union(
                        Self::opt_entries(right).dom(),
                    ).insert(nk));
                }
                if nw > weight {
                    proof {
                        assert forall|k: u64|
                            Self::opt_entries(right).dom().contains(k) implies k < key by {
                            assert(Self::opt_entries(o).dom().contains(k));
                        }
                    }
                    let r2 = Self::spine_insert(right, key, value, weight);
                    proof {
                        assert(Self::opt_weights_le(Some(r2), nw));
                        assert forall|k: u64|
                            Self::opt_entries(Some(r2)).dom().contains(k) implies k > nk by {
                            assert(r2.entries().dom() =~= Self::opt_entries(
                                right,
                            ).dom().insert(key));
                            if Self::opt_entries(right).dom().contains(k) {
                                assert(k > nk);
                            } else {
                                assert(k == key);
                                assert(Self::opt_entries(o).dom().contains(nk));
                            }
                        }
                    }
                    let t = Box::new(
                        TreapNode { key: nk, value: nv, weight: nw, left, right: Some(r2) },
                    );
                    proof {
                        assert(t.ordered());
                        assert(t.heap_ok());
                        assert(t.entries() =~= Self::opt_entries(o).insert(key, value));
                        assert forall|wb: u64|
                            Self::opt_weights_le(o, wb) && weight
                                <= wb implies Self::opt_weights_le(Some(t), wb) by {
                            assert(Self::opt_weights_le(o, wb) == (nw <= wb
                                && Self::opt_weights_le(left, wb) && Self::opt_weights_le(
                                right,
                                wb,
                            )));
                        }
                    }
                    t
                } else {
                    proof {
                        Self::lemma_weights_le_mono(left, nw, weight);
                        Self::lemma_weights_le_mono(right, nw, weight);
                        assert(Self::opt_weights_le(o, weight));
                    }
                    let rebuilt = Box::new(
                        TreapNode { key: nk, value: nv, weight: nw, left, right },
                    );
                    proof {
                        assert(rebuilt == o->Some_0);
                    }
                    let t = Box::new(
                        TreapNode { key, value, weight, left: Some(rebuilt), right: None },
                    );
                    proof {
                        assert(Self::opt_entries(t.right) =~= Map::<u64, V>::empty());
                        assert(Self::opt_entries(t.left) == Self::opt_entries(o));
                        assert(t.ordered());
                        assert(t.heap_ok());
                        assert(t.entries() =~= Self::opt_entries(o).insert(key, value));
                        assert forall|wb: u64|
                            Self::opt_weights_le(o, wb) && weight
                                <= wb implies Self::opt_weights_le(Some(t), wb) by {
                            assert(Self::opt_weights_le(t.left, wb) == Self::opt_weights_le(
                                o,
                                wb,
                            ));
                            assert(Self::opt_weights_le(t.right, wb));
                        }
                    }
                    t
                }
            },
        }
    }

    /// All keys of the subtree lie strictly inside the given bounds.
    pub closed spec fn opt_bounded(
        o: Option<Box<TreapNode<V>>>,
        lo: Option<u64>,
        hi: Option<u64>,
    ) -> bool {
        forall|k: u64|
            Self::opt_entries(o).dom().contains(k) ==> (match lo {
                Some(l) => l < k,
                None => true,
            } && match hi {
                Some(h) => k < h,
                None => true,
            })
    }

    /// Check search-tree order within an open interval, each bound optional.
    fn check_range(o: &Option<Box<TreapNode<V>>>, lo: Option<u64>, hi: Option<u64>) -> (r: bool)
        ensures
            r == (Self::opt_ordered(*o) && Self::opt_bounded(*o, lo, hi)),
        decreases *o,
    {
        match o {
            None => {
                proof {
                    assert(Self::opt_entries(*o).dom() =~= Set::<u64>::empty());
                }
                true
            },
            Some(n) => {
                let lo_ok = match lo {
                    Some(l) => l < n.key,
                    None => true,
                };
                let hi_ok = match hi {
                    Some(h) => n.key < h,
                    None => true,
                };
                if !lo_ok || !hi_ok {
                    proof {
                        assert(Self::opt_entries(*o).dom().contains(n.key));
                    }
                    false
                } else {
                    let left_ok = Self::check_range(&n.left, lo, Some(n.key));
                    let right_ok = Self::check_range(&n.right, Some(n.key), hi);
                    proof {
                        assert(Self::opt_entries(*o).dom() =~= Self::opt_entries(
                            n.left,
                        ).dom().union(Self::opt_entries(n.right).dom()).insert(n.key));
                        if left_ok && right_ok {
                            assert(forall|k: u64|
                                Self::opt_entries(n.left).dom().contains(k) ==> k < n.key);
                            assert(forall|k: u64|
                                Self::opt_entries(n.right).dom().contains(k) ==> k > n.key);
                            assert(n.ordered());
                            assert(Self::opt_bounded(*o, lo, hi));
                        } else {
                            assert(!(Self::opt_ordered(*o) && Self::opt_bounded(*o, lo, hi)))
                                by {
                                if Self::opt_ordered(*o) && Self::opt_bounded(*o, lo, hi) {
                                    assert forall|k: u64|
                                        Self::opt_entries(n.left).dom().contains(k) implies (
                                    match lo {
                                        Some(l) => l < k,
                                        None => true,
                                    } && k < n.key) by {
                                        assert(Self::opt_entries(*o).dom().contains(k));
                                    }
                                    assert(Self::opt_bounded(n.left, lo, Some(n.key)));
                                    assert forall|k: u64|
                                        Self::opt_entries(n.right).dom().contains(k) implies (
                                    n.key < k && match hi {
                                        Some(h) => k < h,
                                        None => true,
                                    }) by {
                                        assert(Self::opt_entries(*o).dom().contains(k));
                                    }
                                    assert(Self::opt_bounded(n.right, Some(n.key), hi));
                                    assert(false);
                                }
                            }
                        }
                    }
                    left_ok && right_ok
                }
            },
        }
    }

    /// Check the max-heap rule on weights: no child outweighs its parent.
    fn check_heap(o: &Option<Box<TreapNode<V>>>) -> (r: bool)
        ensures
            r == Self::opt_heap(*o),
        decreases *o,
    {
        match o {
            None => true,
            Some(n) => {
                let left_le = match &n.left {
                    None => true,
                    Some(l) => l.weight <= n.weight,
                };
                let right_le = match &n.right {
                    None => true,
                    Some(r) => r.weight <= n.weight,
                };
                let left_ok = Self::check_heap(&n.left);
                let right_ok = Self::check_heap(&n.right);
                let ok = left_le && right_le && left_ok && right_ok;
                proof {
                    if ok {
                        match &n.left {
                            None => {},
                            Some(l) => {
                                Self::lemma_weights_le_mono(l.left, l.weight, n.weight);
                                Self::lemma_weights_le_mono(l.right, l.weight, n.weight);
                            },
                        }
                        match &n.right {
                            None => {},
                            Some(r) => {
                                Self::lemma_weights_le_mono(r.left, r.weight, n.weight);
                                Self::lemma_weights_le_mono(r.right, r.weight, n.weight);
                            },
                        }
                        assert(n.heap_ok());
                    } else {
                        assert(!n.heap_ok());
                    }
                }
                ok
            },
        }
    }

    /// Push the subtree's keys, in order, onto the end of a vector.
    fn push_keys(o: &Option<Box<TreapNode<V>>>, out: &mut Vec<u64>)
        ensures
            final(out)@ == old(out)@ + Self::opt_key_seq(*o),
        decreases *o,
    {
        match o {
            None => {
                proof {
                    assert(out@ =~= old(out)@ + Self::opt_key_seq(*o));
                }
            },
            Some(n) => {
                Self::push_keys(&n.left, out);
                out.push(n.key);
                Self::push_keys(&n.right, out);
                proof {
                    assert(out@ =~= old(out)@ + Self::opt_key_seq(*o));
                }
            },
        }
    }

    /// An ordered walk visits strictly increasing keys: exactly the key set,
    /// each key once.
    proof fn lemma_walk(o: Option<Box<TreapNode<V>>>)
        requires
            Self::opt_ordered(o),
        ensures
            crate::laws::strictly_increasing(Self::opt_key_seq(o)),
            Self::opt_key_seq(o).to_set() =~= Self::opt_entries(o).dom(),
        decreases o,
    {
        match o {
            None => {
                assert(Self::opt_key_seq(o).to_set() =~= Self::opt_entries(o).dom()) by {
                    assert(forall|k: u64| !Self::opt_key_seq(o).contains(k));
                    assert(Self::opt_entries(o).dom() =~= Set::<u64>::empty());
                }
            },
            Some(n) => {
                Self::lemma_walk(n.left);
                Self::lemma_walk(n.right);
                let l = Self::opt_key_seq(n.left);
                let r = Self::opt_key_seq(n.right);
                let s = Self::opt_key_seq(o);
                let ll = l.len() as int;
                assert(s == l + seq![n.key] + r);
                assert(Self::opt_entries(o).dom() =~= Self::opt_entries(n.left).dom().union(
                    Self::opt_entries(n.right).dom(),
                ).insert(n.key));
                assert forall|k: u64| s.contains(k) implies Self::opt_entries(o).dom().contains(
                    k,
                ) by {
                    let i = choose|i: int| 0 <= i < s.len() && s[i] == k;
                    if i < ll {
                        assert(l[i] == k);
                        assert(l.contains(k));
                        assert(l.to_set().contains(k));
                    } else if i == ll {
                        assert(k == n.key);
                    } else {
                        assert(r[i - ll - 1] == k);
                        assert(r.contains(k));
                        assert(r.to_set().contains(k));
                    }
                }
                assert forall|k: u64| Self::opt_entries(o).dom().contains(k) implies s.contains(
                    k,
                ) by {
                    if Self::opt_entries(n.left).dom().contains(k) {
                        assert(l.to_set().contains(k));
                        let i = choose|i: int| 0 <= i < l.len() && l[i] == k;
                        assert(s[i] == k);
                    } else if k == n.key {
                        assert(s[ll] == k);
                    } else {
                        assert(r.to_set().contains(k));
                        let i = choose|i: int| 0 <= i < r.len() && r[i] == k;
                        assert(s[ll + 1 + i] == k);
                    }
                }
                assert(s.to_set() =~= Self::opt_entries(o).dom());
                assert forall|i: int, j: int| 0 <= i < j < s.len() implies s[i] < s[j] by {
                    if i < ll {
                        assert(s[i] == l[i]);
                        assert(l.contains(l[i]));
                        assert(l.to_set().contains(l[i]));
                    }
                    if j > ll {
                        assert(s[j] == r[j - ll - 1]);
                        assert(r.contains(r[j - ll - 1]));
                        assert(r.to_set().contains(r[j - ll - 1]));
                    }
                    if i == ll {
                        assert(s[i] == n.key);
                    }
                    if j == ll {
                        assert(s[j] == n.key);
                    }
                }
            },
        }
    }

    /// A fresh leaf node holding one pair under the given weight.
    pub fn new(key: u64, value: V, weight: u64) -> (n: Self)
        ensures
            n.ordered(),
            n.heap_ok(),
            n.entries() == Map::<u64, V>::empty().insert(key, value),
    {
        let n = TreapNode { key, value, weight, left: None, right: None };
        proof {
            assert(n.entries() =~= Map::<u64, V>::empty().insert(key, value));
        }
        n
    }
}

impl<V> Treap<V> {
    /// Structural well-formedness: search-tree order on keys, the max-heap
    /// rule on weights, and an accurate pair count.
    pub closed spec fn wf(self) -> bool {
        &&& TreapNode::opt_ordered(self.root)
        &&& TreapNode::opt_heap(self.root)
        &&& TreapNode::opt_entries(self.root).dom().finite()
        &&& self.count == TreapNode::opt_entries(self.root).dom().len()
    }

    /// The shape invariants alone: what the validator examines.
    pub closed spec fn shape_ok(self) -> bool {
        TreapNode::opt_ordered(self.root) && TreapNode::opt_heap(self.root)
    }

    /// The weight stored under each present key.
    pub closed spec fn weight_map(self) -> Map<u64, u64> {
        TreapNode::opt_weights(self.root)
    }

    /// The keys of an in-order walk of the whole tree.
    pub closed spec fn key_seq(self) -> Seq<u64> {
        TreapNode::opt_key_seq(self.root)
    }

    /// The key at the root, absent for an empty treap.
    pub closed spec fn spec_root_key(self) -> Option<u64> {
        match self.root {
            None => None,
            Some(n) => Some(n.key),
        }
    }

    /// The weight at the root, absent for an empty treap. By the heap rule
    /// this is the largest weight present.
    pub closed spec fn spec_top(self) -> Option<u64> {
        match self.root {
            None => None,
            Some(n) => Some(n.weight),
        }
    }

    /// The contents a bulk load of key-sorted triples produces.
    pub closed spec fn triples_map(s: Seq<(u64, V, u64)>) -> Map<u64, V>
        decreases s.len(),
    {
        if s.len() == 0 {
            Map::empty()
        } else {
            Self::triples_map(s.drop_last()).insert(s.last().0, s.last().1)
        }
    }

    /// An empty treap.
    pub fn new() -> (t: Self)
        ensures
            t.wf(),
            t@ == Map::<u64, V>::empty(),
            t.weight_map() == Map::<u64, u64>::empty(),
    {
        let t = Treap { root: None, count: 0 };
        proof {
            assert(t@.dom() =~= Set::<u64>::empty());
        }
        t
    }

    /// A well-formed treap always passes its own validation.
    pub proof fn lemma_wf_shape(self)
        requires
            self.wf(),
        ensures
            self.shape_ok(),
    {
    }

    /// Add `key -> value` under the given weight unless the key is already
    /// present; report whether the pair was added. The new pair enters
    /// through a split at its key and two joins.
    pub fn insert_weighted(&mut self, key: u64, value: V, weight: u64) -> (added: bool)
        requires
            old(self).wf(),
            old(self)@.dom().len() < usize::MAX,
        ensures
            final(self).wf(),
            added == !old(self)@.dom().contains(key),
            final(self)@ == if added {
                old(self)@.insert(key, value)
            } else {
                old(self)@
            },
            final(self).weight_map() == if added {
                old(self).weight_map().insert(key, weight)
            } else {
                old(self).weight_map()
            },
    {
        let missing = TreapNode::get_opt(&self.root, key).is_none();
        if !missing {
            return false;
        }
        let root = self.root.take();
        proof {
            TreapNode::lemma_split(root, key);
        }
        let (a, b) = TreapNode::split(root, key);
        let leaf = Box::new(TreapNode { key, value, weight, left: None, right: None });
        proof {
            assert(leaf.ordered());
            assert(leaf.heap_ok());
            assert(leaf.entries() =~= Map::<u64, V>::empty().insert(key, value));
            assert(TreapNode::opt_weights(leaf.left) =~= Map::<u64, u64>::empty());
            assert(TreapNode::opt_weights(leaf.right) =~= Map::<u64, u64>::empty());
            assert(TreapNode::opt_weights(Some(leaf)) =~= Map::<u64, u64>::empty().insert(
                key,
                weight,
            ));
            TreapNode::lemma_same_doms(a);
            TreapNode::lemma_same_doms(b);
            assert forall|ka: u64, kb: u64|
                TreapNode::opt_entries(a).dom().contains(ka) && TreapNode::opt_entries(
                    Some(leaf),
                ).dom().contains(kb) implies ka < kb by {
                assert(TreapNode::opt_entries(a).union_prefer_right(
                    TreapNode::opt_entries(b),
                ).dom().contains(ka));
                assert(ka <= key && ka != key);
                assert(kb == key);
            }
            TreapNode::lemma_join(a, Some(leaf));
            let l2 = TreapNode::spec_join(a, Some(leaf));
            assert forall|ka: u64, kb: u64|
                TreapNode::opt_entries(l2).dom().contains(ka) && TreapNode::opt_entries(
                    b,
                ).dom().contains(kb) implies ka < kb by {
                assert(TreapNode::opt_entries(l2).dom() =~= TreapNode::opt_entries(
                    a,
                ).dom().union(TreapNode::opt_entries(Some(leaf)).dom()));
                assert(ka <= key);
                assert(kb > key);
            }
            TreapNode::lemma_join(l2, b);
        }
        let l2 = TreapNode::join(a, Some(leaf));
        let root2 = TreapNode::join(l2, b);
        self.root = root2;
        proof {
            assert(TreapNode::opt_entries(self.root) =~= old(self)@.insert(key, value));
            assert(TreapNode::opt_weights(self.root) =~= old(self).weight_map().insert(
                key,
                weight,
            ));
            assert(TreapNode::opt_entries(self.root).dom() =~= old(self)@.dom().insert(key));
        }
        self.count = self.count + 1;
        true
    }

    /// Relies on rand::random: one uniformly drawn machine word becomes the
    /// fresh node's heap weight. Nothing is assumed of the drawn value.
    #[verifier::external_body]
    fn random_weight() -> u64 {
        rand::random::<u64>()
    }

    /// Add `key -> value` under a randomly drawn weight unless the key is
    /// already present; report whether the pair was added.
    pub fn insert(&mut self, key: u64, value: V) -> (added: bool)
        requires
            old(self).wf(),
            old(self)@.dom().len() < usize::MAX,
        ensures
            final(self).wf(),
            added == !old(self)@.dom().contains(key),
            final(self)@ == if added {
                old(self)@.insert(key, value)
            } else {
                old(self)@
            },
            added ==> exists|w: u64|
                final(self).weight_map() == old(self).weight_map().insert(key, w),
            !added ==> final(self).weight_map() == old(self).weight_map(),
    {
        let w = Self::random_weight();
        let added = self.insert_weighted(key, value, w);
        proof {
            if added {
                assert(final(self).weight_map() == old(self).weight_map().insert(key, w));
            }
        }
        added
    }

    /// Take the pair under the key out of the treap and return its value.
    pub fn remove(&mut self, key: &u64) -> (r: Option<V>)
        requires
            old(self).wf(),
        ensures
            final(self).wf(),
            final(self)@ == old(self)@.remove(*key),
            final(self).weight_map() == old(self).weight_map().remove(*key),
            r == if old(self)@.dom().contains(*key) {
                Some(old(self)@[*key])
            } else {
                None::<V>
            },
    {
        let root = self.root.take();
        let (t, r) = TreapNode::remove_at(root, *key);
        self.root = t;
        proof {
            assert(TreapNode::opt_entries(self.root).dom() =~= if old(self)@.dom().contains(
                *key,
            ) {
                old(self)@.dom().remove(*key)
            } else {
                old(self)@.dom()
            });
        }
        if r.is_some() {
            self.count = self.count - 1;
        }
        r
    }

    /// Replace the value under a present key; report whether it was present.
    pub fn modify(&mut self, key: &u64, value: V) -> (hit: bool)
        requires
            old(self).wf(),
        ensures
            final(self).wf(),
            hit == old(self)@.dom().contains(*key),
            final(self)@ == if hit {
                old(self)@.insert(*key, value)
            } else {
                old(self)@
            },
            final(self).weight_map() == old(self).weight_map(),
    {
        let hit = TreapNode::modify_opt(&mut self.root, *key, value);
        proof {
            if hit {
                assert(TreapNode::opt_entries(self.root).dom() =~= old(self)@.dom());
            }
        }
        hit
    }

    /// Look the key up.
    pub fn get(&self, key: &u64) -> (r: Option<&V>)
        requires
            self.wf(),
        ensures
            match r {
                Some(v) => self@.dom().contains(*key) && *v == self@[*key],
                None => !self@.dom().contains(*key),
            },
    {
        TreapNode::get_opt(&self.root, *key)
    }

    /// The number of stored pairs.
    pub fn len(&self) -> (r: usize)
        requires
            self.wf(),
        ensures
            r == self@.dom().len(),
    {
        self.count
    }

    /// Whether no pair is stored.
    pub fn is_empty(&self) -> (r: bool)
        requires
            self.wf(),
        ensures
            r <==> self@ == Map::<u64, V>::empty(),
            r == (self@.dom().len() == 0),
    {
        match &self.root {
            None => {
                proof {
                    assert(self@ =~= Map::<u64, V>::empty());
                    assert(self@.dom() =~= Set::<u64>::empty());
                }
                true
            },
            Some(n) => {
                proof {
                    assert(self@.dom().contains(n.key));
                    assert(self@.dom().remove(n.key).len() == self@.dom().len() - 1);
                    assert(self@ != Map::<u64, V>::empty());
                }
                false
            },
        }
    }

    /// Build a treap in one pass from triples sorted by strictly increasing
    /// key, descending the right spine for each new node.
    pub fn bulk_load(items: Vec<(u64, V, u64)>) -> (t: Self)
        requires
            forall|i: int, j: int|
                0 <= i < j < items@.len() ==> items@[i].0 < items@[j].0,
        ensures
            t.wf(),
            t@ == Self::triples_map(items@),
    {
        let ghost orig = items@;
        let mut items = items;
        let total = items.len();
        proof {
            assert(orig.len() == total);
        }
        let mut rev: Vec<(u64, V, u64)> = Vec::new();
        loop
            invariant
                items@ == orig.take(items@.len() as int),
                items@.len() + rev@.len() == orig.len(),
                forall|j: int| 0 <= j < rev@.len() ==> rev@[j] == orig[orig.len() - 1 - j],
            ensures
                rev@.len() == orig.len(),
                forall|j: int| 0 <= j < rev@.len() ==> rev@[j] == orig[orig.len() - 1 - j],
            decreases items@.len(),
        {
            if items.len() == 0 {
                break;
            }
            proof {
                assert(items@.drop_last() =~= orig.take(items@.len() - 1));
            }
            let x = items.pop().unwrap();
            rev.push(x);
        }
        let mut root: Option<Box<TreapNode<V>>> = None;
        let mut cnt: usize = 0;
        proof {
            assert(rev@.len() == orig.len());
            assert(TreapNode::opt_entries(root) =~= Self::triples_map(orig.take(0)));
            assert(TreapNode::opt_entries(root).dom() =~= Set::<u64>::empty());
        }
        loop
            invariant
                forall|i: int, j: int| 0 <= i < j < orig.len() ==> orig[i].0 < orig[j].0,
                orig.len() <= usize::MAX,
                rev@.len() <= orig.len(),
                forall|j: int| 0 <= j < rev@.len() ==> rev@[j] == orig[orig.len() - 1 - j],
                TreapNode::opt_ordered(root),
                TreapNode::opt_heap(root),
                TreapNode::opt_entries(root) == Self::triples_map(
                    orig.take(orig.len() - rev@.len()),
                ),
                forall|k: u64|
                    TreapNode::opt_entries(root).dom().contains(k) ==> exists|j: int|
                        0 <= j < orig.len() - rev@.len() && orig[j].0 == k,
                TreapNode::opt_entries(root).dom().finite(),
                TreapNode::opt_entries(root).dom().len() == orig.len() - rev@.len(),
                cnt == orig.len() - rev@.len(),
            ensures
                rev@.len() == 0,
                TreapNode::opt_ordered(root),
                TreapNode::opt_heap(root),
                TreapNode::opt_entries(root) == Self::triples_map(
                    orig.take(orig.len() - rev@.len()),
                ),
                TreapNode::opt_entries(root).dom().finite(),
                TreapNode::opt_entries(root).dom().len() == orig.len() - rev@.len(),
                cnt == orig.len() - rev@.len(),
            decreases rev@.len(),
        {
            if rev.len() == 0 {
                break;
            }
            let ghost done = orig.len() - rev@.len();
            let x = rev.pop().unwrap();
            let (k, v, w) = x;
            proof {
                assert(x == orig[done]);
                assert forall|k2: u64|
                    TreapNode::opt_entries(root).dom().contains(k2) implies k2 < k by {
                    let j = choose|j: int| 0 <= j < done && orig[j].0 == k2;
                    assert(orig[j].0 < orig[done].0);
                }
            }
            let built = TreapNode::spine_insert(root, k, v, w);
            root = Some(built);
            cnt = cnt + 1;
            proof {
                let taken = orig.take(done + 1);
                assert(taken.drop_last() =~= orig.take(done));
                assert(taken.last() == orig[done]);
                assert(TreapNode::opt_entries(root) =~= Self::triples_map(taken));
                assert(TreapNode::opt_entries(root).dom() =~= Self::triples_map(
                    orig.take(done),
                ).dom().insert(k));
                assert forall|k2: u64|
                    TreapNode::opt_entries(root).dom().contains(k2) implies exists|j: int|
                        0 <= j < done + 1 && orig[j].0 == k2 by {
                    if k2 == k {
                        assert(orig[done].0 == k2);
                    } else {
                        let j = choose|j: int|
                            0 <= j < done && orig[j].0 == k2;
                        assert(0 <= j < done + 1 && orig[j].0 == k2);
                    }
                }
            }
        }
        let t = Treap { root, count: cnt };
        proof {
            assert(rev@.len() == 0);
            assert(orig.take(orig.len() as int) =~= orig);
        }
        t
    }

    /// Walk the treap and report the first violated invariant, if any.
    pub fn self_validate(&self) -> (r: Result<(), InvariantError>)
        ensures
            r.is_ok() <==> self.shape_ok(),
    {
        if !TreapNode::check_range(&self.root, None, None) {
            return Err(InvariantError::BstOrder);
        }
        if !TreapNode::check_heap(&self.root) {
            return Err(InvariantError::HeapOrder);
        }
        Ok(())
    }

    /// The keys in ascending order.
    pub fn keys_in_order(&self) -> (out: Vec<u64>)
        ensures
            out@ == self.key_seq(),
    {
        let mut out: Vec<u64> = Vec::new();
        TreapNode::push_keys(&self.root, &mut out);
        proof {
            assert(out@ =~= self.key_seq());
        }
        out
    }

    /// BST order, proved of every well-formed treap: the in-order walk is
    /// strictly increasing, and it visits exactly the stored keys, each of
    /// them once.
    pub proof fn lemma_in_order(self)
        requires
            self.wf(),
        ensures
            crate::laws::strictly_increasing(self.key_seq()),
            self.key_seq().to_set() == self@.dom(),
    {
        TreapNode::lemma_walk(self.root);
    }
}

impl Treap<()> {
    /// The weight at the root: the heap's maximum, absent when empty.
    pub fn top(&self) -> (r: Option<u64>)
        requires
            self.wf(),
        ensures
            r == self.spec_top(),
            r is None <==> self@ == Map::<u64, ()>::empty(),
            r is Some ==> forall|k: u64|
                self.weight_map().dom().contains(k) ==> self.weight_map()[k] <= r.unwrap(),
            r is Some ==> self.spec_root_key() is Some && self.weight_map().dom().contains(
                self.spec_root_key().unwrap(),
            ) && self.weight_map()[self.spec_root_key().unwrap()] == r.unwrap(),
    {
        match &self.root {
            None => {
                proof {
                    assert(self@ =~= Map::<u64, ()>::empty());
                }
                None
            },
            Some(n) => {
                proof {
                    assert(self@.dom().contains(n.key));
                    assert(self@ != Map::<u64, ()>::empty());
                    assert(TreapNode::opt_weights_le(self.root, n.weight));
                    TreapNode::lemma_weights_le_map(self.root, n.weight);
                    assert(self.weight_map()[n.key] == n.weight);
                }
                Some(n.weight)
            },
        }
    }

    /// Remove the root, the entry with the greatest weight, and return that
    /// weight; absent when the heap is empty.
    pub fn pop(&mut self) -> (r: Option<u64>)
        requires
            old(self).wf(),
        ensures
            final(self).wf(),
            r == old(self).spec_top(),
            r is None ==> final(self)@ == old(self)@ && final(self).weight_map() == old(
                self,
            ).weight_map(),
            r is Some ==> old(self).spec_root_key() is Some && {
                let k = old(self).spec_root_key().unwrap();
                &&& final(self)@ == old(self)@.remove(k)
                &&& final(self).weight_map() == old(self).weight_map().remove(k)
                &&& old(self).weight_map().dom().contains(k)
                &&& old(self).weight_map()[k] == r.unwrap()
            },
            r is Some ==> forall|k2: u64|
                old(self).weight_map().dom().contains(k2) ==> old(self).weight_map()[k2]
                    <= r.unwrap(),
    {
        let k: u64;
        let w: u64;
        match &self.root {
            None => {
                return None;
            },
            Some(n) => {
                k = n.key;
                w = n.weight;
            },
        }
        proof {
            assert(TreapNode::opt_weights_le(self.root, w));
            TreapNode::lemma_weights_le_map(self.root, w);
            assert(self.weight_map()[k] == w);
            assert(self@.dom().contains(k));
        }
        let _ = self.remove(&k);
        Some(w)
    }

    /// Add an entry under the given weight; a present key is left alone.
    pub fn push(&mut self, key: u64, weight: u64)
        requires
            old(self).wf(),
            old(self)@.dom().len() < usize::MAX,
        ensures
            final(self).wf(),
            final(self)@ == if old(self)@.dom().contains(key) {
                old(self)@
            } else {
                old(self)@.insert(key, ())
            },
            final(self).weight_map() == if old(self)@.dom().contains(key) {
                old(self).weight_map()
            } else {
                old(self).weight_map().insert(key, weight)
            },
    {
        let _ = self.insert_weighted(key, (), weight);
    }
}

impl<V> View for Treap<V> {
    type V = Map<u64, V>;

    /// The abstract contents: a finite map from keys to values.
    closed spec fn view(&self) -> Map<u64, V> {
        TreapNode::opt_entries(self.root)
    }
}

} // verus!
