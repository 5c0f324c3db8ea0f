//! AVL tree: a height-balanced binary search tree. Every node stores the
//! height of its subtree; after each insertion or removal the affected spine
//! is rebuilt through single or double rotations so that the two child
//! heights of every node differ by at most one.

use vstd::prelude::*;

use crate::InvariantError;
use crate::laws::imax;
use vstd::arithmetic::power2::pow2;

verus! {

/// One AVL node: a pair, a stored subtree height, and two subtrees.
pub struct AVLNode<V> {
    key: u64,
    value: V,
    /// Height of this subtree counted from one at a leaf; an absent subtree
    /// counts zero, so this is always one more than the conventional height.
    height: usize,
    left: Option<Box<AVLNode<V>>>,
    right: Option<Box<AVLNode<V>>>,
}

/// The AVL dictionary: an owned root, possibly absent.
pub struct AVL<V> {
    root: Option<Box<AVLNode<V>>>,
}

impl<V> AVLNode<V> {
    /// The key-value pairs stored in an optional subtree.
    pub closed spec fn opt_entries(o: Option<Box<AVLNode<V>>>) -> Map<u64, V>
        decreases o,
    {
        match o {
            None => Map::empty(),
            Some(n) => n.entries(),
        }
    }

    /// The key-value pairs stored in the subtree rooted at this node.
    pub closed spec fn entries(self) -> Map<u64, V>
        decreases self,
    {
        Self::opt_entries(self.left)
            .union_prefer_right(Self::opt_entries(self.right))
            .insert(self.key, self.value)
    }

    /// Search-tree order: left keys below, right keys above, recursively.
    pub closed spec fn ordered(self) -> bool
        decreases self,
    {
        &&& forall|k: u64| Self::opt_entries(self.left).dom().contains(k) ==> k < self.key
        &&& forall|k: u64| Self::opt_entries(self.right).dom().contains(k) ==> k > self.key
        &&& match self.left {
            Some(l) => l.ordered(),
            None => true,
        }
        &&& match self.right {
            Some(r) => r.ordered(),
            None => true,
        }
    }

    /// Search-tree order of an optional subtree.
    pub closed spec fn opt_ordered(o: Option<Box<AVLNode<V>>>) -> bool {
        match o {
            None => true,
            Some(n) => n.ordered(),
        }
    }

    /// Mathematical height: an absent subtree is -1, a leaf 0.
    pub closed spec fn opt_height(o: Option<Box<AVLNode<V>>>) -> int
        decreases o,
    {
        match o {
            None => -1,
            Some(n) => 1 + imax(Self::opt_height(n.left), Self::opt_height(n.right)),
        }
    }

    /// Mathematical height of the subtree rooted at this node.
    pub closed spec fn node_height(self) -> int {
        1 + imax(Self::opt_height(self.left), Self::opt_height(self.right))
    }

    /// The AVL shape invariant: stored heights are one more than the true
    /// height, and the child heights of every node differ by at most one.
    pub closed spec fn avl_ok(self) -> bool
        decreases self,
    {
        &&& self.height == 2 + imax(Self::opt_height(self.left), Self::opt_height(self.right))
        &&& -1 <= Self::opt_height(self.right) - Self::opt_height(self.left) <= 1
        &&& match self.left {
            Some(l) => l.avl_ok(),
            None => true,
        }
        &&& match self.right {
            Some(r) => r.avl_ok(),
            None => true,
        }
    }

    /// The AVL shape invariant of an optional subtree.
    pub closed spec fn opt_avl(o: Option<Box<AVLNode<V>>>) -> bool {
        match o {
            None => true,
            Some(n) => n.avl_ok(),
        }
    }

    /// The number of nodes of an optional subtree.
    pub closed spec fn opt_count(o: Option<Box<AVLNode<V>>>) -> nat
        decreases o,
    {
        match o {
            None => 0,
            Some(n) => 1 + Self::opt_count(n.left) + Self::opt_count(n.right),
        }
    }

    /// The keys met by an in-order walk, left to right.
    pub closed spec fn opt_key_seq(o: Option<Box<AVLNode<V>>>) -> Seq<u64>
        decreases o,
    {
        match o {
            None => Seq::empty(),
            Some(n) => Self::opt_key_seq(n.left) + seq![n.key] + Self::opt_key_seq(n.right),
        }
    }

    /// A height is never below -1, the height of an absent subtree.
    proof fn lemma_height_bounds(o: Option<Box<AVLNode<V>>>)
        ensures
            Self::opt_height(o) >= -1,
        decreases o,
    {
        match o {
            None => {},
            Some(n) => {
                Self::lemma_height_bounds(n.left);
                Self::lemma_height_bounds(n.right);
            },
        }
    }

    /// A tree's height is strictly below its node count.
    proof fn lemma_height_below_count(o: Option<Box<AVLNode<V>>>)
        ensures
            Self::opt_height(o) < Self::opt_count(o),
        decreases o,
    {
        match o {
            None => {},
            Some(n) => {
                Self::lemma_height_below_count(n.left);
                Self::lemma_height_below_count(n.right);
            },
        }
    }

    /// Powers of two never shrink.
    proof fn lemma_pow2_le(a: nat, b: nat)
        requires
            a <= b,
        ensures
            pow2(a) <= pow2(b),
    {
        if a < b {
            vstd::arithmetic::power2::lemma_pow2_strictly_increases(a, b);
        }
    }

    /// A balanced subtree of height `h` holds at least `2^((h+1)/2) - 1`
    /// nodes: the balance rule forbids long thin chains.
    proof fn lemma_balanced_size(o: Option<Box<AVLNode<V>>>)
        requires
            Self::opt_avl(o),
        ensures
            pow2(((Self::opt_height(o) + 1) / 2) as nat) <= Self::opt_count(o) + 1,
        decreases o,
    {
        vstd::arithmetic::power2::lemma2_to64();
        match o {
            None => {
            },
            Some(n) => {
                Self::lemma_height_bounds(n.left);
                Self::lemma_height_bounds(n.right);
                Self::lemma_balanced_size(n.left);
                Self::lemma_balanced_size(n.right);
                let h = Self::opt_height(o);
                let hl = Self::opt_height(n.left);
                let hr = Self::opt_height(n.right);
                if h >= 1 {
                    let et = ((h + 1) / 2) as nat;
                    let el = ((hl + 1) / 2) as nat;
                    let er = ((hr + 1) / 2) as nat;
                    assert(hl >= h - 2 && hr >= h - 2);
                    assert(el >= et - 1 && er >= et - 1);
                    Self::lemma_pow2_le((et - 1) as nat, el);
                    Self::lemma_pow2_le((et - 1) as nat, er);
                    vstd::arithmetic::power2::lemma_pow2_unfold(et);
                }
            },
        }
    }

    /// On an ordered tree the stored pairs are as many as the nodes, and the
    /// key set is finite.
    proof fn lemma_count_entries(o: Option<Box<AVLNode<V>>>)
        requires
            Self::opt_ordered(o),
        ensures
            Self::opt_entries(o).dom().finite(),
            Self::opt_entries(o).dom().len() == Self::opt_count(o),
        decreases o,
    {
        broadcast use vstd::set_lib::lemma_set_disjoint_lens;

        match o {
            None => {
                assert(Self::opt_entries(o).dom() =~= Set::<u64>::empty());
            },
            Some(n) => {
                Self::lemma_count_entries(n.left);
                Self::lemma_count_entries(n.right);
                let dl = Self::opt_entries(n.left).dom();
                let dr = Self::opt_entries(n.right).dom();
                assert(Self::opt_entries(o).dom() =~= (dl + dr).insert(n.key));
                assert(dl.disjoint(dr));
                assert(!(dl + dr).contains(n.key));
            },
        }
    }

    /// Stored height of an optional subtree, read off the root node.
    fn stored_height(o: &Option<Box<AVLNode<V>>>) -> (h: usize)
        requires
            Self::opt_avl(*o),
        ensures
            h == Self::opt_height(*o) + 1,
    {
        match o {
            None => 0,
            Some(n) => n.height,
        }
    }

    /// Build a node over two subtrees whose heights already differ by at
    /// most one, computing the stored height.
    fn join_node(key: u64, value: V, left: Option<Box<AVLNode<V>>>, right: Option<Box<AVLNode<V>>>)
        -> (n: Box<AVLNode<V>>)
        requires
            Self::opt_avl(left),
            Self::opt_avl(right),
            -1 <= Self::opt_height(right) - Self::opt_height(left) <= 1,
            Self::opt_height(left) <= usize::MAX - 2,
            Self::opt_height(right) <= usize::MAX - 2,
        ensures
            n.key == key,
            n.value == value,
            n.left == left,
            n.right == right,
            n.avl_ok(),
            n.node_height() == 1 + imax(Self::opt_height(left), Self::opt_height(right)),
            n.entries() == Self::opt_entries(left).union_prefer_right(
                Self::opt_entries(right),
            ).insert(key, value),
    {
        let hl = Self::stored_height(&left);
        let hr = Self::stored_height(&right);
        let h = 1 + if hl >= hr {
            hl
        } else {
            hr
        };
        Box::new(AVLNode { key, value, height: h, left, right })
    }

    /// Rebuild a node over two subtrees whose heights may differ by two,
    /// restoring balance with a single or double rotation where needed.
    #[verifier::rlimit(60)]
    fn balance(key: u64, value: V, left: Option<Box<AVLNode<V>>>, right: Option<Box<AVLNode<V>>>)
        -> (t: Box<AVLNode<V>>)
        requires
            Self::opt_ordered(left),
            Self::opt_ordered(right),
            Self::opt_avl(left),
            Self::opt_avl(right),
            forall|k: u64| Self::opt_entries(left).dom().contains(k) ==> k < key,
            forall|k: u64| Self::opt_entries(right).dom().contains(k) ==> k > key,
            -2 <= Self::opt_height(right) - Self::opt_height(left) <= 2,
            Self::opt_height(left) <= usize::MAX - 2,
            Self::opt_height(right) <= usize::MAX - 2,
        ensures
            t.ordered(),
            t.avl_ok(),
            t.entries() == Self::opt_entries(left).union_prefer_right(
                Self::opt_entries(right),
            ).insert(key, value),
            imax(Self::opt_height(left), Self::opt_height(right)) <= t.node_height() <= 1 + imax(
                Self::opt_height(left),
                Self::opt_height(right),
            ),
            (-1 <= Self::opt_height(right) - Self::opt_height(left) <= 1) ==> t.node_height() == 1
                + imax(Self::opt_height(left), Self::opt_height(right)),
    {
        let hl = Self::stored_height(&left);
        let hr = Self::stored_height(&right);
        if hr > hl && hr - hl == 2 {
            // The right subtree is two taller: lift it.
            let rn = right.unwrap();
            let AVLNode { key: rk, value: rv, height: _, left: rl, right: rr } = *rn;
            proof {
                assert(rn.ordered());
                assert(rn.avl_ok());
                assert(Self::opt_entries(right) == Self::opt_entries(rl).union_prefer_right(
                    Self::opt_entries(rr),
                ).insert(rk, rv));
                assert(Self::opt_entries(right).dom() =~= Self::opt_entries(rl).dom().union(
                    Self::opt_entries(rr).dom(),
                ).insert(rk));
                assert forall|k: u64| Self::opt_entries(rl).dom().contains(k) implies k > key by {
                    assert(Self::opt_entries(right).dom().contains(k));
                }
                assert forall|k: u64| Self::opt_entries(rr).dom().contains(k) implies k > key by {
                    assert(Self::opt_entries(right).dom().contains(k));
                }
                assert(Self::opt_entries(right).dom().contains(rk));
            }
            let hrl = Self::stored_height(&rl);
            let hrr = Self::stored_height(&rr);
            if hrl <= hrr {
                // Single rotation: the lifted child leans outward.
                let inner = Self::join_node(key, value, left, rl);
                let t = Self::join_node(rk, rv, Some(inner), rr);
                proof {
                    assert(Self::opt_ordered(rl));
                    assert(Self::opt_ordered(rr));
                    assert(inner.ordered());
                    assert(rk > key);
                    assert forall|k: u64|
                        Self::opt_entries(Some(inner)).dom().contains(k) implies k < rk by {
                        assert(Self::opt_entries(Some(inner)).dom() =~= Self::opt_entries(
                            left,
                        ).dom().union(Self::opt_entries(rl).dom()).insert(key));
                    }
                    assert(t.ordered());
                    assert(t.entries() =~= Self::opt_entries(left).union_prefer_right(
                        Self::opt_entries(right),
                    ).insert(key, value));
                }
                t
            } else {
                // Double rotation: the lifted child leans inward, so its own
                // left child becomes the new subtree root.
                let cn = rl.unwrap();
                let AVLNode { key: ck, value: cv, height: _, left: cl, right: cr } = *cn;
                proof {
                    assert(cn.ordered());
                    assert(cn.avl_ok());
                    assert(Self::opt_entries(rl) == Self::opt_entries(cl).union_prefer_right(
                        Self::opt_entries(cr),
                    ).insert(ck, cv));
                    assert(Self::opt_entries(rl).dom() =~= Self::opt_entries(cl).dom().union(
                        Self::opt_entries(cr).dom(),
                    ).insert(ck));
                    assert forall|k: u64| Self::opt_entries(cl).dom().contains(k) implies k > key
                        && k < rk by {
                        assert(Self::opt_entries(rl).dom().contains(k));
                    }
                    assert forall|k: u64| Self::opt_entries(cr).dom().contains(k) implies k > key
                        && k < rk by {
                        assert(Self::opt_entries(rl).dom().contains(k));
                    }
                    assert(Self::opt_entries(rl).dom().contains(ck));
                }
                let a = Self::join_node(key, value, left, cl);
                let b = Self::join_node(rk, rv, cr, rr);
                let t = Self::join_node(ck, cv, Some(a), Some(b));
                proof {
                    assert(Self::opt_ordered(cl));
                    assert(Self::opt_ordered(cr));
                    assert(Self::opt_ordered(rr));
                    assert(ck > key && ck < rk);
                    assert(a.ordered());
                    assert(b.ordered());
                    assert forall|k: u64|
                        Self::opt_entries(Some(a)).dom().contains(k) implies k < ck by {
                        assert(Self::opt_entries(Some(a)).dom() =~= Self::opt_entries(
                            left,
                        ).dom().union(Self::opt_entries(cl).dom()).insert(key));
                    }
                    assert forall|k: u64|
                        Self::opt_entries(Some(b)).dom().contains(k) implies k > ck by {
                        assert(Self::opt_entries(Some(b)).dom() =~= Self::opt_entries(
                            cr,
                        ).dom().union(Self::opt_entries(rr).dom()).insert(rk));
                        if Self::opt_entries(rr).dom().contains(k) {
                            assert(Self::opt_entries(right).dom().contains(k));
                            assert(k > rk);
                        }
                    }
                    assert(t.ordered());
                    assert(t.entries() =~= Self::opt_entries(left).union_prefer_right(
                        Self::opt_entries(right),
                    ).insert(key, value));
                }
                t
            }
        } else if hl > hr && hl - hr == 2 {
            // The left subtree is two taller: mirror image of the above.
            let ln = left.unwrap();
            let AVLNode { key: lk, value: lv, height: _, left: ll, right: lr } = *ln;
            proof {
                assert(ln.ordered());
                assert(ln.avl_ok());
                assert(Self::opt_entries(left) == Self::opt_entries(ll).union_prefer_right(
                    Self::opt_entries(lr),
                ).insert(lk, lv));
                assert(Self::opt_entries(left).dom() =~= Self::opt_entries(ll).dom().union(
                    Self::opt_entries(lr).dom(),
                ).insert(lk));
                assert forall|k: u64| Self::opt_entries(ll).dom().contains(k) implies k < key by {
                    assert(Self::opt_entries(left).dom().contains(k));
                }
                assert forall|k: u64| Self::opt_entries(lr).dom().contains(k) implies k < key by {
                    assert(Self::opt_entries(left).dom().contains(k));
                }
                assert(Self::opt_entries(left).dom().contains(lk));
            }
            let hll = Self::stored_height(&ll);
            let hlr = Self::stored_height(&lr);
            if hlr <= hll {
                let inner = Self::join_node(key, value, lr, right);
                let t = Self::join_node(lk, lv, ll, Some(inner));
                proof {
                    assert(Self::opt_ordered(ll));
                    assert(Self::opt_ordered(lr));
                    assert(inner.ordered());
                    assert(lk < key);
                    assert forall|k: u64|
                        Self::opt_entries(Some(inner)).dom().contains(k) implies k > lk by {
                        assert(Self::opt_entries(Some(inner)).dom() =~= Self::opt_entries(
                            lr,
                        ).dom().union(Self::opt_entries(right).dom()).insert(key));
                        if Self::opt_entries(right).dom().contains(k) {
                            assert(k > key);
                        }
                    }
                    assert(t.ordered());
                    assert(t.entries() =~= Self::opt_entries(left).union_prefer_right(
                        Self::opt_entries(right),
                    ).insert(key, value));
                }
                t
            } else {
                let cn = lr.unwrap();
                let AVLNode { key: ck, value: cv, height: _, left: cl, right: cr } = *cn;
                proof {
                    assert(cn.ordered());
                    assert(cn.avl_ok());
                    assert(Self::opt_entries(lr) == Self::opt_entries(cl).union_prefer_right(
                        Self::opt_entries(cr),
                    ).insert(ck, cv));
                    assert(Self::opt_entries(lr).dom() =~= Self::opt_entries(cl).dom().union(
                        Self::opt_entries(cr).dom(),
                    ).insert(ck));
                    assert forall|k: u64| Self::opt_entries(cl).dom().contains(k) implies k < key
                        && k > lk by {
                        assert(Self::opt_entries(lr).dom().contains(k));
                    }
                    assert forall|k: u64| Self::opt_entries(cr).dom().contains(k) implies k < key
                        && k > lk by {
                        assert(Self::opt_entries(lr).dom().contains(k));
                    }
                    assert(Self::opt_entries(lr).dom().contains(ck));
                }
                let a = Self::join_node(lk, lv, ll, cl);
                let b = Self::join_node(key, value, cr, right);
                let t = Self::join_node(ck, cv, Some(a), Some(b));
                proof {
                    assert(Self::opt_ordered(ll));
                    assert(Self::opt_ordered(cl));
                    assert(Self::opt_ordered(cr));
                    assert(ck < key && ck > lk);
                    assert(a.ordered());
                    assert(b.ordered());
                    assert forall|k: u64|
                        Self::opt_entries(Some(a)).dom().contains(k) implies k < ck by {
                        assert(Self::opt_entries(Some(a)).dom() =~= Self::opt_entries(
                            ll,
                        ).dom().union(Self::opt_entries(cl).dom()).insert(lk));
                        if Self::opt_entries(ll).dom().contains(k) {
                            assert(Self::opt_entries(left).dom().contains(k));
                            assert(k < lk);
                        }
                    }
                    assert forall|k: u64|
                        Self::opt_entries(Some(b)).dom().contains(k) implies k > ck by {
                        assert(Self::opt_entries(Some(b)).dom() =~= Self::opt_entries(
                            cr,
                        ).dom().union(Self::opt_entries(right).dom()).insert(key));
                        if Self::opt_entries(right).dom().contains(k) {
                            assert(k > key);
                        }
                    }
                    assert(t.ordered());
                    assert(t.entries() =~= Self::opt_entries(left).union_prefer_right(
                        Self::opt_entries(right),
                    ).insert(key, value));
                }
                t
            }
        } else {
            // Heights differ by at most one: no rotation.
            let t = Self::join_node(key, value, left, right);
            proof {
                assert(t.entries() =~= Self::opt_entries(left).union_prefer_right(
                    Self::opt_entries(right),
                ).insert(key, value));
                assert(t.ordered());
            }
            t
        }
    }

    fn insert_at(o: Option<Box<AVLNode<V>>>, key: u64, value: V) -> (r: (Box<AVLNode<V>>, bool))
        requires
            Self::opt_ordered(o),
            Self::opt_avl(o),
            Self::opt_height(o) <= usize::MAX - 2,
        ensures
            r.0.ordered(),
            r.0.avl_ok(),
            r.1 == !Self::opt_entries(o).dom().contains(key),
            r.0.entries() == if r.1 {
                Self::opt_entries(o).insert(key, value)
            } else {
                Self::opt_entries(o)
            },
            Self::opt_height(o) <= r.0.node_height(),
            r.0.node_height() <= Self::opt_height(o) + 1,
            !r.1 ==> r.0.node_height() == Self::opt_height(o),
        decreases o,
    {
        match o {
            None => {
                let t = Box::new(AVLNode { key, value, height: 1, left: None, right: None });
                proof {
                    assert(t.entries() =~= Self::opt_entries(o).insert(key, value));
                }
                (t, true)
            },
            Some(n) => {
                let AVLNode { key: nk, value: nv, height: nh, left, right } = *n;
                proof {
                    assert(Self::opt_entries(o) == Self::opt_entries(left).union_prefer_right(
                        Self::opt_entries(right),
                    ).insert(nk, nv));
                    assert(Self::opt_entries(o).dom() =~= Self::opt_entries(left).dom().union(
                        Self::opt_entries(right).dom(),
                    ).insert(nk));
                }
                if key == nk {
                    let t = Box::new(AVLNode { key: nk, value: nv, height: nh, left, right });
                    proof {
                        assert(t == o->Some_0);
                        assert(Self::opt_entries(o).dom().contains(key));
                    }
                    (t, false)
                } else if key < nk {
                    let (nl, added) = Self::insert_at(left, key, value);
                    proof {
                        assert forall|k: u64|
                            Self::opt_entries(Some(nl)).dom().contains(k) implies k < nk by {
                            assert(Self::opt_entries(Some(nl)).dom() =~= if added {
                                Self::opt_entries(left).dom().insert(key)
                            } else {
                                Self::opt_entries(left).dom()
                            });
                        }
                        assert(!Self::opt_entries(right).dom().contains(key));
                    }
                    let t = Self::balance(nk, nv, Some(nl), right);
                    proof {
                        if added {
                            assert(t.entries() =~= Self::opt_entries(o).insert(key, value));
                        } else {
                            assert(t.entries() =~= Self::opt_entries(o));
                        }
                    }
                    (t, added)
                } else {
                    let (nr, added) = Self::insert_at(right, key, value);
                    proof {
                        assert forall|k: u64|
                            Self::opt_entries(Some(nr)).dom().contains(k) implies k > nk by {
                            assert(Self::opt_entries(Some(nr)).dom() =~= if added {
                                Self::opt_entries(right).dom().insert(key)
                            } else {
                                Self::opt_entries(right).dom()
                            });
                        }
                        assert(!Self::opt_entries(left).dom().contains(key));
                    }
                    let t = Self::balance(nk, nv, left, Some(nr));
                    proof {
                        if added {
                            assert(t.entries() =~= Self::opt_entries(o).insert(key, value));
                        } else {
                            assert(t.entries() =~= Self::opt_entries(o));
                        }
                    }
                    (t, added)
                }
            },
        }
    }

    /// Unlink the least pair of a non-empty subtree, rebalancing the spine.
    fn take_min(n: Box<AVLNode<V>>) -> (r: (u64, V, Option<Box<AVLNode<V>>>))
        requires
            n.ordered(),
            n.avl_ok(),
        ensures
            Self::opt_ordered(r.2),
            Self::opt_avl(r.2),
            n.entries().dom().contains(r.0),
            n.entries()[r.0] == r.1,
            Self::opt_entries(r.2) == n.entries().remove(r.0),
            forall|k: u64| n.entries().dom().contains(k) ==> r.0 <= k,
            n.node_height() - 1 <= Self::opt_height(r.2),
            Self::opt_height(r.2) <= n.node_height(),
        decreases *n,
    {
        let AVLNode { key: nk, value: nv, height: _, left, right } = *n;
        proof {
            Self::lemma_height_bounds(left);
            Self::lemma_height_bounds(right);
            assert(n.entries() == Self::opt_entries(left).union_prefer_right(
                Self::opt_entries(right),
            ).insert(nk, nv));
            assert(n.entries().dom() =~= Self::opt_entries(left).dom().union(
                Self::opt_entries(right).dom(),
            ).insert(nk));
        }
        match left {
            None => {
                proof {
                    assert(Self::opt_entries(left) =~= Map::<u64, V>::empty());
                    assert(Self::opt_entries(right) =~= n.entries().remove(nk));
                    assert(Self::opt_height(left) == -1);
                    assert(n.node_height() == 1 + imax(
                        Self::opt_height(left),
                        Self::opt_height(right),
                    ));
                }
                (nk, nv, right)
            },
            Some(l) => {
                let (mk, mv, rest) = Self::take_min(l);
                proof {
                    assert(Self::opt_height(left) == l.node_height());
                    assert(l.entries().dom().contains(mk));
                    assert forall|k: u64|
                        Self::opt_entries(rest).dom().contains(k) implies k < nk by {
                        assert(l.entries().dom().contains(k));
                    }
                    assert(imax(Self::opt_height(left), Self::opt_height(right))
                        <= usize::MAX - 2);
                }
                let t = Self::balance(nk, nv, rest, right);
                proof {
                    assert(Self::opt_height(Some(t)) == t.node_height());
                    assert(n.node_height() == 1 + imax(
                        Self::opt_height(left),
                        Self::opt_height(right),
                    ));
                    assert(t.entries() =~= n.entries().remove(mk));
                    assert forall|k: u64| n.entries().dom().contains(k) implies mk <= k by {
                        if Self::opt_entries(right).dom().contains(k) {
                            assert(mk < nk);
                            assert(k > nk);
                        }
                    }
                }
                (mk, mv, Some(t))
            },
        }
    }

    fn remove_at(o: Option<Box<AVLNode<V>>>, key: u64) -> (r: (Option<Box<AVLNode<V>>>, Option<
        V,
    >))
        requires
            Self::opt_ordered(o),
            Self::opt_avl(o),
        ensures
            Self::opt_ordered(r.0),
            Self::opt_avl(r.0),
            Self::opt_entries(r.0) == Self::opt_entries(o).remove(key),
            r.1 == if Self::opt_entries(o).dom().contains(key) {
                Some(Self::opt_entries(o)[key])
            } else {
                None::<V>
            },
            Self::opt_height(o) - 1 <= Self::opt_height(r.0),
            Self::opt_height(r.0) <= Self::opt_height(o),
        decreases o,
    {
        match o {
            None => {
                proof {
                    assert(Self::opt_entries(o).remove(key) =~= Self::opt_entries(o));
                }
                (None, None)
            },
            Some(n) => {
                let AVLNode { key: nk, value: nv, height: _, left, right } = *n;
                proof {
                    Self::lemma_height_bounds(left);
                    Self::lemma_height_bounds(right);
                    assert(Self::opt_entries(o) == Self::opt_entries(left).union_prefer_right(
                        Self::opt_entries(right),
                    ).insert(nk, nv));
                    assert(Self::opt_entries(o).dom() =~= Self::opt_entries(left).dom().union(
                        Self::opt_entries(right).dom(),
                    ).insert(nk));
                    assert(imax(Self::opt_height(left), Self::opt_height(right))
                        <= usize::MAX - 2);
                    assert(Self::opt_height(o) == 1 + imax(
                        Self::opt_height(left),
                        Self::opt_height(right),
                    ));
                }
                if key < nk {
                    let (nl, v) = Self::remove_at(left, key);
                    proof {
                        assert forall|k: u64|
                            Self::opt_entries(nl).dom().contains(k) implies k < nk by {
                            assert(Self::opt_entries(left).dom().contains(k));
                        }
                        assert(!Self::opt_entries(right).dom().contains(key));
                    }
                    let t = Self::balance(nk, nv, nl, right);
                    proof {
                        assert(Self::opt_height(Some(t)) == t.node_height());
                        assert(t.entries() =~= Self::opt_entries(o).remove(key));
                    }
                    (Some(t), v)
                } else if key > nk {
                    let (nr, v) = Self::remove_at(right, key);
                    proof {
                        assert forall|k: u64|
                            Self::opt_entries(nr).dom().contains(k) implies k > nk by {
                            assert(Self::opt_entries(right).dom().contains(k));
                        }
                        assert(!Self::opt_entries(left).dom().contains(key));
                    }
                    let t = Self::balance(nk, nv, left, nr);
                    proof {
                        assert(Self::opt_height(Some(t)) == t.node_height());
                        assert(t.entries() =~= Self::opt_entries(o).remove(key));
                    }
                    (Some(t), v)
                } else {
                    proof {
                        assert(!Self::opt_entries(left).dom().contains(nk));
                        assert(!Self::opt_entries(right).dom().contains(nk));
                    }
                    if left.is_none() {
                        proof {
                            assert(Self::opt_entries(left) =~= Map::<u64, V>::empty());
                            assert(Self::opt_entries(right) =~= Self::opt_entries(o).remove(nk));
                            assert(Self::opt_height(left) == -1);
                        }
                        (right, Some(nv))
                    } else if right.is_none() {
                        proof {
                            assert(Self::opt_entries(right) =~= Map::<u64, V>::empty());
                            assert(Self::opt_entries(left) =~= Self::opt_entries(o).remove(nk));
                            assert(Self::opt_height(right) == -1);
                        }
                        (left, Some(nv))
                    } else {
                        // Both children present: splice in the in-order
                        // successor, the least pair of the right subtree.
                        let rn = right.unwrap();
                        let (sk, sv, rest) = Self::take_min(rn);
                        proof {
                            assert(Self::opt_height(right) == rn.node_height());
                            assert(Self::opt_entries(right).dom().contains(sk));
                            assert(sk > nk);
                            assert forall|k: u64|
                                Self::opt_entries(rest).dom().contains(k) implies k > sk by {
                                assert(Self::opt_entries(right).dom().contains(k));
                                assert(sk <= k && sk != k);
                            }
                            assert forall|k: u64|
                                Self::opt_entries(left).dom().contains(k) implies k < sk by {
                                assert(k < nk);
                            }
                        }
                        let t = Self::balance(sk, sv, left, rest);
                        proof {
                            assert(Self::opt_height(Some(t)) == t.node_height());
                            assert(t.entries() =~= Self::opt_entries(o).remove(nk));
                        }
                        (Some(t), Some(nv))
                    }
                }
            },
        }
    }

    fn get_opt<'a>(o: &'a Option<Box<AVLNode<V>>>, key: u64) -> (r: Option<&'a V>)
        requires
            Self::opt_ordered(*o),
        ensures
            match r {
                Some(v) => Self::opt_entries(*o).dom().contains(key) && *v == Self::opt_entries(
                    *o,
                )[key],
                None => !Self::opt_entries(*o).dom().contains(key),
            },
        decreases *o,
    {
        match o {
            None => None,
            Some(n) => {
                if key == n.key {
                    Some(&n.value)
                } else if key < n.key {
                    proof {
                        assert(!Self::opt_entries(n.right).dom().contains(key));
                    }
                    Self::get_opt(&n.left, key)
                } else {
                    proof {
                        assert(!Self::opt_entries(n.left).dom().contains(key));
                    }
                    Self::get_opt(&n.right, key)
                }
            },
        }
    }

    fn get_mut_opt<'a>(o: &'a mut Option<Box<AVLNode<V>>>, key: u64) -> (r: Option<
        &'a mut V,
    >)
        requires
            Self::opt_ordered(*old(o)),
            Self::opt_avl(*old(o)),
        ensures
            Self::opt_ordered(*final(o)),
            Self::opt_avl(*final(o)),
            Self::opt_height(*final(o)) == Self::opt_height(*old(o)),
            match r {
                Some(v) => Self::opt_entries(*old(o)).dom().contains(key) && *v
                    == Self::opt_entries(*old(o))[key] && Self::opt_entries(*final(o))
                    == Self::opt_entries(*old(o)).insert(key, *final(v)),
                None => !Self::opt_entries(*old(o)).dom().contains(key) && *final(o) == *old(
                    o,
                ),
            },
        decreases *old(o),
    {
        match o {
            None => None,
            Some(n) => {
                if key == n.key {
                    proof {
                        assert(!Self::opt_entries(n.left).dom().contains(key));
                        assert(!Self::opt_entries(n.right).dom().contains(key));
                    }
                    Some(&mut n.value)
                } else if key < n.key {
                    proof {
                        assert(!Self::opt_entries(n.right).dom().contains(key));
                    }
                    Self::get_mut_opt(&mut n.left, key)
                } else {
                    proof {
                        assert(!Self::opt_entries(n.left).dom().contains(key));
                    }
                    Self::get_mut_opt(&mut n.right, key)
                }
            },
        }
    }

    fn modify_opt(o: &mut Option<Box<AVLNode<V>>>, key: u64, value: V) -> (hit: bool)
        requires
            Self::opt_ordered(*old(o)),
            Self::opt_avl(*old(o)),
        ensures
            Self::opt_ordered(*final(o)),
            Self::opt_avl(*final(o)),
            Self::opt_height(*final(o)) == Self::opt_height(*old(o)),
            hit == Self::opt_entries(*old(o)).dom().contains(key),
            Self::opt_entries(*final(o)) == if hit {
                Self::opt_entries(*old(o)).insert(key, value)
            } else {
                Self::opt_entries(*old(o))
            },
        decreases *old(o),
    {
        match o.take() {
            None => false,
            Some(mut n) => {
                let hit;
                if key == n.key {
                    (&mut *n).value = value;
                    hit = true;
                    proof {
                        assert(!Self::opt_entries(n.left).dom().contains(key));
                        assert(!Self::opt_entries(n.right).dom().contains(key));
                        assert(n.entries() =~= old(o)->Some_0.entries().insert(key, value));
                    }
                } else if key < n.key {
                    hit = Self::modify_opt(&mut (&mut *n).left, key, value);
                    proof {
                        assert(!Self::opt_entries(n.right).dom().contains(key));
                        if hit {
                            assert(n.entries() =~= old(o)->Some_0.entries().insert(key, value));
                        } else {
                            assert(n.entries() =~= old(o)->Some_0.entries());
                        }
                    }
                } else {
                    hit = Self::modify_opt(&mut (&mut *n).right, key, value);
                    proof {
                        assert(!Self::opt_entries(n.left).dom().contains(key));
                        if hit {
                            assert(n.entries() =~= old(o)->Some_0.entries().insert(key, value));
                        } else {
                            assert(n.entries() =~= old(o)->Some_0.entries());
                        }
                    }
                }
                *o = Some(n);
                hit
            },
        }
    }

    /// All keys of the subtree lie strictly inside the given bounds.
    pub closed spec fn opt_bounded(
        o: Option<Box<AVLNode<V>>>,
        lo: Option<u64>,
        hi: Option<u64>,
    ) -> bool {
        forall|k: u64|
            Self::opt_entries(o).dom().contains(k) ==> (match lo {
                Some(l) => l < k,
                None => true,
            } && match hi {
                Some(h) => k < h,
                None => true,
            })
    }

    /// Check search-tree order within an open interval, each bound optional.
    fn check_range(o: &Option<Box<AVLNode<V>>>, lo: Option<u64>, hi: Option<u64>) -> (r: bool)
        ensures
            r == (Self::opt_ordered(*o) && Self::opt_bounded(*o, lo, hi)),
        decreases *o,
    {
        match o {
            None => {
                proof {
                    assert(Self::opt_entries(*o).dom() =~= Set::<u64>::empty());
                }
                true
            },
            Some(n) => {
                let lo_ok = match lo {
                    Some(l) => l < n.key,
                    None => true,
                };
                let hi_ok = match hi {
                    Some(h) => n.key < h,
                    None => true,
                };
                if !lo_ok || !hi_ok {
                    proof {
                        assert(Self::opt_entries(*o).dom().contains(n.key));
                    }
                    false
                } else {
                    let left_ok = Self::check_range(&n.left, lo, Some(n.key));
                    let right_ok = Self::check_range(&n.right, Some(n.key), hi);
                    proof {
                        assert(Self::opt_entries(*o).dom() =~= Self::opt_entries(
                            n.left,
                        ).dom().union(Self::opt_entries(n.right).dom()).insert(n.key));
                        if left_ok && right_ok {
                            assert(forall|k: u64|
                                Self::opt_entries(n.left).dom().contains(k) ==> k < n.key);
                            assert(forall|k: u64|
                                Self::opt_entries(n.right).dom().contains(k) ==> k > n.key);
                            assert(n.ordered());
                            assert(Self::opt_bounded(*o, lo, hi));
                        } else {
                            assert(!(Self::opt_ordered(*o) && Self::opt_bounded(*o, lo, hi)))
                                by {
                                if Self::opt_ordered(*o) && Self::opt_bounded(*o, lo, hi) {
                                    assert forall|k: u64|
                                        Self::opt_entries(n.left).dom().contains(k) implies (
                                    match lo {
                                        Some(l) => l < k,
                                        None => true,
                                    } && k < n.key) by {
                                        assert(Self::opt_entries(*o).dom().contains(k));
                                    }
                                    assert(Self::opt_bounded(n.left, lo, Some(n.key)));
                                    assert forall|k: u64|
                                        Self::opt_entries(n.right).dom().contains(k) implies (
                                    n.key < k && match hi {
                                        Some(h) => k < h,
                                        None => true,
                                    }) by {
                                        assert(Self::opt_entries(*o).dom().contains(k));
                                    }
                                    assert(Self::opt_bounded(n.right, Some(n.key), hi));
                                    assert(false);
                                }
                            }
                        }
                    }
                    left_ok && right_ok
                }
            },
        }
    }

    /// Check stored heights and balance factors against the AVL rule.
    fn check_shape(o: &Option<Box<AVLNode<V>>>) -> (r: Result<(), InvariantError>)
        ensures
            r.is_ok() <==> Self::opt_avl(*o),
        decreases *o,
    {
        match o {
            None => Ok(()),
            Some(n) => {
                Self::check_shape(&n.left)?;
                Self::check_shape(&n.right)?;
                let hl = match &n.left {
                    None => 0,
                    Some(l) => l.height,
                };
                let hr = match &n.right {
                    None => 0,
                    Some(r) => r.height,
                };
                if hl >= hr {
                    if hl - hr > 1 {
                        return Err(InvariantError::AvlBalance);
                    }
                } else {
                    if hr - hl > 1 {
                        return Err(InvariantError::AvlBalance);
                    }
                }
                let mx = if hl >= hr {
                    hl
                } else {
                    hr
                };
                if n.height < 1 || n.height - 1 != mx {
                    return Err(InvariantError::AvlHeight);
                }
                Ok(())
            },
        }
    }

    /// Push the subtree's keys, in order, onto the end of a vector.
    fn push_keys(o: &Option<Box<AVLNode<V>>>, out: &mut Vec<u64>)
        ensures
            final(out)@ == old(out)@ + Self::opt_key_seq(*o),
        decreases *o,
    {
        match o {
            None => {
                proof {
                    assert(out@ =~= old(out)@ + Self::opt_key_seq(*o));
                }
            },
            Some(n) => {
                Self::push_keys(&n.left, out);
                out.push(n.key);
                Self::push_keys(&n.right, out);
                proof {
                    assert(out@ =~= old(out)@ + Self::opt_key_seq(*o));
                }
            },
        }
    }

    /// An ordered walk visits strictly increasing keys: exactly the key set,
    /// each key once.
    proof fn lemma_walk(o: Option<Box<AVLNode<V>>>)
        requires
            Self::opt_ordered(o),
        ensures
            crate::laws::strictly_increasing(Self::opt_key_seq(o)),
            Self::opt_key_seq(o).to_set() =~= Self::opt_entries(o).dom(),
        decreases o,
    {
        match o {
            None => {
                assert(Self::opt_key_seq(o).to_set() =~= Self::opt_entries(o).dom()) by {
                    assert(forall|k: u64| !Self::opt_key_seq(o).contains(k));
                    assert(Self::opt_entries(o).dom() =~= Set::<u64>::empty());
                }
            },
            Some(n) => {
                Self::lemma_walk(n.left);
                Self::lemma_walk(n.right);
                let l = Self::opt_key_seq(n.left);
                let r = Self::opt_key_seq(n.right);
                let s = Self::opt_key_seq(o);
                let ll = l.len() as int;
                assert(s == l + seq![n.key] + r);
                assert(Self::opt_entries(o).dom() =~= Self::opt_entries(n.left).dom().union(
                    Self::opt_entries(n.right).dom(),
                ).insert(n.key));
                assert forall|k: u64| s.contains(k) implies Self::opt_entries(o).dom().contains(
                    k,
                ) by {
                    let i = choose|i: int| 0 <= i < s.len() && s[i] == k;
                    if i < ll {
                        assert(l[i] == k);
                        assert(l.contains(k));
                        assert(l.to_set().contains(k));
                    } else if i == ll {
                        assert(k == n.key);
                    } else {
                        assert(r[i - ll - 1] == k);
                        assert(r.contains(k));
                        assert(r.to_set().contains(k));
                    }
                }
                assert forall|k: u64| Self::opt_entries(o).dom().contains(k) implies s.contains(
                    k,
                ) by {
                    if Self::opt_entries(n.left).dom().contains(k) {
                        assert(l.to_set().contains(k));
                        let i = choose|i: int| 0 <= i < l.len() && l[i] == k;
                        assert(s[i] == k);
                    } else if k == n.key {
                        assert(s[ll] == k);
                    } else {
                        assert(r.to_set().contains(k));
                        let i = choose|i: int| 0 <= i < r.len() && r[i] == k;
                        assert(s[ll + 1 + i] == k);
                    }
                }
                assert(s.to_set() =~= Self::opt_entries(o).dom());
                assert forall|i: int, j: int| 0 <= i < j < s.len() implies s[i] < s[j] by {
                    if i < ll {
                        assert(s[i] == l[i]);
                        assert(l.contains(l[i]));
                        assert(l.to_set().contains(l[i]));
                    }
                    if j > ll {
                        assert(s[j] == r[j - ll - 1]);
                        assert(r.contains(r[j - ll - 1]));
                        assert(r.to_set().contains(r[j - ll - 1]));
                    }
                    if i == ll {
                        assert(s[i] == n.key);
                    }
                    if j == ll {
                        assert(s[j] == n.key);
                    }
                }
            },
        }
    }

    /// A fresh leaf node holding one pair.
    pub fn new(key: u64, value: V) -> (n: Self)
        ensures
            n.ordered(),
            n.avl_ok(),
            n.entries() == Map::<u64, V>::empty().insert(key, value),
    {
        let n = AVLNode { key, value, height: 1, left: None, right: None };
        proof {
            assert(n.entries() =~= Map::<u64, V>::empty().insert(key, value));
        }
        n
    }

    /// Walk this subtree and report the first violated invariant, if any.
    pub fn self_validate(&self) -> (r: Result<(), InvariantError>)
        ensures
            r.is_ok() <==> (self.ordered() && self.avl_ok()),
    {
        if !Self::check_range(&self.left, None, Some(self.key)) {
            return Err(InvariantError::BstOrder);
        }
        if !Self::check_range(&self.right, Some(self.key), None) {
            return Err(InvariantError::BstOrder);
        }
        Self::check_shape(&self.left)?;
        Self::check_shape(&self.right)?;
        let hl = match &self.left {
            None => 0,
            Some(l) => l.height,
        };
        let hr = match &self.right {
            None => 0,
            Some(r) => r.height,
        };
        if hl >= hr {
            if hl - hr > 1 {
                return Err(InvariantError::AvlBalance);
            }
        } else {
            if hr - hl > 1 {
                return Err(InvariantError::AvlBalance);
            }
        }
        let mx = if hl >= hr {
            hl
        } else {
            hr
        };
        if self.height < 1 || self.height - 1 != mx {
            return Err(InvariantError::AvlHeight);
        }
        Ok(())
    }
}

impl<V> AVL<V> {
    /// Structural well-formedness: search-tree order and the AVL height
    /// invariant together.
    pub closed spec fn wf(self) -> bool {
        AVLNode::opt_ordered(self.root) && AVLNode::opt_avl(self.root)
    }

    /// The keys of an in-order walk of the whole tree.
    pub closed spec fn key_seq(self) -> Seq<u64> {
        AVLNode::opt_key_seq(self.root)
    }

    /// The height of the tree: -1 when empty, 0 for a single node.
    pub closed spec fn height_of(self) -> int {
        AVLNode::opt_height(self.root)
    }

    /// An empty tree.
    pub fn new() -> (t: Self)
        ensures
            t.wf(),
            t@ == Map::<u64, V>::empty(),
    {
        AVL { root: None }
    }

    /// Add `key -> value` unless the key is already present; report whether
    /// the pair was added. A present key keeps its old value.
    pub fn insert(&mut self, key: u64, value: V) -> (added: bool)
        requires
            old(self).wf(),
            old(self)@.dom().len() < usize::MAX,
        ensures
            final(self).wf(),
            added == !old(self)@.dom().contains(key),
            final(self)@ == if added {
                old(self)@.insert(key, value)
            } else {
                old(self)@
            },
    {
        proof {
            AVLNode::lemma_count_entries(self.root);
            AVLNode::lemma_height_below_count(self.root);
        }
        let root = self.root.take();
        let (t, added) = AVLNode::insert_at(root, key, value);
        self.root = Some(t);
        added
    }

    /// Look the key up.
    pub fn get(&self, key: &u64) -> (r: Option<&V>)
        requires
            self.wf(),
        ensures
            match r {
                Some(v) => self@.dom().contains(*key) && *v == self@[*key],
                None => !self@.dom().contains(*key),
            },
    {
        AVLNode::get_opt(&self.root, *key)
    }

    /// Replace the value under a present key; report whether it was present.
    pub fn modify(&mut self, key: &u64, value: V) -> (hit: bool)
        requires
            old(self).wf(),
        ensures
            final(self).wf(),
            hit == old(self)@.dom().contains(*key),
            final(self)@ == if hit {
                old(self)@.insert(*key, value)
            } else {
                old(self)@
            },
    {
        AVLNode::modify_opt(&mut self.root, *key, value)
    }

    /// Borrow the value under the key mutably; what the caller writes
    /// through the borrow is what the key maps to afterwards.
    pub fn get_mut<'a>(&'a mut self, key: &u64) -> (r: Option<&'a mut V>)
        requires
            old(self).wf(),
        ensures
            final(self).wf(),
            match r {
                Some(v) => old(self)@.dom().contains(*key) && *v == old(self)@[*key]
                    && final(self)@ == old(self)@.insert(*key, *final(v)),
                None => !old(self)@.dom().contains(*key) && final(self)@ == old(self)@,
            },
    {
        AVLNode::get_mut_opt(&mut self.root, *key)
    }

    /// Take the pair under the key out of the tree and return its value.
    pub fn remove(&mut self, key: &u64) -> (r: Option<V>)
        requires
            old(self).wf(),
        ensures
            final(self).wf(),
            final(self)@ == old(self)@.remove(*key),
            r == if old(self)@.dom().contains(*key) {
                Some(old(self)@[*key])
            } else {
                None::<V>
            },
    {
        let root = self.root.take();
        let (t, r) = AVLNode::remove_at(root, *key);
        self.root = t;
        r
    }

    /// Walk the tree and report the first violated invariant, if any.
    pub fn self_validate(&self) -> (r: Result<(), InvariantError>)
        ensures
            r.is_ok() <==> self.wf(),
    {
        if !AVLNode::check_range(&self.root, None, None) {
            return Err(InvariantError::BstOrder);
        }
        AVLNode::check_shape(&self.root)
    }

    /// The height of the tree, absent when the tree is empty.
    pub fn height(&self) -> (h: Option<usize>)
        requires
            self.wf(),
        ensures
            h.is_none() <==> self.height_of() == -1,
            h.is_some() ==> h.unwrap() == self.height_of(),
    {
        let h = AVLNode::stored_height(&self.root);
        if h == 0 {
            None
        } else {
            Some(h - 1)
        }
    }

    /// The keys in ascending order.
    pub fn keys_in_order(&self) -> (out: Vec<u64>)
        ensures
            out@ == self.key_seq(),
    {
        let mut out: Vec<u64> = Vec::new();
        AVLNode::push_keys(&self.root, &mut out);
        proof {
            assert(out@ =~= self.key_seq());
        }
        out
    }

    /// BST order, proved of every well-formed tree: the in-order walk is
    /// strictly increasing, and it visits exactly the stored keys, each of
    /// them once.
    pub proof fn lemma_in_order(self)
        requires
            self.wf(),
        ensures
            crate::laws::strictly_increasing(self.key_seq()),
            self.key_seq().to_set() == self@.dom(),
    {
        AVLNode::lemma_walk(self.root);
    }

    /// The balance rule keeps the tree shallow: a tree of height `h` holds
    /// at least `2^((h+1)/2) - 1` pairs, so the height stays logarithmic in
    /// the number of pairs however the keys arrive.
    pub proof fn lemma_height_logarithmic(self)
        requires
            self.wf(),
        ensures
            pow2(((self.height_of() + 1) / 2) as nat) <= self@.dom().len() + 1,
    {
        AVLNode::lemma_balanced_size(self.root);
        AVLNode::lemma_count_entries(self.root);
    }
}

impl<V> View for AVL<V> {
    type V = Map<u64, V>;

    /// The abstract contents: a finite map from keys to values.
    closed spec fn view(&self) -> Map<u64, V> {
        AVLNode::opt_entries(self.root)
    }
}

} // verus!
