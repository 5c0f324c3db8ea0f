//! Red-black tree: a colour-balanced binary search tree. Every node is Red
//! or Black; the root is Black, no Red node has a Red child, and every
//! root-to-empty path crosses the same number of Black nodes. Insertion
//! recolours and rotates bottom-up out of the recursion; removal rebalances
//! with the classical double-black repair cases.

use vstd::prelude::*;

use crate::InvariantError;
use crate::laws::imax;
use vstd::arithmetic::power2::pow2;

verus! {

/// The colour of a red-black node. An absent child counts Black.
#[derive(Clone, Copy, PartialEq, Eq, Structural, Debug)]
pub enum Color {
    Red,
    Black,
}

/// One red-black node: a pair, a colour, and two subtrees.
pub struct RBNode<V> {
    color: Color,
    key: u64,
    value: V,
    left: Option<Box<RBNode<V>>>,
    right: Option<Box<RBNode<V>>>,
}

/// The red-black dictionary: an owned root, possibly absent.
pub struct RB<V> {
    root: Option<Box<RBNode<V>>>,
}

impl<V> RBNode<V> {
    /// The key-value pairs stored in an optional subtree.
    pub closed spec fn opt_entries(o: Option<Box<RBNode<V>>>) -> Map<u64, V>
        decreases o,
    {
        match o {
            None => Map::empty(),
            Some(n) => n.entries(),
        }
    }

    /// The key-value pairs stored in the subtree rooted at this node.
    pub closed spec fn entries(self) -> Map<u64, V>
        decreases self,
    {
        Self::opt_entries(self.left)
            .union_prefer_right(Self::opt_entries(self.right))
            .insert(self.key, self.value)
    }

    /// Search-tree order: left keys below, right keys above, recursively.
    pub closed spec fn ordered(self) -> bool
        decreases self,
    {
        &&& forall|k: u64| Self::opt_entries(self.left).dom().contains(k) ==> k < self.key
        &&& forall|k: u64| Self::opt_entries(self.right).dom().contains(k) ==> k > self.key
        &&& match self.left {
            Some(l) => l.ordered(),
            None => true,
        }
        &&& match self.right {
            Some(r) => r.ordered(),
            None => true,
        }
    }

    /// Search-tree order of an optional subtree.
    pub closed spec fn opt_ordered(o: Option<Box<RBNode<V>>>) -> bool {
        match o {
            None => true,
            Some(n) => n.ordered(),
        }
    }

    /// The colour of this node.
    pub closed spec fn spec_color(self) -> Color {
        self.color
    }

    /// The colour of an optional subtree's root; an absent one is Black.
    pub closed spec fn color_of(o: Option<Box<RBNode<V>>>) -> Color {
        match o {
            None => Color::Black,
            Some(n) => n.color,
        }
    }

    /// Both subtrees are free of Red-Red violations; the node's own colour
    /// makes no demand. This is the state a repair step accepts.
    pub closed spec fn kids_ok(self) -> bool {
        Self::opt_colors_ok(self.left) && Self::opt_colors_ok(self.right)
    }

    /// No Red node anywhere below has a Red child, the node included.
    pub closed spec fn colors_ok(self) -> bool
        decreases self,
    {
        &&& self.color == Color::Red ==> Self::color_of(self.left) == Color::Black
            && Self::color_of(self.right) == Color::Black
        &&& match self.left {
            Some(l) => l.colors_ok(),
            None => true,
        }
        &&& match self.right {
            Some(r) => r.colors_ok(),
            None => true,
        }
    }

    /// Red-Red freedom of an optional subtree.
    pub closed spec fn opt_colors_ok(o: Option<Box<RBNode<V>>>) -> bool {
        match o {
            None => true,
            Some(n) => n.colors_ok(),
        }
    }

    /// Red-Red freedom except possibly at the root itself.
    pub closed spec fn opt_kids_ok(o: Option<Box<RBNode<V>>>) -> bool {
        match o {
            None => true,
            Some(n) => n.kids_ok(),
        }
    }

    /// The number of Black nodes on the path to the leftmost empty child;
    /// under `bh_ok` every root-to-empty path crosses this many.
    pub closed spec fn bh(o: Option<Box<RBNode<V>>>) -> nat
        decreases o,
    {
        match o {
            None => 0,
            Some(n) => Self::bh(n.left) + if n.color == Color::Black {
                1nat
            } else {
                0nat
            },
        }
    }

    /// Equal Black counts towards every empty child, recursively.
    pub closed spec fn bh_ok(o: Option<Box<RBNode<V>>>) -> bool
        decreases o,
    {
        match o {
            None => true,
            Some(n) => Self::bh_ok(n.left) && Self::bh_ok(n.right) && Self::bh(n.left)
                == Self::bh(n.right),
        }
    }

    /// The keys met by an in-order walk, left to right.
    pub closed spec fn opt_key_seq(o: Option<Box<RBNode<V>>>) -> Seq<u64>
        decreases o,
    {
        match o {
            None => Seq::empty(),
            Some(n) => Self::opt_key_seq(n.left) + seq![n.key] + Self::opt_key_seq(n.right),
        }
    }

    /// The number of nodes of an optional subtree.
    pub closed spec fn opt_count(o: Option<Box<RBNode<V>>>) -> nat
        decreases o,
    {
        match o {
            None => 0,
            Some(n) => 1 + Self::opt_count(n.left) + Self::opt_count(n.right),
        }
    }

    /// Mathematical height: an absent subtree is -1, a leaf 0.
    pub closed spec fn opt_height(o: Option<Box<RBNode<V>>>) -> int
        decreases o,
    {
        match o {
            None => -1,
            Some(n) => 1 + imax(Self::opt_height(n.left), Self::opt_height(n.right)),
        }
    }

    /// A fresh node holding one pair. New nodes enter a tree Red.
    pub fn new(key: u64, value: V) -> (n: Self)
        ensures
            n.ordered(),
            n.kids_ok(),
            n.spec_color() == Color::Red,
            n.entries() == Map::<u64, V>::empty().insert(key, value),
    {
        let n = RBNode { color: Color::Red, key, value, left: None, right: None };
        proof {
            assert(n.entries() =~= Map::<u64, V>::empty().insert(key, value));
        }
        n
    }

    /// Rebuild a node over a left subtree that may carry a Red-Red
    /// violation at its top, repairing it with a rotation and recolouring.
    fn bali_l(l: Box<RBNode<V>>, key: u64, value: V, r: Option<Box<RBNode<V>>>) -> (t: Box<
        RBNode<V>,
    >)
        requires
            l.ordered(),
            Self::opt_ordered(r),
            forall|k: u64| l.entries().dom().contains(k) ==> k < key,
            forall|k: u64| Self::opt_entries(r).dom().contains(k) ==> k > key,
            l.kids_ok(),
            Self::opt_colors_ok(r),
            Self::bh_ok(Some(l)),
            Self::bh_ok(r),
            Self::bh(Some(l)) == Self::bh(r),
        ensures
            t.ordered(),
            t.colors_ok(),
            t.entries() == l.entries().union_prefer_right(Self::opt_entries(r)).insert(
                key,
                value,
            ),
            Self::bh(Some(t)) == Self::bh(Some(l)) + 1,
            Self::bh_ok(Some(t)),
    {
        let red_red_left = l.color == Color::Red && match &l.left {
            Some(ll) => ll.color == Color::Red,
            None => false,
        };
        let red_red_right = l.color == Color::Red && match &l.right {
            Some(lr) => lr.color == Color::Red,
            None => false,
        };
        if red_red_left {
            let RBNode { color: _, key: lk, value: lv, left: lleft, right: lright } = *l;
            let ll = lleft.unwrap();
            let RBNode { color: _, key: llk, value: llv, left: a, right: b } = *ll;
            proof {
                assert(l.entries() == Self::opt_entries(l.left).union_prefer_right(
                    Self::opt_entries(l.right),
                ).insert(lk, lv));
                assert(l.entries().dom() =~= Self::opt_entries(l.left).dom().union(
                    Self::opt_entries(l.right).dom(),
                ).insert(lk));
                assert(ll.entries() == Self::opt_entries(a).union_prefer_right(
                    Self::opt_entries(b),
                ).insert(llk, llv));
                assert(ll.entries().dom() =~= Self::opt_entries(a).dom().union(
                    Self::opt_entries(b).dom(),
                ).insert(llk));
                assert(ll.ordered());
                assert(ll.colors_ok());
                assert(Self::opt_ordered(a) && Self::opt_ordered(b));
                assert(Self::opt_colors_ok(a) && Self::opt_colors_ok(b));
                assert(Self::opt_ordered(lright));
                assert(Self::opt_colors_ok(lright));
                assert(Self::bh_ok(Some(ll)));
                assert(Self::bh(Some(l)) == Self::bh(lleft));
                assert(Self::bh(Some(ll)) == Self::bh(a));
                assert forall|k: u64|
                    Self::opt_entries(a).dom().contains(k) implies k < llk by {
                    assert(ll.entries().dom().contains(k));
                }
                assert forall|k: u64|
                    Self::opt_entries(b).dom().contains(k) implies llk < k && k < lk by {
                    assert(ll.entries().dom().contains(k));
                    assert(l.entries().dom().contains(k));
                }
                assert forall|k: u64|
                    Self::opt_entries(lright).dom().contains(k) implies lk < k && k < key by {
                    assert(l.entries().dom().contains(k));
                }
                assert(ll.entries().dom().contains(llk));
                assert(Self::opt_entries(l.left).dom().contains(llk));
                assert(l.entries().dom().contains(lk));
                assert(llk < lk && lk < key);
            }
            let nl = Box::new(RBNode { color: Color::Black, key: llk, value: llv, left: a, right: b });
            let nr = Box::new(
                RBNode { color: Color::Black, key, value, left: lright, right: r },
            );
            let t = Box::new(
                RBNode {
                    color: Color::Red,
                    key: lk,
                    value: lv,
                    left: Some(nl),
                    right: Some(nr),
                },
            );
            proof {
                assert(nl.entries() == Self::opt_entries(a).union_prefer_right(
                    Self::opt_entries(b),
                ).insert(llk, llv));
                assert(nr.entries() == Self::opt_entries(lright).union_prefer_right(
                    Self::opt_entries(r),
                ).insert(key, value));
                assert(nl.ordered());
                assert(nr.ordered());
                assert(nl.colors_ok());
                assert(nr.colors_ok());
                assert forall|k: u64|
                    Self::opt_entries(Some(nl)).dom().contains(k) implies k < lk by {
                    assert(nl.entries().dom() =~= Self::opt_entries(a).dom().union(
                        Self::opt_entries(b).dom(),
                    ).insert(llk));
                }
                assert forall|k: u64|
                    Self::opt_entries(Some(nr)).dom().contains(k) implies k > lk by {
                    assert(nr.entries().dom() =~= Self::opt_entries(lright).dom().union(
                        Self::opt_entries(r).dom(),
                    ).insert(key));
                    if Self::opt_entries(r).dom().contains(k) {
                        assert(k > key);
                    }
                }
                assert(t.ordered());
                assert(t.colors_ok());
                assert(t.entries() =~= l.entries().union_prefer_right(
                    Self::opt_entries(r),
                ).insert(key, value));
                assert(Self::bh(Some(nl)) == Self::bh(a) + 1);
                assert(Self::bh(Some(nr)) == Self::bh(lright) + 1);
                assert(Self::bh(Some(t)) == Self::bh(Some(nl)));
                assert(Self::bh(Some(l)) == Self::bh(lleft));
                assert(Self::bh(Some(ll)) == Self::bh(a));
                assert(Self::bh_ok(Some(nl)));
                assert(Self::bh_ok(Some(nr)));
                assert(Self::bh_ok(Some(t)));
            }
            t
        } else if red_red_right {
            let RBNode { color: _, key: lk, value: lv, left: lleft, right: lright } = *l;
            let lr = lright.unwrap();
            let RBNode { color: _, key: lrk, value: lrv, left: b, right: c } = *lr;
            proof {
                assert(l.entries() == Self::opt_entries(l.left).union_prefer_right(
                    Self::opt_entries(l.right),
                ).insert(lk, lv));
                assert(l.entries().dom() =~= Self::opt_entries(l.left).dom().union(
                    Self::opt_entries(l.right).dom(),
                ).insert(lk));
                assert(lr.entries() == Self::opt_entries(b).union_prefer_right(
                    Self::opt_entries(c),
                ).insert(lrk, lrv));
                assert(lr.entries().dom() =~= Self::opt_entries(b).dom().union(
                    Self::opt_entries(c).dom(),
                ).insert(lrk));
                assert(lr.ordered());
                assert(lr.colors_ok());
                assert(Self::opt_ordered(b) && Self::opt_ordered(c));
                assert(Self::opt_colors_ok(b) && Self::opt_colors_ok(c));
                assert(Self::opt_ordered(lleft));
                assert(Self::opt_colors_ok(lleft));
                assert(Self::bh_ok(Some(lr)));
                assert(Self::bh(Some(l)) == Self::bh(lleft));
                assert(Self::bh(Some(lr)) == Self::bh(b));
                assert forall|k: u64|
                    Self::opt_entries(b).dom().contains(k) implies lk < k && k < lrk by {
                    assert(lr.entries().dom().contains(k));
                    assert(l.entries().dom().contains(k));
                }
                assert forall|k: u64|
                    Self::opt_entries(c).dom().contains(k) implies lrk < k && k < key by {
                    assert(lr.entries().dom().contains(k));
                    assert(l.entries().dom().contains(k));
                }
                assert forall|k: u64|
                    Self::opt_entries(lleft).dom().contains(k) implies k < lk by {
                    assert(l.entries().dom().contains(k));
                }
                assert(lr.entries().dom().contains(lrk));
                assert(Self::opt_entries(l.right).dom().contains(lrk));
                assert(l.entries().dom().contains(lk));
                assert(l.entries().dom().contains(lrk));
                assert(lk < lrk && lrk < key);
            }
            let nl = Box::new(
                RBNode { color: Color::Black, key: lk, value: lv, left: lleft, right: b },
            );
            let nr = Box::new(RBNode { color: Color::Black, key, value, left: c, right: r });
            let t = Box::new(
                RBNode {
                    color: Color::Red,
                    key: lrk,
                    value: lrv,
                    left: Some(nl),
                    right: Some(nr),
                },
            );
            proof {
                assert(nl.entries() == Self::opt_entries(lleft).union_prefer_right(
                    Self::opt_entries(b),
                ).insert(lk, lv));
                assert(nr.entries() == Self::opt_entries(c).union_prefer_right(
                    Self::opt_entries(r),
                ).insert(key, value));
                assert(nl.ordered());
                assert(nr.ordered());
                assert(nl.colors_ok());
                assert(nr.colors_ok());
                assert forall|k: u64|
                    Self::opt_entries(Some(nl)).dom().contains(k) implies k < lrk by {
                    assert(nl.entries().dom() =~= Self::opt_entries(lleft).dom().union(
                        Self::opt_entries(b).dom(),
                    ).insert(lk));
                    if Self::opt_entries(lleft).dom().contains(k) {
                        assert(k < lk);
                    }
                }
                assert forall|k: u64|
                    Self::opt_entries(Some(nr)).dom().contains(k) implies k > lrk by {
                    assert(nr.entries().dom() =~= Self::opt_entries(c).dom().union(
                        Self::opt_entries(r).dom(),
                    ).insert(key));
                    if Self::opt_entries(r).dom().contains(k) {
                        assert(k > key);
                    }
                }
                assert(t.ordered());
                assert(t.colors_ok());
                assert(t.entries() =~= l.entries().union_prefer_right(
                    Self::opt_entries(r),
                ).insert(key, value));
                assert(Self::bh(Some(nl)) == Self::bh(lleft) + 1);
                assert(Self::bh(Some(nr)) == Self::bh(c) + 1);
                assert(Self::bh(Some(t)) == Self::bh(Some(nl)));
                assert(Self::bh(Some(l)) == Self::bh(lleft));
                assert(Self::bh(Some(lr)) == Self::bh(b));
                assert(Self::bh_ok(Some(nl)));
                assert(Self::bh_ok(Some(nr)));
                assert(Self::bh_ok(Some(t)));
            }
            t
        } else {
            let t = Box::new(RBNode { color: Color::Black, key, value, left: Some(l), right: r });
            proof {
                assert(l.colors_ok());
                assert forall|k: u64|
                    Self::opt_entries(Some(l)).dom().contains(k) implies k < key by {
                    assert(l.entries().dom().contains(k));
                }
                assert(t.ordered());
                assert(t.colors_ok());
                assert(t.entries() =~= l.entries().union_prefer_right(
                    Self::opt_entries(r),
                ).insert(key, value));
                assert(Self::bh(Some(t)) == Self::bh(Some(l)) + 1);
                assert(Self::bh_ok(Some(t)));
            }
            t
        }
    }

    /// Mirror image of `bali_l`: repair a possible Red-Red violation at the
    /// top of the right subtree.
    fn bali_r(l: Option<Box<RBNode<V>>>, key: u64, value: V, r: Box<RBNode<V>>) -> (t: Box<
        RBNode<V>,
    >)
        requires
            Self::opt_ordered(l),
            r.ordered(),
            forall|k: u64| Self::opt_entries(l).dom().contains(k) ==> k < key,
            forall|k: u64| r.entries().dom().contains(k) ==> k > key,
            Self::opt_colors_ok(l),
            r.kids_ok(),
            Self::bh_ok(l),
            Self::bh_ok(Some(r)),
            Self::bh(l) == Self::bh(Some(r)),
        ensures
            t.ordered(),
            t.colors_ok(),
            t.entries() == Self::opt_entries(l).union_prefer_right(r.entries()).insert(
                key,
                value,
            ),
            Self::bh(Some(t)) == Self::bh(l) + 1,
            Self::bh_ok(Some(t)),
    {
        let red_red_left = r.color == Color::Red && match &r.left {
            Some(rl) => rl.color == Color::Red,
            None => false,
        };
        let red_red_right = r.color == Color::Red && match &r.right {
            Some(rr) => rr.color == Color::Red,
            None => false,
        };
        if red_red_right {
            let RBNode { color: _, key: rk, value: rv, left: rleft, right: rright } = *r;
            let rr = rright.unwrap();
            let RBNode { color: _, key: rrk, value: rrv, left: b, right: c } = *rr;
            proof {
                assert(r.entries() == Self::opt_entries(r.left).union_prefer_right(
                    Self::opt_entries(r.right),
                ).insert(rk, rv));
                assert(r.entries().dom() =~= Self::opt_entries(r.left).dom().union(
                    Self::opt_entries(r.right).dom(),
                ).insert(rk));
                assert(rr.entries() == Self::opt_entries(b).union_prefer_right(
                    Self::opt_entries(c),
                ).insert(rrk, rrv));
                assert(rr.entries().dom() =~= Self::opt_entries(b).dom().union(
                    Self::opt_entries(c).dom(),
                ).insert(rrk));
                assert(rr.ordered());
                assert(rr.colors_ok());
                assert(Self::opt_ordered(b) && Self::opt_ordered(c));
                assert(Self::opt_colors_ok(b) && Self::opt_colors_ok(c));
                assert(Self::opt_ordered(rleft));
                assert(Self::opt_colors_ok(rleft));
                assert(Self::bh_ok(Some(rr)));
                assert(Self::bh(Some(r)) == Self::bh(rleft));
                assert(Self::bh(Some(rr)) == Self::bh(b));
                assert forall|k: u64|
                    Self::opt_entries(b).dom().contains(k) implies rk < k && k < rrk by {
                    assert(rr.entries().dom().contains(k));
                    assert(r.entries().dom().contains(k));
                }
                assert forall|k: u64|
                    Self::opt_entries(c).dom().contains(k) implies rrk < k by {
                    assert(rr.entries().dom().contains(k));
                }
                assert forall|k: u64|
                    Self::opt_entries(rleft).dom().contains(k) implies key < k && k < rk by {
                    assert(r.entries().dom().contains(k));
                }
                assert(rr.entries().dom().contains(rrk));
                assert(Self::opt_entries(r.right).dom().contains(rrk));
                assert(r.entries().dom().contains(rk));
                assert(r.entries().dom().contains(rrk));
                assert(key < rk && rk < rrk);
            }
            let nl = Box::new(RBNode { color: Color::Black, key, value, left: l, right: rleft });
            let nr = Box::new(
                RBNode { color: Color::Black, key: rrk, value: rrv, left: b, right: c },
            );
            let t = Box::new(
                RBNode {
                    color: Color::Red,
                    key: rk,
                    value: rv,
                    left: Some(nl),
                    right: Some(nr),
                },
            );
            proof {
                assert(nl.entries() == Self::opt_entries(l).union_prefer_right(
                    Self::opt_entries(rleft),
                ).insert(key, value));
                assert(nr.entries() == Self::opt_entries(b).union_prefer_right(
                    Self::opt_entries(c),
                ).insert(rrk, rrv));
                assert(nl.ordered());
                assert(nr.ordered());
                assert(nl.colors_ok());
                assert(nr.colors_ok());
                assert forall|k: u64|
                    Self::opt_entries(Some(nl)).dom().contains(k) implies k < rk by {
                    assert(nl.entries().dom() =~= Self::opt_entries(l).dom().union(
                        Self::opt_entries(rleft).dom(),
                    ).insert(key));
                    if Self::opt_entries(l).dom().contains(k) {
                        assert(k < key);
                    }
                }
                assert forall|k: u64|
                    Self::opt_entries(Some(nr)).dom().contains(k) implies k > rk by {
                    assert(nr.entries().dom() =~= Self::opt_entries(b).dom().union(
                        Self::opt_entries(c).dom(),
                    ).insert(rrk));
                    if Self::opt_entries(c).dom().contains(k) {
                        assert(k > rrk);
                    }
                }
                assert(t.ordered());
                assert(t.colors_ok());
                assert(t.entries() =~= Self::opt_entries(l).union_prefer_right(
                    r.entries(),
                ).insert(key, value));
                assert(Self::bh(Some(nl)) == Self::bh(l) + 1);
                assert(Self::bh(Some(nr)) == Self::bh(b) + 1);
                assert(Self::bh(Some(t)) == Self::bh(Some(nl)));
                assert(Self::bh(Some(r)) == Self::bh(rleft));
                assert(Self::bh(Some(rr)) == Self::bh(b));
                assert(Self::bh_ok(Some(nl)));
                assert(Self::bh_ok(Some(nr)));
                assert(Self::bh_ok(Some(t)));
            }
            t
        } else if red_red_left {
            let RBNode { color: _, key: rk, value: rv, left: rleft, right: rright } = *r;
            let rl = rleft.unwrap();
            let RBNode { color: _, key: rlk, value: rlv, left: b, right: c } = *rl;
            proof {
                assert(r.entries() == Self::opt_entries(r.left).union_prefer_right(
                    Self::opt_entries(r.right),
                ).insert(rk, rv));
                assert(r.entries().dom() =~= Self::opt_entries(r.left).dom().union(
                    Self::opt_entries(r.right).dom(),
                ).insert(rk));
                assert(rl.entries() == Self::opt_entries(b).union_prefer_right(
                    Self::opt_entries(c),
                ).insert(rlk, rlv));
                assert(rl.entries().dom() =~= Self::opt_entries(b).dom().union(
                    Self::opt_entries(c).dom(),
                ).insert(rlk));
                assert(rl.ordered());
                assert(rl.colors_ok());
                assert(Self::opt_ordered(b) && Self::opt_ordered(c));
                assert(Self::opt_colors_ok(b) && Self::opt_colors_ok(c));
                assert(Self::opt_ordered(rright));
                assert(Self::opt_colors_ok(rright));
                assert(Self::bh_ok(Some(rl)));
                assert(Self::bh(Some(r)) == Self::bh(Some(rl)));
                assert(Self::bh(Some(rl)) == Self::bh(b));
                assert forall|k: u64|
                    Self::opt_entries(b).dom().contains(k) implies key < k && k < rlk by {
                    assert(rl.entries().dom().contains(k));
                    assert(r.entries().dom().contains(k));
                }
                assert forall|k: u64|
                    Self::opt_entries(c).dom().contains(k) implies rlk < k && k < rk by {
                    assert(rl.entries().dom().contains(k));
                    assert(r.entries().dom().contains(k));
                }
                assert forall|k: u64|
                    Self::opt_entries(rright).dom().contains(k) implies rk < k by {
                    assert(r.entries().dom().contains(k));
                }
                assert(rl.entries().dom().contains(rlk));
                assert(Self::opt_entries(r.left).dom().contains(rlk));
                assert(r.entries().dom().contains(rk));
                assert(r.entries().dom().contains(rlk));
                assert(key < rlk && rlk < rk);
            }
            let nl = Box::new(RBNode { color: Color::Black, key, value, left: l, right: b });
            let nr = Box::new(
                RBNode { color: Color::Black, key: rk, value: rv, left: c, right: rright },
            );
            let t = Box::new(
                RBNode {
                    color: Color::Red,
                    key: rlk,
                    value: rlv,
                    left: Some(nl),
                    right: Some(nr),
                },
            );
            proof {
                assert(nl.entries() == Self::opt_entries(l).union_prefer_right(
                    Self::opt_entries(b),
                ).insert(key, value));
                assert(nr.entries() == Self::opt_entries(c).union_prefer_right(
                    Self::opt_entries(rright),
                ).insert(rk, rv));
                assert(nl.ordered());
                assert(nr.ordered());
                assert(nl.colors_ok());
                assert(nr.colors_ok());
                assert forall|k: u64|
                    Self::opt_entries(Some(nl)).dom().contains(k) implies k < rlk by {
                    assert(nl.entries().dom() =~= Self::opt_entries(l).dom().union(
                        Self::opt_entries(b).dom(),
                    ).insert(key));
                    if Self::opt_entries(l).dom().contains(k) {
                        assert(k < key);
                    }
                }
                assert forall|k: u64|
                    Self::opt_entries(Some(nr)).dom().contains(k) implies k > rlk by {
                    assert(nr.entries().dom() =~= Self::opt_entries(c).dom().union(
                        Self::opt_entries(rright).dom(),
                    ).insert(rk));
                    if Self::opt_entries(rright).dom().contains(k) {
                        assert(k > rk);
                    }
                }
                assert(t.ordered());
                assert(t.colors_ok());
                assert(t.entries() =~= Self::opt_entries(l).union_prefer_right(
                    r.entries(),
                ).insert(key, value));
                assert(Self::bh(Some(nl)) == Self::bh(l) + 1);
                assert(Self::bh(Some(nr)) == Self::bh(c) + 1);
                assert(Self::bh(Some(t)) == Self::bh(Some(nl)));
                assert(Self::bh(Some(r)) == Self::bh(Some(rl)));
                assert(Self::bh(Some(rl)) == Self::bh(b));
                assert(Self::bh_ok(Some(nl)));
                assert(Self::bh_ok(Some(nr)));
                assert(Self::bh_ok(Some(t)));
            }
            t
        } else {
            let t = Box::new(RBNode { color: Color::Black, key, value, left: l, right: Some(r) });
            proof {
                assert(r.colors_ok());
                assert forall|k: u64|
                    Self::opt_entries(Some(r)).dom().contains(k) implies k > key by {
                    assert(r.entries().dom().contains(k));
                }
                assert(t.ordered());
                assert(t.colors_ok());
                assert(t.entries() =~= Self::opt_entries(l).union_prefer_right(
                    r.entries(),
                ).insert(key, value));
                assert(Self::bh(Some(t)) == Self::bh(l) + 1);
                assert(Self::bh_ok(Some(t)));
            }
            t
        }
    }

    /// Insert a fresh key, recolouring and rotating out of the recursion.
    /// The result may be Red-rooted with one Red child; the caller repairs
    /// or, at the top, repaints the root Black.
    fn ins(o: Option<Box<RBNode<V>>>, key: u64, value: V) -> (t: Box<RBNode<V>>)
        requires
            Self::opt_ordered(o),
            Self::opt_colors_ok(o),
            Self::bh_ok(o),
            !Self::opt_entries(o).dom().contains(key),
        ensures
            t.ordered(),
            t.entries() == Self::opt_entries(o).insert(key, value),
            t.kids_ok(),
            Self::color_of(o) == Color::Black ==> t.colors_ok(),
            Self::bh(Some(t)) == Self::bh(o),
            Self::bh_ok(Some(t)),
        decreases o,
    {
        match o {
            None => {
                let t = Box::new(
                    RBNode { color: Color::Red, key, value, left: None, right: None },
                );
                proof {
                    assert(t.entries() =~= Self::opt_entries(o).insert(key, value));
                }
                t
            },
            Some(n) => {
                let RBNode { color: c, key: nk, value: nv, left, right } = *n;
                proof {
                    assert(Self::opt_entries(o) == Self::opt_entries(left).union_prefer_right(
                        Self::opt_entries(right),
                    ).insert(nk, nv));
                    assert(Self::opt_entries(o).dom() =~= Self::opt_entries(left).dom().union(
                        Self::opt_entries(right).dom(),
                    ).insert(nk));
                    assert(key != nk);
                }
                if key < nk {
                    proof {
                        assert(!Self::opt_entries(left).dom().contains(key));
                        assert(!Self::opt_entries(right).dom().contains(key));
                    }
                    let nl = Self::ins(left, key, value);
                    proof {
                        assert forall|k: u64|
                            nl.entries().dom().contains(k) implies k < nk by {
                            assert(nl.entries().dom() =~= Self::opt_entries(
                                left,
                            ).dom().insert(key));
                        }
                    }
                    if c == Color::Black {
                        let t = Self::bali_l(nl, nk, nv, right);
                        proof {
                            assert(t.entries() =~= Self::opt_entries(o).insert(key, value));
                        }
                        t
                    } else {
                        let t = Box::new(
                            RBNode {
                                color: Color::Red,
                                key: nk,
                                value: nv,
                                left: Some(nl),
                                right,
                            },
                        );
                        proof {
                            assert(Self::color_of(left) == Color::Black);
                            assert(t.ordered());
                            assert(t.kids_ok());
                            assert(t.entries() =~= Self::opt_entries(o).insert(key, value));
                        }
                        t
                    }
                } else {
                    proof {
                        assert(!Self::opt_entries(left).dom().contains(key));
                        assert(!Self::opt_entries(right).dom().contains(key));
                    }
                    let nr = Self::ins(right, key, value);
                    proof {
                        assert forall|k: u64|
                            nr.entries().dom().contains(k) implies k > nk by {
                            assert(nr.entries().dom() =~= Self::opt_entries(
                                right,
                            ).dom().insert(key));
                        }
                    }
                    if c == Color::Black {
                        let t = Self::bali_r(left, nk, nv, nr);
                        proof {
                            assert(t.entries() =~= Self::opt_entries(o).insert(key, value));
                        }
                        t
                    } else {
                        let t = Box::new(
                            RBNode {
                                color: Color::Red,
                                key: nk,
                                value: nv,
                                left,
                                right: Some(nr),
                            },
                        );
                        proof {
                            assert(Self::color_of(right) == Color::Black);
                            assert(t.ordered());
                            assert(t.kids_ok());
                            assert(t.entries() =~= Self::opt_entries(o).insert(key, value));
                        }
                        t
                    }
                }
            },
        }
    }

    /// Two ordered halves rebuilt around the middle of their join: the
    /// rotated grouping holds exactly the union of the two halves.
    proof fn lemma_rot_union(
        mul: Map<u64, V>,
        uk: u64,
        uv: V,
        mur: Map<u64, V>,
        mvl: Map<u64, V>,
        vk: u64,
        vv: V,
        mvr: Map<u64, V>,
        m1: Map<u64, V>,
        mk: u64,
        mv: V,
        m2: Map<u64, V>,
    )
        requires
            forall|k: u64| mul.dom().contains(k) ==> k < uk,
            forall|k: u64| mur.dom().contains(k) ==> k > uk,
            forall|k: u64| mvl.dom().contains(k) ==> k < vk,
            forall|k: u64| mvr.dom().contains(k) ==> k > vk,
            forall|k: u64| m1.dom().contains(k) ==> k < mk,
            forall|k: u64| m2.dom().contains(k) ==> k > mk,
            uk < mk && mk < vk,
            m1.union_prefer_right(m2).insert(mk, mv) == mur.union_prefer_right(mvl),
            forall|ka: u64, kb: u64|
                mul.union_prefer_right(mur).insert(uk, uv).dom().contains(ka)
                    && mvl.union_prefer_right(mvr).insert(vk, vv).dom().contains(kb) ==> ka
                    < kb,
        ensures
            mul.union_prefer_right(m1).insert(uk, uv).union_prefer_right(
                m2.union_prefer_right(mvr).insert(vk, vv),
            ).insert(mk, mv) == mul.union_prefer_right(mur).insert(uk, uv).union_prefer_right(
                mvl.union_prefer_right(mvr).insert(vk, vv),
            ),
    {
        let a_map = mul.union_prefer_right(mur).insert(uk, uv);
        let b_map = mvl.union_prefer_right(mvr).insert(vk, vv);
        let mm = m1.union_prefer_right(m2).insert(mk, mv);
        let lhs = mul.union_prefer_right(m1).insert(uk, uv).union_prefer_right(
            m2.union_prefer_right(mvr).insert(vk, vv),
        ).insert(mk, mv);
        let rhs = a_map.union_prefer_right(b_map);
        assert forall|k: u64| a_map.dom().contains(k) implies !b_map.dom().contains(k) by {
            if b_map.dom().contains(k) {
                assert(k < k);
            }
        }
        assert forall|k: u64|
            m1.dom().contains(k) implies (mur.dom().contains(k) || mvl.dom().contains(k))
            && mm[k] == mur.union_prefer_right(mvl)[k] by {
            assert(mm.dom().contains(k));
        }
        assert forall|k: u64|
            m2.dom().contains(k) implies (mur.dom().contains(k) || mvl.dom().contains(k))
            && mm[k] == mur.union_prefer_right(mvl)[k] by {
            assert(mm.dom().contains(k));
        }
        assert(mm.dom().contains(mk));
        assert(mm[mk] == mur.union_prefer_right(mvl)[mk]);
        assert forall|k: u64|
            mur.dom().contains(k) implies mm.dom().contains(k) && (m1.dom().contains(k)
            || m2.dom().contains(k) || k == mk) by {
            assert(mur.union_prefer_right(mvl).dom().contains(k));
        }
        assert forall|k: u64|
            mvl.dom().contains(k) implies mm.dom().contains(k) && (m1.dom().contains(k)
            || m2.dom().contains(k) || k == mk) by {
            assert(mur.union_prefer_right(mvl).dom().contains(k));
        }
        assert forall|k: u64|
            rhs.dom().contains(k) implies lhs.dom().contains(k) && lhs[k] == rhs[k] by {
            if k == mk {
                assert(lhs[k] == mv);
                assert(mm[mk] == mv);
                if mvl.dom().contains(mk) {
                    assert(rhs[k] == b_map[k]);
                    assert(b_map[k] == mvl[k]);
                    assert(mvl[mk] == mur.union_prefer_right(mvl)[mk]);
                } else {
                    assert(mur.dom().contains(mk));
                    assert(a_map.dom().contains(mk));
                    assert(!b_map.dom().contains(mk));
                    assert(rhs[k] == a_map[k]);
                    assert(a_map[k] == mur[k]);
                    assert(mur[mk] == mur.union_prefer_right(mvl)[mk]);
                }
            } else if b_map.dom().contains(k) {
                assert(rhs[k] == b_map[k]);
                if k == vk {
                    assert(lhs[k] == vv && rhs[k] == vv);
                } else if mvr.dom().contains(k) {
                    assert(b_map[k] == mvr[k]);
                    assert(lhs[k] == mvr[k]);
                } else {
                    assert(mvl.dom().contains(k));
                    assert(b_map[k] == mvl[k]);
                    assert(mm[k] == mur.union_prefer_right(mvl)[k]);
                    assert(!mur.dom().contains(k));
                    assert(mur.union_prefer_right(mvl)[k] == mvl[k]);
                    if m2.dom().contains(k) {
                        assert(mm[k] == m2[k]);
                        assert(lhs[k] == m2[k]);
                    } else {
                        assert(m1.dom().contains(k));
                        assert(mm[k] == m1[k]);
                        assert(k != uk);
                        assert(!mvr.dom().contains(k) && k != vk && !m2.dom().contains(k));
                        assert(lhs[k] == m1[k]);
                    }
                }
            } else {
                assert(a_map.dom().contains(k));
                assert(rhs[k] == a_map[k]);
                if k == uk {
                    assert(a_map[k] == uv);
                    assert(!m2.union_prefer_right(mvr).insert(vk, vv).dom().contains(uk));
                    assert(lhs[k] == uv);
                } else if mul.dom().contains(k) {
                    assert(!mur.dom().contains(k));
                    assert(a_map[k] == mul[k]);
                    assert(!m1.dom().contains(k)) by {
                        if m1.dom().contains(k) {
                            assert(mm.dom().contains(k));
                            assert(mur.union_prefer_right(mvl).dom().contains(k));
                            assert(mur.dom().contains(k) || mvl.dom().contains(k));
                            if mvl.dom().contains(k) {
                                assert(b_map.dom().contains(k));
                            }
                        }
                    }
                    assert(!m2.union_prefer_right(mvr).insert(vk, vv).dom().contains(k)) by {
                        if m2.dom().contains(k) {
                            assert(k > mk);
                        }
                        if mvr.dom().contains(k) {
                            assert(b_map.dom().contains(k));
                        }
                        if k == vk {
                            assert(b_map.dom().contains(vk));
                        }
                    }
                    assert(lhs[k] == mul[k]);
                } else {
                    assert(mur.dom().contains(k));
                    assert(a_map[k] == mur[k]);
                    assert(!mvl.dom().contains(k)) by {
                        if mvl.dom().contains(k) {
                            assert(b_map.dom().contains(k));
                        }
                    }
                    assert(mm[k] == mur.union_prefer_right(mvl)[k]);
                    assert(mur.union_prefer_right(mvl)[k] == mur[k]);
                    if m2.dom().contains(k) {
                        assert(mm[k] == m2[k]);
                        assert(!mvr.dom().contains(k)) by {
                            if mvr.dom().contains(k) {
                                assert(b_map.dom().contains(k));
                            }
                        }
                        assert(k != vk) by {
                            if k == vk {
                                assert(b_map.dom().contains(vk));
                            }
                        }
                        assert(lhs[k] == m2[k]);
                    } else {
                        assert(m1.dom().contains(k));
                        assert(mm[k] == m1[k]);
                        assert(!m2.union_prefer_right(mvr).insert(vk, vv).dom().contains(k))
                            by {
                            if mvr.dom().contains(k) {
                                assert(b_map.dom().contains(k));
                            }
                            if k == vk {
                                assert(b_map.dom().contains(vk));
                            }
                        }
                        assert(lhs[k] == m1[k]);
                    }
                }
            }
        }
        assert forall|k: u64| lhs.dom().contains(k) implies rhs.dom().contains(k) by {
            if k == mk {
                assert(mm.dom().contains(mk));
            } else if k == uk || mul.dom().contains(k) {
                assert(a_map.dom().contains(k));
            } else if k == vk || mvr.dom().contains(k) {
                assert(b_map.dom().contains(k));
            } else if m1.dom().contains(k) || m2.dom().contains(k) {
                assert(mm.dom().contains(k));
                assert(mur.union_prefer_right(mvl).dom().contains(k));
                assert(mur.dom().contains(k) || mvl.dom().contains(k));
                if mur.dom().contains(k) {
                    assert(a_map.dom().contains(k));
                } else {
                    assert(b_map.dom().contains(k));
                }
            }
        }
        assert(lhs =~= rhs);
    }

    /// Repaint a subtree's root Black.
    fn make_black(o: Option<Box<RBNode<V>>>) -> (t: Option<Box<RBNode<V>>>)
        ensures
            Self::opt_ordered(o) ==> Self::opt_ordered(t),
            Self::opt_entries(t) == Self::opt_entries(o),
            Self::opt_kids_ok(o) ==> Self::opt_colors_ok(t),
            Self::bh_ok(o) ==> Self::bh_ok(t),
            Self::color_of(t) == Color::Black,
            o is None <==> t is None,
    {
        match o {
            None => None,
            Some(n) => {
                let RBNode { color: _, key, value, left, right } = *n;
                let t = Box::new(RBNode { color: Color::Black, key, value, left, right });
                proof {
                    assert(t.entries() =~= o->Some_0.entries());
                    if Self::opt_ordered(o) {
                        assert(t.ordered());
                    }
                    if Self::bh_ok(o) {
                        assert(Self::bh_ok(Some(t)));
                    }
                }
                Some(t)
            },
        }
    }

    /// A subtree with a positive Black count cannot be empty.
    proof fn lemma_bh_pos_nonempty(o: Option<Box<RBNode<V>>>)
        requires
            Self::bh(o) > 0,
        ensures
            o is Some,
    {
    }

    /// Repair a node whose left subtree came back one Black level short.
    /// The result regains the full count; it is Red-Red free except
    /// possibly at its own root, and fully so under a Black right root.
    fn bald_l(l: Option<Box<RBNode<V>>>, key: u64, value: V, r: Box<RBNode<V>>) -> (t: Box<
        RBNode<V>,
    >)
        requires
            Self::opt_ordered(l),
            r.ordered(),
            forall|k: u64| Self::opt_entries(l).dom().contains(k) ==> k < key,
            forall|k: u64| r.entries().dom().contains(k) ==> k > key,
            Self::opt_kids_ok(l),
            r.colors_ok(),
            Self::bh_ok(l),
            Self::bh_ok(Some(r)),
            Self::bh(l) + 1 == Self::bh(Some(r)),
        ensures
            t.ordered(),
            t.entries() == Self::opt_entries(l).union_prefer_right(r.entries()).insert(
                key,
                value,
            ),
            t.kids_ok(),
            Self::bh(Some(t)) == Self::bh(Some(r)),
            Self::bh_ok(Some(t)),
            r.spec_color() == Color::Black ==> t.colors_ok(),
    {
        let l_red = match &l {
            Some(ln) => ln.color == Color::Red,
            None => false,
        };
        if l_red {
            // The shrunk side is Red-rooted: repainting it Black restores
            // the count on its paths.
            let ln = l.unwrap();
            let RBNode { color: _, key: lk, value: lv, left: la, right: lb } = *ln;
            proof {
                assert(ln.entries() == Self::opt_entries(la).union_prefer_right(
                    Self::opt_entries(lb),
                ).insert(lk, lv));
                assert(ln.kids_ok());
            }
            let nl = Box::new(
                RBNode { color: Color::Black, key: lk, value: lv, left: la, right: lb },
            );
            let t = Box::new(
                RBNode { color: Color::Red, key, value, left: Some(nl), right: Some(r) },
            );
            proof {
                assert(nl.entries() == ln.entries());
                assert(nl.ordered());
                assert(nl.colors_ok());
                assert forall|k: u64|
                    Self::opt_entries(Some(nl)).dom().contains(k) implies k < key by {
                    assert(Self::opt_entries(l).dom().contains(k));
                }
                assert forall|k: u64|
                    Self::opt_entries(Some(r)).dom().contains(k) implies k > key by {
                    assert(r.entries().dom().contains(k));
                }
                assert(t.ordered());
                assert(t.kids_ok());
                assert(t.entries() =~= Self::opt_entries(l).union_prefer_right(
                    r.entries(),
                ).insert(key, value));
                assert(Self::bh(Some(nl)) == Self::bh(la) + 1);
                assert(Self::bh(l) == Self::bh(la));
                assert(Self::bh(Some(t)) == Self::bh(Some(nl)));
                assert(Self::bh_ok(Some(nl)));
                assert(Self::bh_ok(Some(t)));
                if r.spec_color() == Color::Black {
                    assert(t.colors_ok());
                }
            }
            t
        } else if r.color == Color::Black {
            // Lend the sibling's Black level: repaint it Red and repair the
            // Red-Red violation this may create.
            let RBNode { color: _, key: rk, value: rv, left: ra, right: rb } = *r;
            proof {
                assert(r.entries() == Self::opt_entries(ra).union_prefer_right(
                    Self::opt_entries(rb),
                ).insert(rk, rv));
                assert(Self::opt_colors_ok(l)) by {
                    match l {
                        Some(ln) => {
                            assert(ln.color == Color::Black);
                            assert(ln.kids_ok());
                        },
                        None => {},
                    }
                }
                assert(Self::opt_ordered(ra) && Self::opt_ordered(rb));
                assert(Self::opt_colors_ok(ra) && Self::opt_colors_ok(rb));
                assert(Self::bh(Some(r)) == Self::bh(ra) + 1);
                assert(Self::bh_ok(Some(r)));
            }
            let red_r = Box::new(
                RBNode { color: Color::Red, key: rk, value: rv, left: ra, right: rb },
            );
            proof {
                assert(red_r.entries() == r.entries());
                assert(red_r.ordered());
                assert(red_r.kids_ok());
                assert(Self::bh(Some(red_r)) == Self::bh(ra));
                assert(Self::bh_ok(Some(red_r)));
            }
            let t = Self::bali_r(l, key, value, red_r);
            proof {
                assert(t.entries() =~= Self::opt_entries(l).union_prefer_right(
                    r.entries(),
                ).insert(key, value));
                assert(t.kids_ok());
            }
            t
        } else {
            // The sibling is Red: rotate it up; its near child, a Black
            // node with the full count, repairs the deficit one level down.
            let RBNode { color: _, key: rk, value: rv, left: ra, right: rb } = *r;
            proof {
                assert(r.entries() == Self::opt_entries(ra).union_prefer_right(
                    Self::opt_entries(rb),
                ).insert(rk, rv));
                assert(r.entries().dom() =~= Self::opt_entries(ra).dom().union(
                    Self::opt_entries(rb).dom(),
                ).insert(rk));
                assert(Self::color_of(ra) == Color::Black);
                assert(Self::color_of(rb) == Color::Black);
                assert(Self::bh(Some(r)) == Self::bh(ra));
                assert(Self::bh(ra) == Self::bh(rb));
                assert(Self::bh(ra) > 0);
                Self::lemma_bh_pos_nonempty(ra);
                assert(Self::bh(rb) > 0);
                Self::lemma_bh_pos_nonempty(rb);
                assert(Self::opt_colors_ok(l)) by {
                    match l {
                        Some(ln) => {
                            assert(ln.color == Color::Black);
                            assert(ln.kids_ok());
                        },
                        None => {},
                    }
                }
            }
            let ran = ra.unwrap();
            let RBNode { color: _, key: rak, value: rav, left: t2, right: t3 } = *ran;
            let rbn = rb.unwrap();
            let RBNode { color: _, key: rbk, value: rbv, left: t4, right: t5 } = *rbn;
            proof {
                assert(ran.entries() == Self::opt_entries(t2).union_prefer_right(
                    Self::opt_entries(t3),
                ).insert(rak, rav));
                assert(ran.entries().dom() =~= Self::opt_entries(t2).dom().union(
                    Self::opt_entries(t3).dom(),
                ).insert(rak));
                assert(rbn.entries() == Self::opt_entries(t4).union_prefer_right(
                    Self::opt_entries(t5),
                ).insert(rbk, rbv));
                assert(ran.ordered());
                assert(ran.colors_ok());
                assert(rbn.ordered());
                assert(rbn.colors_ok());
                assert(Self::opt_ordered(t2) && Self::opt_ordered(t3));
                assert(Self::opt_colors_ok(t2) && Self::opt_colors_ok(t3));
                assert(Self::bh_ok(Some(ran)));
                assert(Self::bh_ok(Some(rbn)));
                assert(Self::bh(Some(ran)) == Self::bh(t2) + 1);
                assert(Self::bh(Some(rbn)) == Self::bh(t4) + 1);
                assert forall|k: u64|
                    Self::opt_entries(t2).dom().contains(k) implies key < k && k < rak by {
                    assert(ran.entries().dom().contains(k));
                    assert(r.entries().dom().contains(k));
                }
                assert forall|k: u64|
                    Self::opt_entries(t3).dom().contains(k) implies rak < k && k < rk by {
                    assert(ran.entries().dom().contains(k));
                    assert(r.entries().dom().contains(k));
                }
                assert(Self::opt_entries(ra).dom().contains(rak));
                assert(r.entries().dom().contains(rak));
                assert(r.entries().dom().contains(rk));
            }
            let red_rb = Box::new(
                RBNode { color: Color::Red, key: rbk, value: rbv, left: t4, right: t5 },
            );
            proof {
                assert(red_rb.entries() == rbn.entries());
                assert(red_rb.ordered());
                assert(red_rb.kids_ok());
                assert(Self::bh(Some(red_rb)) == Self::bh(t4));
                assert(Self::bh_ok(Some(red_rb)));
                assert forall|k: u64|
                    red_rb.entries().dom().contains(k) implies k > rk by {
                    assert(Self::opt_entries(rb).dom().contains(k));
                    assert(r.entries().dom().contains(k));
                }
            }
            let repaired = Self::bali_r(t3, rk, rv, red_rb);
            let nl = Box::new(RBNode { color: Color::Black, key, value, left: l, right: t2 });
            let t = Box::new(
                RBNode {
                    color: Color::Red,
                    key: rak,
                    value: rav,
                    left: Some(nl),
                    right: Some(repaired),
                },
            );
            proof {
                assert(nl.entries() == Self::opt_entries(l).union_prefer_right(
                    Self::opt_entries(t2),
                ).insert(key, value));
                assert(nl.ordered());
                assert(nl.colors_ok());
                assert forall|k: u64|
                    Self::opt_entries(Some(nl)).dom().contains(k) implies k < rak by {
                    assert(nl.entries().dom() =~= Self::opt_entries(l).dom().union(
                        Self::opt_entries(t2).dom(),
                    ).insert(key));
                    if Self::opt_entries(l).dom().contains(k) {
                        assert(k < key);
                        assert(key < rak);
                    }
                }
                assert forall|k: u64|
                    Self::opt_entries(Some(repaired)).dom().contains(k) implies k > rak by {
                    assert(repaired.entries().dom() =~= Self::opt_entries(t3).dom().union(
                        red_rb.entries().dom(),
                    ).insert(rk));
                    if red_rb.entries().dom().contains(k) {
                        assert(k > rk);
                        assert(rak < rk);
                    }
                }
                assert(t.ordered());
                assert(t.kids_ok());
                assert(t.entries() =~= Self::opt_entries(l).union_prefer_right(
                    r.entries(),
                ).insert(key, value));
                assert(Self::bh(Some(nl)) == Self::bh(l) + 1);
                assert(Self::bh(Some(t)) == Self::bh(Some(nl)));
                assert(Self::bh_ok(Some(nl)));
                assert(Self::bh_ok(Some(t)));
            }
            t
        }
    }

    /// Mirror image of `bald_l`: the right subtree came back one Black
    /// level short.
    fn bald_r(l: Box<RBNode<V>>, key: u64, value: V, r: Option<Box<RBNode<V>>>) -> (t: Box<
        RBNode<V>,
    >)
        requires
            l.ordered(),
            Self::opt_ordered(r),
            forall|k: u64| l.entries().dom().contains(k) ==> k < key,
            forall|k: u64| Self::opt_entries(r).dom().contains(k) ==> k > key,
            l.colors_ok(),
            Self::opt_kids_ok(r),
            Self::bh_ok(Some(l)),
            Self::bh_ok(r),
            Self::bh(r) + 1 == Self::bh(Some(l)),
        ensures
            t.ordered(),
            t.entries() == l.entries().union_prefer_right(Self::opt_entries(r)).insert(
                key,
                value,
            ),
            t.kids_ok(),
            Self::bh(Some(t)) == Self::bh(Some(l)),
            Self::bh_ok(Some(t)),
            l.spec_color() == Color::Black ==> t.colors_ok(),
    {
        let r_red = match &r {
            Some(rn) => rn.color == Color::Red,
            None => false,
        };
        if r_red {
            let rn = r.unwrap();
            let RBNode { color: _, key: rk, value: rv, left: ra, right: rb } = *rn;
            proof {
                assert(rn.entries() == Self::opt_entries(ra).union_prefer_right(
                    Self::opt_entries(rb),
                ).insert(rk, rv));
                assert(rn.kids_ok());
            }
            let nr = Box::new(
                RBNode { color: Color::Black, key: rk, value: rv, left: ra, right: rb },
            );
            let t = Box::new(
                RBNode { color: Color::Red, key, value, left: Some(l), right: Some(nr) },
            );
            proof {
                assert(nr.entries() == rn.entries());
                assert(nr.ordered());
                assert(nr.colors_ok());
                assert forall|k: u64|
                    Self::opt_entries(Some(nr)).dom().contains(k) implies k > key by {
                    assert(Self::opt_entries(r).dom().contains(k));
                }
                assert forall|k: u64|
                    Self::opt_entries(Some(l)).dom().contains(k) implies k < key by {
                    assert(l.entries().dom().contains(k));
                }
                assert(t.ordered());
                assert(t.kids_ok());
                assert(t.entries() =~= l.entries().union_prefer_right(
                    Self::opt_entries(r),
                ).insert(key, value));
                assert(Self::bh(Some(nr)) == Self::bh(ra) + 1);
                assert(Self::bh(r) == Self::bh(ra));
                assert(Self::bh(Some(t)) == Self::bh(Some(l)));
                assert(Self::bh_ok(Some(nr)));
                assert(Self::bh_ok(Some(t)));
                if l.spec_color() == Color::Black {
                    assert(t.colors_ok());
                }
            }
            t
        } else if l.color == Color::Black {
            let RBNode { color: _, key: lk, value: lv, left: la, right: lb } = *l;
            proof {
                assert(l.entries() == Self::opt_entries(la).union_prefer_right(
                    Self::opt_entries(lb),
                ).insert(lk, lv));
                assert(Self::opt_colors_ok(r)) by {
                    match r {
                        Some(rn) => {
                            assert(rn.color == Color::Black);
                            assert(rn.kids_ok());
                        },
                        None => {},
                    }
                }
                assert(Self::opt_ordered(la) && Self::opt_ordered(lb));
                assert(Self::opt_colors_ok(la) && Self::opt_colors_ok(lb));
                assert(Self::bh(Some(l)) == Self::bh(la) + 1);
                assert(Self::bh_ok(Some(l)));
            }
            let red_l = Box::new(
                RBNode { color: Color::Red, key: lk, value: lv, left: la, right: lb },
            );
            proof {
                assert(red_l.entries() == l.entries());
                assert(red_l.ordered());
                assert(red_l.kids_ok());
                assert(Self::bh(Some(red_l)) == Self::bh(la));
                assert(Self::bh_ok(Some(red_l)));
            }
            let t = Self::bali_l(red_l, key, value, r);
            proof {
                assert(t.entries() =~= l.entries().union_prefer_right(
                    Self::opt_entries(r),
                ).insert(key, value));
                assert(t.kids_ok());
            }
            t
        } else {
            // The left sibling is Red: rotate it up; its near child repairs
            // the deficit one level down.
            let RBNode { color: _, key: lk, value: lv, left: la, right: lb } = *l;
            proof {
                assert(l.entries() == Self::opt_entries(la).union_prefer_right(
                    Self::opt_entries(lb),
                ).insert(lk, lv));
                assert(l.entries().dom() =~= Self::opt_entries(la).dom().union(
                    Self::opt_entries(lb).dom(),
                ).insert(lk));
                assert(Self::color_of(la) == Color::Black);
                assert(Self::color_of(lb) == Color::Black);
                assert(Self::bh(Some(l)) == Self::bh(la));
                assert(Self::bh(la) == Self::bh(lb));
                assert(Self::bh(lb) > 0);
                Self::lemma_bh_pos_nonempty(lb);
                assert(Self::bh(la) > 0);
                Self::lemma_bh_pos_nonempty(la);
                assert(Self::opt_colors_ok(r)) by {
                    match r {
                        Some(rn) => {
                            assert(rn.color == Color::Black);
                            assert(rn.kids_ok());
                        },
                        None => {},
                    }
                }
            }
            let lbn = lb.unwrap();
            let RBNode { color: _, key: lbk, value: lbv, left: t3, right: t4 } = *lbn;
            let lan = la.unwrap();
            let RBNode { color: _, key: lak, value: lav, left: t1, right: t2 } = *lan;
            proof {
                assert(lbn.entries() == Self::opt_entries(t3).union_prefer_right(
                    Self::opt_entries(t4),
                ).insert(lbk, lbv));
                assert(lbn.entries().dom() =~= Self::opt_entries(t3).dom().union(
                    Self::opt_entries(t4).dom(),
                ).insert(lbk));
                assert(lan.entries() == Self::opt_entries(t1).union_prefer_right(
                    Self::opt_entries(t2),
                ).insert(lak, lav));
                assert(lbn.ordered());
                assert(lbn.colors_ok());
                assert(lan.ordered());
                assert(lan.colors_ok());
                assert(Self::opt_ordered(t3) && Self::opt_ordered(t4));
                assert(Self::opt_colors_ok(t3) && Self::opt_colors_ok(t4));
                assert(Self::bh_ok(Some(lbn)));
                assert(Self::bh_ok(Some(lan)));
                assert(Self::bh(Some(lbn)) == Self::bh(t3) + 1);
                assert(Self::bh(Some(lan)) == Self::bh(t1) + 1);
                assert forall|k: u64|
                    Self::opt_entries(t4).dom().contains(k) implies lbk < k && k < key by {
                    assert(lbn.entries().dom().contains(k));
                    assert(l.entries().dom().contains(k));
                }
                assert forall|k: u64|
                    Self::opt_entries(t3).dom().contains(k) implies lk < k && k < lbk by {
                    assert(lbn.entries().dom().contains(k));
                    assert(l.entries().dom().contains(k));
                }
                assert(Self::opt_entries(lb).dom().contains(lbk));
                assert(l.entries().dom().contains(lbk));
                assert(l.entries().dom().contains(lk));
            }
            let red_la = Box::new(
                RBNode { color: Color::Red, key: lak, value: lav, left: t1, right: t2 },
            );
            proof {
                assert(red_la.entries() == lan.entries());
                assert(red_la.ordered());
                assert(red_la.kids_ok());
                assert(Self::bh(Some(red_la)) == Self::bh(t1));
                assert(Self::bh_ok(Some(red_la)));
                assert forall|k: u64|
                    red_la.entries().dom().contains(k) implies k < lk by {
                    assert(Self::opt_entries(la).dom().contains(k));
                    assert(l.entries().dom().contains(k));
                }
            }
            let repaired = Self::bali_l(red_la, lk, lv, t3);
            let nr = Box::new(RBNode { color: Color::Black, key, value, left: t4, right: r });
            let t = Box::new(
                RBNode {
                    color: Color::Red,
                    key: lbk,
                    value: lbv,
                    left: Some(repaired),
                    right: Some(nr),
                },
            );
            proof {
                assert(nr.entries() == Self::opt_entries(t4).union_prefer_right(
                    Self::opt_entries(r),
                ).insert(key, value));
                assert(nr.ordered());
                assert(nr.colors_ok());
                assert forall|k: u64|
                    Self::opt_entries(Some(nr)).dom().contains(k) implies k > lbk by {
                    assert(nr.entries().dom() =~= Self::opt_entries(t4).dom().union(
                        Self::opt_entries(r).dom(),
                    ).insert(key));
                    if Self::opt_entries(r).dom().contains(k) {
                        assert(k > key);
                        assert(lbk < key);
                    }
                }
                assert forall|k: u64|
                    Self::opt_entries(Some(repaired)).dom().contains(k) implies k < lbk by {
                    assert(repaired.entries().dom() =~= red_la.entries().dom().union(
                        Self::opt_entries(t3).dom(),
                    ).insert(lk));
                    if red_la.entries().dom().contains(k) {
                        assert(k < lk);
                        assert(lk < lbk);
                    }
                }
                assert(t.ordered());
                assert(t.kids_ok());
                assert(t.entries() =~= l.entries().union_prefer_right(
                    Self::opt_entries(r),
                ).insert(key, value));
                assert(Self::bh(Some(nr)) == Self::bh(t4) + 1);
                assert(Self::bh(Some(t)) == Self::bh(Some(repaired)));
                assert(Self::bh_ok(Some(nr)));
                assert(Self::bh_ok(Some(t)));
            }
            t
        }
    }

    /// Join two subtrees with equal Black counts, every left key below
    /// every right key: the glue of removal's found-the-key case.
    #[verifier::rlimit(100)]
    fn join_trees(a: Option<Box<RBNode<V>>>, b: Option<Box<RBNode<V>>>) -> (t: Option<Box<
        RBNode<V>,
    >>)
        requires
            Self::opt_ordered(a),
            Self::opt_ordered(b),
            Self::opt_colors_ok(a),
            Self::opt_colors_ok(b),
            Self::bh_ok(a),
            Self::bh_ok(b),
            Self::bh(a) == Self::bh(b),
            forall|ka: u64, kb: u64|
                Self::opt_entries(a).dom().contains(ka) && Self::opt_entries(b).dom().contains(
                    kb,
                ) ==> ka < kb,
        ensures
            Self::opt_ordered(t),
            Self::opt_entries(t) == Self::opt_entries(a).union_prefer_right(
                Self::opt_entries(b),
            ),
            Self::opt_kids_ok(t),
            Self::bh(t) == Self::bh(a),
            Self::bh_ok(t),
            (Self::color_of(a) == Color::Black && Self::color_of(b) == Color::Black)
                ==> Self::opt_colors_ok(t),
        decreases a, b,
    {
        if a.is_none() {
            proof {
                assert(Self::opt_entries(b) =~= Self::opt_entries(a).union_prefer_right(
                    Self::opt_entries(b),
                ));
                assert(Self::opt_kids_ok(b)) by {
                    match b {
                        Some(bn) => {
                            assert(bn.colors_ok());
                        },
                        None => {},
                    }
                }
            }
            return b;
        }
        if b.is_none() {
            proof {
                assert(Self::opt_entries(a) =~= Self::opt_entries(a).union_prefer_right(
                    Self::opt_entries(b),
                ));
                assert(Self::opt_kids_ok(a)) by {
                    match a {
                        Some(an) => {
                            assert(an.colors_ok());
                        },
                        None => {},
                    }
                }
            }
            return a;
        }
        let u = a.unwrap();
        let v = b.unwrap();
        let RBNode { color: uc, key: uk, value: uv, left: ul, right: ur } = *u;
        let RBNode { color: vc, key: vk, value: vv, left: vl, right: vr } = *v;
        proof {
            assert(Self::opt_entries(a) == u.entries());
            assert(Self::opt_entries(b) == v.entries());
            assert(u.entries() == Self::opt_entries(ul).union_prefer_right(
                Self::opt_entries(ur),
            ).insert(uk, uv));
            assert(u.entries().dom() =~= Self::opt_entries(ul).dom().union(
                Self::opt_entries(ur).dom(),
            ).insert(uk));
            assert(v.entries() == Self::opt_entries(vl).union_prefer_right(
                Self::opt_entries(vr),
            ).insert(vk, vv));
            assert(v.entries().dom() =~= Self::opt_entries(vl).dom().union(
                Self::opt_entries(vr).dom(),
            ).insert(vk));
            assert(u.colors_ok());
            assert(v.colors_ok());
            assert(Self::opt_ordered(ul) && Self::opt_ordered(ur));
            assert(Self::opt_ordered(vl) && Self::opt_ordered(vr));
            assert(Self::opt_colors_ok(ul) && Self::opt_colors_ok(ur));
            assert(Self::opt_colors_ok(vl) && Self::opt_colors_ok(vr));
            assert(Self::bh_ok(Some(u)) && Self::bh_ok(Some(v)));
            assert(u.entries().dom().contains(uk));
            assert(v.entries().dom().contains(vk));
            assert(uk < vk);
            assert forall|ka: u64, kb: u64|
                Self::opt_entries(ur).dom().contains(ka) && Self::opt_entries(
                    vl,
                ).dom().contains(kb) implies ka < kb by {
                assert(u.entries().dom().contains(ka));
                assert(v.entries().dom().contains(kb));
            }
            assert forall|k: u64|
                Self::opt_entries(a).dom().contains(k) implies !Self::opt_entries(
                    b,
                ).dom().contains(k) by {
                if Self::opt_entries(b).dom().contains(k) {
                    assert(k < k);
                }
            }
        }
        if uc == Color::Red && vc == Color::Red {
            proof {
                assert(Self::color_of(ur) == Color::Black);
                assert(Self::color_of(vl) == Color::Black);
                assert(Self::bh(a) == Self::bh(ul));
                assert(Self::bh(b) == Self::bh(vl));
            }
            let m = Self::join_trees(ur, vl);
            let m_red = match &m {
                Some(mn) => mn.color == Color::Red,
                None => false,
            };
            if m_red {
                let mn = m.unwrap();
                let RBNode { color: _, key: mk, value: mv, left: m1, right: m2 } = *mn;
                proof {
                    assert(mn.entries() == Self::opt_entries(m1).union_prefer_right(
                        Self::opt_entries(m2),
                    ).insert(mk, mv));
                    assert(mn.entries().dom() =~= Self::opt_entries(m1).dom().union(
                        Self::opt_entries(m2).dom(),
                    ).insert(mk));
                    assert(mn.ordered());
                    assert(mn.kids_ok());
                    assert(Self::bh(Some(mn)) == Self::bh(m1));
                    assert(Self::bh_ok(Some(mn)));
                }
                let nl = Box::new(
                    RBNode { color: Color::Red, key: uk, value: uv, left: ul, right: m1 },
                );
                let nr = Box::new(
                    RBNode { color: Color::Red, key: vk, value: vv, left: m2, right: vr },
                );
                let t = Box::new(
                    RBNode {
                        color: Color::Red,
                        key: mk,
                        value: mv,
                        left: Some(nl),
                        right: Some(nr),
                    },
                );
                proof {
                    assert(nl.entries() == Self::opt_entries(ul).union_prefer_right(
                        Self::opt_entries(m1),
                    ).insert(uk, uv));
                    assert(nr.entries() == Self::opt_entries(m2).union_prefer_right(
                        Self::opt_entries(vr),
                    ).insert(vk, vv));
                    assert forall|k: u64|
                        Self::opt_entries(m1).dom().contains(k) implies uk < k && k < mk by {
                        assert(mn.entries().dom().contains(k));
                        assert(Self::opt_entries(ur).dom().contains(k)
                            || Self::opt_entries(vl).dom().contains(k)) by {
                            assert(Self::opt_entries(Some(mn)).dom() =~= Self::opt_entries(
                                ur,
                            ).dom().union(Self::opt_entries(vl).dom()));
                        }
                        if Self::opt_entries(ur).dom().contains(k) {
                            assert(k > uk);
                        } else {
                            assert(Self::opt_entries(vl).dom().contains(k));
                            assert(Self::opt_entries(b).dom().contains(k));
                            assert(Self::opt_entries(a).dom().contains(uk));
                            assert(k > uk);
                        }
                    }
                    assert forall|k: u64|
                        Self::opt_entries(m2).dom().contains(k) implies mk < k && k < vk by {
                        assert(mn.entries().dom().contains(k));
                        assert(Self::opt_entries(Some(mn)).dom() =~= Self::opt_entries(
                            ur,
                        ).dom().union(Self::opt_entries(vl).dom()));
                        if Self::opt_entries(vl).dom().contains(k) {
                            assert(v.entries().dom().contains(k));
                            assert(k < vk);
                        } else {
                            assert(Self::opt_entries(ur).dom().contains(k));
                            assert(u.entries().dom().contains(k));
                            assert(Self::opt_entries(a).dom().contains(k));
                            assert(Self::opt_entries(b).dom().contains(vk));
                            assert(k < vk);
                        }
                    }
                    assert(mk > uk && mk < vk) by {
                        assert(mn.entries().dom().contains(mk));
                        assert(Self::opt_entries(Some(mn)).dom() =~= Self::opt_entries(
                            ur,
                        ).dom().union(Self::opt_entries(vl).dom()));
                        if Self::opt_entries(ur).dom().contains(mk) {
                            assert(u.entries().dom().contains(mk));
                            assert(Self::opt_entries(a).dom().contains(mk));
                            assert(Self::opt_entries(b).dom().contains(vk));
                        } else {
                            assert(Self::opt_entries(vl).dom().contains(mk));
                            assert(v.entries().dom().contains(mk));
                            assert(Self::opt_entries(b).dom().contains(mk));
                            assert(Self::opt_entries(a).dom().contains(uk));
                        }
                    }
                    assert(nl.ordered());
                    assert(nr.ordered());
                    assert(nl.colors_ok());
                    assert(nr.colors_ok());
                    assert forall|k: u64|
                        Self::opt_entries(Some(nl)).dom().contains(k) implies k < mk by {
                        assert(nl.entries().dom() =~= Self::opt_entries(ul).dom().union(
                            Self::opt_entries(m1).dom(),
                        ).insert(uk));
                        if Self::opt_entries(ul).dom().contains(k) {
                            assert(k < uk);
                            assert(uk < mk);
                        }
                    }
                    assert forall|k: u64|
                        Self::opt_entries(Some(nr)).dom().contains(k) implies k > mk by {
                        assert(nr.entries().dom() =~= Self::opt_entries(m2).dom().union(
                            Self::opt_entries(vr).dom(),
                        ).insert(vk));
                        if Self::opt_entries(vr).dom().contains(k) {
                            assert(k > vk);
                            assert(mk < vk);
                        }
                    }
                    assert(t.ordered());
                    assert(t.kids_ok());
                    assert(Self::opt_entries(Some(mn)) == Self::opt_entries(
                        ur,
                    ).union_prefer_right(Self::opt_entries(vl)));
                    assert(Self::opt_entries(Some(nl)) == nl.entries());
                    assert(Self::opt_entries(Some(nr)) == nr.entries());
                    assert(t.entries() == Self::opt_entries(Some(nl)).union_prefer_right(
                        Self::opt_entries(Some(nr)),
                    ).insert(mk, mv));
                    Self::lemma_rot_union(
                        Self::opt_entries(ul),
                        uk,
                        uv,
                        Self::opt_entries(ur),
                        Self::opt_entries(vl),
                        vk,
                        vv,
                        Self::opt_entries(vr),
                        Self::opt_entries(m1),
                        mk,
                        mv,
                        Self::opt_entries(m2),
                    );
                    assert(t.entries() =~= Self::opt_entries(a).union_prefer_right(
                        Self::opt_entries(b),
                    ));
                    assert(Self::bh(Some(nl)) == Self::bh(ul));
                    assert(Self::bh(Some(nr)) == Self::bh(m2));
                    assert(Self::bh(Some(t)) == Self::bh(Some(nl)));
                    assert(Self::bh_ok(Some(nl)));
                    assert(Self::bh_ok(Some(nr)));
                    assert(Self::bh_ok(Some(t)));
                }
                Some(t)
            } else {
                let nr = Box::new(
                    RBNode { color: Color::Red, key: vk, value: vv, left: m, right: vr },
                );
                let t = Box::new(
                    RBNode {
                        color: Color::Red,
                        key: uk,
                        value: uv,
                        left: ul,
                        right: Some(nr),
                    },
                );
                proof {
                    assert(nr.entries() == Self::opt_entries(m).union_prefer_right(
                        Self::opt_entries(vr),
                    ).insert(vk, vv));
                    assert(Self::opt_colors_ok(m)) by {
                        match m {
                            Some(mn) => {
                                assert(mn.kids_ok());
                            },
                            None => {},
                        }
                    }
                    assert forall|k: u64|
                        Self::opt_entries(m).dom().contains(k) implies uk < k && k < vk by {
                        assert(Self::opt_entries(m).dom() =~= Self::opt_entries(
                            ur,
                        ).dom().union(Self::opt_entries(vl).dom()));
                        if Self::opt_entries(ur).dom().contains(k) {
                            assert(u.entries().dom().contains(k));
                            assert(Self::opt_entries(a).dom().contains(k));
                            assert(Self::opt_entries(b).dom().contains(vk));
                            assert(k > uk);
                            assert(k < vk);
                        } else {
                            assert(Self::opt_entries(vl).dom().contains(k));
                            assert(v.entries().dom().contains(k));
                            assert(Self::opt_entries(b).dom().contains(k));
                            assert(Self::opt_entries(a).dom().contains(uk));
                            assert(k > uk);
                            assert(k < vk);
                        }
                    }
                    assert(nr.ordered());
                    assert(nr.colors_ok());
                    assert forall|k: u64|
                        Self::opt_entries(Some(nr)).dom().contains(k) implies k > uk by {
                        assert(nr.entries().dom() =~= Self::opt_entries(m).dom().union(
                            Self::opt_entries(vr).dom(),
                        ).insert(vk));
                        if Self::opt_entries(vr).dom().contains(k) {
                            assert(k > vk);
                        }
                    }
                    assert(t.ordered());
                    assert(t.kids_ok());
                    assert(t.entries() =~= Self::opt_entries(a).union_prefer_right(
                        Self::opt_entries(b),
                    ));
                    assert(Self::bh(Some(nr)) == Self::bh(m));
                    assert(Self::bh(Some(t)) == Self::bh(ul));
                    assert(Self::bh_ok(Some(nr)));
                    assert(Self::bh_ok(Some(t)));
                }
                Some(t)
            }
        } else if uc == Color::Black && vc == Color::Black {
            proof {
                assert(Self::bh(a) == Self::bh(ul) + 1);
                assert(Self::bh(b) == Self::bh(vl) + 1);
            }
            let m = Self::join_trees(ur, vl);
            let m_red = match &m {
                Some(mn) => mn.color == Color::Red,
                None => false,
            };
            if m_red {
                let mn = m.unwrap();
                let RBNode { color: _, key: mk, value: mv, left: m1, right: m2 } = *mn;
                proof {
                    assert(mn.entries() == Self::opt_entries(m1).union_prefer_right(
                        Self::opt_entries(m2),
                    ).insert(mk, mv));
                    assert(mn.entries().dom() =~= Self::opt_entries(m1).dom().union(
                        Self::opt_entries(m2).dom(),
                    ).insert(mk));
                    assert(mn.ordered());
                    assert(mn.kids_ok());
                    assert(Self::bh(Some(mn)) == Self::bh(m1));
                    assert(Self::bh_ok(Some(mn)));
                }
                let nl = Box::new(
                    RBNode { color: Color::Black, key: uk, value: uv, left: ul, right: m1 },
                );
                let nr = Box::new(
                    RBNode { color: Color::Black, key: vk, value: vv, left: m2, right: vr },
                );
                let t = Box::new(
                    RBNode {
                        color: Color::Red,
                        key: mk,
                        value: mv,
                        left: Some(nl),
                        right: Some(nr),
                    },
                );
                proof {
                    assert(nl.entries() == Self::opt_entries(ul).union_prefer_right(
                        Self::opt_entries(m1),
                    ).insert(uk, uv));
                    assert(nr.entries() == Self::opt_entries(m2).union_prefer_right(
                        Self::opt_entries(vr),
                    ).insert(vk, vv));
                    assert forall|k: u64|
                        Self::opt_entries(m1).dom().contains(k) implies uk < k && k < mk by {
                        assert(mn.entries().dom().contains(k));
                        assert(Self::opt_entries(Some(mn)).dom() =~= Self::opt_entries(
                            ur,
                        ).dom().union(Self::opt_entries(vl).dom()));
                        if Self::opt_entries(ur).dom().contains(k) {
                            assert(u.entries().dom().contains(k));
                            assert(k > uk);
                        } else {
                            assert(Self::opt_entries(vl).dom().contains(k));
                            assert(v.entries().dom().contains(k));
                            assert(Self::opt_entries(b).dom().contains(k));
                            assert(Self::opt_entries(a).dom().contains(uk));
                            assert(k > uk);
                        }
                    }
                    assert forall|k: u64|
                        Self::opt_entries(m2).dom().contains(k) implies mk < k && k < vk by {
                        assert(mn.entries().dom().contains(k));
                        assert(Self::opt_entries(Some(mn)).dom() =~= Self::opt_entries(
                            ur,
                        ).dom().union(Self::opt_entries(vl).dom()));
                        if Self::opt_entries(vl).dom().contains(k) {
                            assert(v.entries().dom().contains(k));
                            assert(k < vk);
                        } else {
                            assert(Self::opt_entries(ur).dom().contains(k));
                            assert(u.entries().dom().contains(k));
                            assert(Self::opt_entries(a).dom().contains(k));
                            assert(Self::opt_entries(b).dom().contains(vk));
                            assert(k < vk);
                        }
                    }
                    assert(mk > uk && mk < vk) by {
                        assert(mn.entries().dom().contains(mk));
                        assert(Self::opt_entries(Some(mn)).dom() =~= Self::opt_entries(
                            ur,
                        ).dom().union(Self::opt_entries(vl).dom()));
                        if Self::opt_entries(ur).dom().contains(mk) {
                            assert(u.entries().dom().contains(mk));
                            assert(Self::opt_entries(a).dom().contains(mk));
                            assert(Self::opt_entries(b).dom().contains(vk));
                        } else {
                            assert(Self::opt_entries(vl).dom().contains(mk));
                            assert(v.entries().dom().contains(mk));
                            assert(Self::opt_entries(b).dom().contains(mk));
                            assert(Self::opt_entries(a).dom().contains(uk));
                        }
                    }
                    assert(nl.ordered());
                    assert(nr.ordered());
                    assert(nl.colors_ok());
                    assert(nr.colors_ok());
                    assert forall|k: u64|
                        Self::opt_entries(Some(nl)).dom().contains(k) implies k < mk by {
                        assert(nl.entries().dom() =~= Self::opt_entries(ul).dom().union(
                            Self::opt_entries(m1).dom(),
                        ).insert(uk));
                        if Self::opt_entries(ul).dom().contains(k) {
                            assert(k < uk);
                            assert(uk < mk);
                        }
                    }
                    assert forall|k: u64|
                        Self::opt_entries(Some(nr)).dom().contains(k) implies k > mk by {
                        assert(nr.entries().dom() =~= Self::opt_entries(m2).dom().union(
                            Self::opt_entries(vr).dom(),
                        ).insert(vk));
                        if Self::opt_entries(vr).dom().contains(k) {
                            assert(k > vk);
                            assert(mk < vk);
                        }
                    }
                    assert(t.ordered());
                    assert(t.colors_ok());
                    assert(t.kids_ok());
                    assert(Self::opt_entries(Some(mn)) == Self::opt_entries(
                        ur,
                    ).union_prefer_right(Self::opt_entries(vl)));
                    assert(Self::opt_entries(Some(nl)) == nl.entries());
                    assert(Self::opt_entries(Some(nr)) == nr.entries());
                    assert(t.entries() == Self::opt_entries(Some(nl)).union_prefer_right(
                        Self::opt_entries(Some(nr)),
                    ).insert(mk, mv));
                    Self::lemma_rot_union(
                        Self::opt_entries(ul),
                        uk,
                        uv,
                        Self::opt_entries(ur),
                        Self::opt_entries(vl),
                        vk,
                        vv,
                        Self::opt_entries(vr),
                        Self::opt_entries(m1),
                        mk,
                        mv,
                        Self::opt_entries(m2),
                    );
                    assert(t.entries() =~= Self::opt_entries(a).union_prefer_right(
                        Self::opt_entries(b),
                    ));
                    assert(Self::bh(Some(nl)) == Self::bh(ul) + 1);
                    assert(Self::bh(Some(nr)) == Self::bh(m2) + 1);
                    assert(Self::bh(Some(t)) == Self::bh(Some(nl)));
                    assert(Self::bh_ok(Some(nl)));
                    assert(Self::bh_ok(Some(nr)));
                    assert(Self::bh_ok(Some(t)));
                }
                Some(t)
            } else {
                let nr = Box::new(
                    RBNode { color: Color::Black, key: vk, value: vv, left: m, right: vr },
                );
                proof {
                    assert(nr.entries() == Self::opt_entries(m).union_prefer_right(
                        Self::opt_entries(vr),
                    ).insert(vk, vv));
                    assert(Self::opt_colors_ok(m)) by {
                        match m {
                            Some(mn) => {
                                assert(mn.kids_ok());
                            },
                            None => {},
                        }
                    }
                    assert forall|k: u64|
                        Self::opt_entries(m).dom().contains(k) implies uk < k && k < vk by {
                        assert(Self::opt_entries(m).dom() =~= Self::opt_entries(
                            ur,
                        ).dom().union(Self::opt_entries(vl).dom()));
                        if Self::opt_entries(ur).dom().contains(k) {
                            assert(u.entries().dom().contains(k));
                            assert(Self::opt_entries(a).dom().contains(k));
                            assert(Self::opt_entries(b).dom().contains(vk));
                            assert(k > uk);
                            assert(k < vk);
                        } else {
                            assert(Self::opt_entries(vl).dom().contains(k));
                            assert(v.entries().dom().contains(k));
                            assert(Self::opt_entries(b).dom().contains(k));
                            assert(Self::opt_entries(a).dom().contains(uk));
                            assert(k > uk);
                            assert(k < vk);
                        }
                    }
                    assert(nr.ordered());
                    assert(nr.colors_ok());
                    assert(Self::bh(Some(nr)) == Self::bh(m) + 1);
                    assert(Self::bh_ok(Some(nr)));
                    assert forall|k: u64|
                        Self::opt_entries(ul).dom().contains(k) implies k < uk by {
                        assert(u.entries().dom().contains(k));
                    }
                    assert forall|k: u64|
                        nr.entries().dom().contains(k) implies k > uk by {
                        assert(nr.entries().dom() =~= Self::opt_entries(m).dom().union(
                            Self::opt_entries(vr).dom(),
                        ).insert(vk));
                        if Self::opt_entries(vr).dom().contains(k) {
                            assert(k > vk);
                        }
                    }
                }
                let t = Self::bald_l(ul, uk, uv, nr);
                proof {
                    assert(t.entries() =~= Self::opt_entries(a).union_prefer_right(
                        Self::opt_entries(b),
                    ));
                    assert(t.colors_ok());
                    assert(Self::opt_colors_ok(Some(t)));
                }
                Some(t)
            }
        } else if vc == Color::Red {
            // Left Black-rooted, right Red: hang the join on the right root.
            proof {
                assert(Self::bh(b) == Self::bh(vl));
                assert(Self::color_of(vl) == Color::Black);
                assert forall|ka: u64, kb: u64|
                    Self::opt_entries(a).dom().contains(ka) && Self::opt_entries(
                        vl,
                    ).dom().contains(kb) implies ka < kb by {
                    assert(v.entries().dom().contains(kb));
                }
            }
            let a2 = Some(Box::new(RBNode { color: uc, key: uk, value: uv, left: ul, right: ur }));
            proof {
                assert(a2 == a);
            }
            let m = Self::join_trees(a2, vl);
            let t = Box::new(
                RBNode { color: Color::Red, key: vk, value: vv, left: m, right: vr },
            );
            proof {
                assert(t.entries() == Self::opt_entries(m).union_prefer_right(
                    Self::opt_entries(vr),
                ).insert(vk, vv));
                assert(Self::opt_colors_ok(m));
                assert forall|k: u64|
                    Self::opt_entries(m).dom().contains(k) implies k < vk by {
                    assert(Self::opt_entries(m).dom() =~= Self::opt_entries(a).dom().union(
                        Self::opt_entries(vl).dom(),
                    ));
                    if Self::opt_entries(a).dom().contains(k) {
                        assert(v.entries().dom().contains(vk));
                        assert(k < vk);
                    } else {
                        assert(Self::opt_entries(vl).dom().contains(k));
                    }
                }
                assert(t.ordered());
                assert(t.kids_ok());
                assert(t.entries() =~= Self::opt_entries(a).union_prefer_right(
                    Self::opt_entries(b),
                ));
                assert(Self::bh(Some(t)) == Self::bh(m));
                assert(Self::bh_ok(Some(t)));
            }
            Some(t)
        } else {
            // Left Red-rooted, right Black: hang the join on the left root.
            proof {
                assert(Self::bh(a) == Self::bh(ur));
                assert(Self::color_of(ur) == Color::Black);
                assert forall|ka: u64, kb: u64|
                    Self::opt_entries(ur).dom().contains(ka) && Self::opt_entries(
                        b,
                    ).dom().contains(kb) implies ka < kb by {
                    assert(u.entries().dom().contains(ka));
                }
            }
            let b2 = Some(Box::new(RBNode { color: vc, key: vk, value: vv, left: vl, right: vr }));
            proof {
                assert(b2 == b);
            }
            let m = Self::join_trees(ur, b2);
            let t = Box::new(
                RBNode { color: Color::Red, key: uk, value: uv, left: ul, right: m },
            );
            proof {
                assert(t.entries() == Self::opt_entries(ul).union_prefer_right(
                    Self::opt_entries(m),
                ).insert(uk, uv));
                assert(Self::opt_colors_ok(m));
                assert forall|k: u64|
                    Self::opt_entries(m).dom().contains(k) implies k > uk by {
                    assert(Self::opt_entries(m).dom() =~= Self::opt_entries(ur).dom().union(
                        Self::opt_entries(b).dom(),
                    ));
                    if Self::opt_entries(b).dom().contains(k) {
                        assert(u.entries().dom().contains(uk));
                        assert(k > uk);
                    } else {
                        assert(Self::opt_entries(ur).dom().contains(k));
                    }
                }
                assert(t.ordered());
                assert(t.kids_ok());
                assert(t.entries() =~= Self::opt_entries(a).union_prefer_right(
                    Self::opt_entries(b),
                ));
                assert(Self::bh(Some(t)) == Self::bh(ul));
                assert(Self::bh_ok(Some(t)));
            }
            Some(t)
        }
    }

    /// Remove a key, rebalancing out of the recursion. A Red subtree comes
    /// back with its Black count intact; a Black one comes back one short,
    /// for its caller to repair.
    fn del(o: Option<Box<RBNode<V>>>, key: u64) -> (r: (Option<Box<RBNode<V>>>, Option<V>))
        requires
            Self::opt_ordered(o),
            Self::opt_colors_ok(o),
            Self::bh_ok(o),
        ensures
            Self::opt_ordered(r.0),
            Self::opt_entries(r.0) == Self::opt_entries(o).remove(key),
            r.1 == if Self::opt_entries(o).dom().contains(key) {
                Some(Self::opt_entries(o)[key])
            } else {
                None::<V>
            },
            Self::bh_ok(r.0),
            Self::opt_kids_ok(r.0),
            Self::color_of(o) == Color::Red ==> Self::bh(r.0) == Self::bh(o)
                && Self::opt_colors_ok(r.0),
            (o is Some && Self::color_of(o) == Color::Black) ==> Self::bh(r.0) + 1 == Self::bh(
                o,
            ),
            o is None ==> r.0 is None,
        decreases o,
    {
        match o {
            None => {
                proof {
                    assert(Self::opt_entries(o).remove(key) =~= Self::opt_entries(o));
                }
                (None, None)
            },
            Some(n) => {
                let RBNode { color: nc, key: nk, value: nv, left, right } = *n;
                proof {
                    assert(n.colors_ok());
                    assert(Self::opt_entries(o) == Self::opt_entries(left).union_prefer_right(
                        Self::opt_entries(right),
                    ).insert(nk, nv));
                    assert(Self::opt_entries(o).dom() =~= Self::opt_entries(left).dom().union(
                        Self::opt_entries(right).dom(),
                    ).insert(nk));
                    assert(Self::opt_ordered(left) && Self::opt_ordered(right));
                    assert(Self::opt_colors_ok(left) && Self::opt_colors_ok(right));
                    assert(Self::bh_ok(left) && Self::bh_ok(right));
                    assert(Self::bh(left) == Self::bh(right));
                }
                if key < nk {
                    let l_black_node = match &left {
                        Some(ln) => ln.color == Color::Black,
                        None => false,
                    };
                    proof {
                        assert(!Self::opt_entries(right).dom().contains(key));
                    }
                    let (dl, v) = Self::del(left, key);
                    proof {
                        assert forall|k: u64|
                            Self::opt_entries(dl).dom().contains(k) implies k < nk by {
                            assert(Self::opt_entries(left).dom().contains(k));
                        }
                        assert forall|k: u64|
                            Self::opt_entries(right).dom().contains(k) implies k > nk by {}
                    }
                    if l_black_node {
                        proof {
                            assert(Self::bh(dl) + 1 == Self::bh(left));
                            assert(Self::bh(right) >= 1);
                            Self::lemma_bh_pos_nonempty(right);
                        }
                        let rn = right.unwrap();
                        proof {
                            assert(rn.ordered());
                            assert(rn.colors_ok());
                            assert forall|k: u64|
                                rn.entries().dom().contains(k) implies k > nk by {
                                assert(Self::opt_entries(right).dom().contains(k));
                            }
                            if nc == Color::Red {
                                assert(rn.color == Color::Black);
                            }
                        }
                        let t = Self::bald_l(dl, nk, nv, rn);
                        proof {
                            assert(t.entries() =~= Self::opt_entries(o).remove(key));
                            assert(Self::bh(Some(t)) == Self::bh(right));
                            if nc == Color::Red {
                                assert(t.colors_ok());
                            }
                        }
                        (Some(t), v)
                    } else {
                        // The left subtree was empty or Red-rooted: its
                        // Black count is unchanged; rebuild a Red node.
                        let t = Box::new(
                            RBNode {
                                color: Color::Red,
                                key: nk,
                                value: nv,
                                left: dl,
                                right,
                            },
                        );
                        proof {
                            if left is Some {
                                assert(Self::color_of(left) == Color::Red);
                                assert(Self::bh(dl) == Self::bh(left));
                                assert(Self::opt_colors_ok(dl));
                            } else {
                                assert(dl is None);
                            }
                            assert(t.ordered());
                            assert(t.kids_ok());
                            assert(t.entries() =~= Self::opt_entries(o).remove(key));
                            assert(Self::bh(Some(t)) == Self::bh(dl));
                            assert(Self::bh_ok(Some(t)));
                            if nc == Color::Red {
                                assert(Self::color_of(left) == Color::Black);
                                assert(left is None);
                                assert(Self::bh(left) == 0 && Self::bh(right) == 0);
                                assert(Self::color_of(right) == Color::Black);
                                if right is Some {
                                    assert(Self::bh(right) >= 1);
                                }
                                assert(right is None);
                                assert(t.colors_ok());
                            }
                        }
                        (Some(t), v)
                    }
                } else if key > nk {
                    let r_black_node = match &right {
                        Some(rn) => rn.color == Color::Black,
                        None => false,
                    };
                    proof {
                        assert(!Self::opt_entries(left).dom().contains(key));
                    }
                    let (dr, v) = Self::del(right, key);
                    proof {
                        assert forall|k: u64|
                            Self::opt_entries(dr).dom().contains(k) implies k > nk by {
                            assert(Self::opt_entries(right).dom().contains(k));
                        }
                    }
                    if r_black_node {
                        proof {
                            assert(Self::bh(dr) + 1 == Self::bh(right));
                            assert(Self::bh(left) >= 1);
                            Self::lemma_bh_pos_nonempty(left);
                        }
                        let ln = left.unwrap();
                        proof {
                            assert(ln.ordered());
                            assert(ln.colors_ok());
                            assert forall|k: u64|
                                ln.entries().dom().contains(k) implies k < nk by {
                                assert(Self::opt_entries(left).dom().contains(k));
                            }
                            if nc == Color::Red {
                                assert(ln.color == Color::Black);
                            }
                        }
                        let t = Self::bald_r(ln, nk, nv, dr);
                        proof {
                            assert(t.entries() =~= Self::opt_entries(o).remove(key));
                            assert(Self::bh(Some(t)) == Self::bh(left));
                            if nc == Color::Red {
                                assert(t.colors_ok());
                            }
                        }
                        (Some(t), v)
                    } else {
                        let t = Box::new(
                            RBNode {
                                color: Color::Red,
                                key: nk,
                                value: nv,
                                left,
                                right: dr,
                            },
                        );
                        proof {
                            if right is Some {
                                assert(Self::color_of(right) == Color::Red);
                                assert(Self::bh(dr) == Self::bh(right));
                                assert(Self::opt_colors_ok(dr));
                            } else {
                                assert(dr is None);
                            }
                            assert(t.ordered());
                            assert(t.kids_ok());
                            assert(t.entries() =~= Self::opt_entries(o).remove(key));
                            assert(Self::bh(Some(t)) == Self::bh(left));
                            assert(Self::bh_ok(Some(t)));
                            if nc == Color::Red {
                                assert(Self::color_of(right) == Color::Black);
                                assert(right is None);
                                assert(Self::bh(left) == 0);
                                assert(Self::color_of(left) == Color::Black);
                                if left is Some {
                                    assert(Self::bh(left) >= 1);
                                }
                                assert(left is None);
                                assert(t.colors_ok());
                            }
                        }
                        (Some(t), v)
                    }
                } else {
                    proof {
                        assert(!Self::opt_entries(left).dom().contains(nk));
                        assert(!Self::opt_entries(right).dom().contains(nk));
                        assert forall|ka: u64, kb: u64|
                            Self::opt_entries(left).dom().contains(ka) && Self::opt_entries(
                                right,
                            ).dom().contains(kb) implies ka < kb by {
                            assert(ka < nk);
                            assert(kb > nk);
                        }
                        if nc == Color::Red {
                            assert(Self::color_of(left) == Color::Black);
                            assert(Self::color_of(right) == Color::Black);
                        }
                    }
                    let j = Self::join_trees(left, right);
                    proof {
                        assert(Self::opt_entries(j) =~= Self::opt_entries(o).remove(nk));
                        assert(Self::bh(j) == Self::bh(left));
                    }
                    (j, Some(nv))
                }
            },
        }
    }

    /// Check the colour rule: no Red node with a Red child.
    fn check_colors(o: &Option<Box<RBNode<V>>>) -> (r: bool)
        ensures
            r == Self::opt_colors_ok(*o),
        decreases *o,
    {
        match o {
            None => true,
            Some(n) => {
                let local = if n.color == Color::Red {
                    let left_black = match &n.left {
                        Some(l) => l.color == Color::Black,
                        None => true,
                    };
                    let right_black = match &n.right {
                        Some(r) => r.color == Color::Black,
                        None => true,
                    };
                    left_black && right_black
                } else {
                    true
                };
                let ok = local && Self::check_colors(&n.left) && Self::check_colors(&n.right);
                proof {
                    if ok {
                        assert(n.colors_ok());
                    } else {
                        assert(!n.colors_ok());
                    }
                }
                ok
            },
        }
    }

    /// Check the Black count rule, reporting the common count; `None` when
    /// two paths disagree, or on a count too large to represent.
    fn check_bh(o: &Option<Box<RBNode<V>>>) -> (r: Option<u64>)
        ensures
            match r {
                Some(h) => Self::bh_ok(*o) && h == Self::bh(*o),
                None => !(Self::bh_ok(*o) && Self::bh(*o) <= u64::MAX),
            },
        decreases *o,
    {
        match o {
            None => Some(0),
            Some(n) => {
                let hl = match Self::check_bh(&n.left) {
                    Some(h) => h,
                    None => {
                        proof {
                            if Self::bh_ok(*o) && Self::bh(*o) <= u64::MAX {
                                assert(Self::bh_ok(n.left));
                                assert(Self::bh(n.left) <= Self::bh(*o));
                            }
                        }
                        return None;
                    },
                };
                let hr = match Self::check_bh(&n.right) {
                    Some(h) => h,
                    None => {
                        proof {
                            if Self::bh_ok(*o) && Self::bh(*o) <= u64::MAX {
                                assert(Self::bh_ok(n.right));
                                assert(Self::bh(n.right) == Self::bh(n.left));
                                assert(Self::bh(n.left) <= Self::bh(*o));
                            }
                        }
                        return None;
                    },
                };
                if hl != hr {
                    return None;
                }
                if n.color == Color::Black {
                    if hl == u64::MAX {
                        proof {
                            assert(Self::bh(*o) == Self::bh(n.left) + 1);
                        }
                        return None;
                    }
                    Some(hl + 1)
                } else {
                    Some(hl)
                }
            },
        }
    }

    /// A tree's height is strictly below its node count.
    proof fn lemma_height_below_count(o: Option<Box<RBNode<V>>>)
        ensures
            Self::opt_height(o) < Self::opt_count(o),
        decreases o,
    {
        match o {
            None => {},
            Some(n) => {
                Self::lemma_height_below_count(n.left);
                Self::lemma_height_below_count(n.right);
            },
        }
    }

    /// The Black count never exceeds the node count.
    proof fn lemma_bh_below_count(o: Option<Box<RBNode<V>>>)
        ensures
            Self::bh(o) <= Self::opt_count(o),
        decreases o,
    {
        match o {
            None => {},
            Some(n) => {
                Self::lemma_bh_below_count(n.left);
                Self::lemma_bh_below_count(n.right);
            },
        }
    }

    /// A height is never below -1, the height of an absent subtree.
    proof fn lemma_height_bounds(o: Option<Box<RBNode<V>>>)
        ensures
            Self::opt_height(o) >= -1,
        decreases o,
    {
        match o {
            None => {},
            Some(n) => {
                Self::lemma_height_bounds(n.left);
                Self::lemma_height_bounds(n.right);
            },
        }
    }

    /// Powers of two never shrink.
    proof fn lemma_pow2_le(a: nat, b: nat)
        requires
            a <= b,
        ensures
            pow2(a) <= pow2(b),
    {
        if a < b {
            vstd::arithmetic::power2::lemma_pow2_strictly_increases(a, b);
        }
    }

    /// A subtree with Black count `c` holds at least `2^c - 1` nodes.
    proof fn lemma_bh_size(o: Option<Box<RBNode<V>>>)
        requires
            Self::bh_ok(o),
        ensures
            pow2(Self::bh(o)) <= Self::opt_count(o) + 1,
        decreases o,
    {
        vstd::arithmetic::power2::lemma2_to64();
        match o {
            None => {
            },
            Some(n) => {
                Self::lemma_bh_size(n.left);
                Self::lemma_bh_size(n.right);
                if n.color == Color::Black {
                    vstd::arithmetic::power2::lemma_pow2_unfold(Self::bh(o));
                }
            },
        }
    }

    /// Under the colour rules the height is below twice the Black count:
    /// at least every other node on a downward path is Black.
    proof fn lemma_height_vs_bh(o: Option<Box<RBNode<V>>>)
        requires
            Self::opt_colors_ok(o),
            Self::bh_ok(o),
        ensures
            Self::color_of(o) == Color::Black ==> Self::opt_height(o) + 1 <= 2 * Self::bh(o),
            Self::opt_height(o) + 1 <= 2 * Self::bh(o) + 1,
        decreases o,
    {
        match o {
            None => {
            },
            Some(n) => {
                Self::lemma_height_vs_bh(n.left);
                Self::lemma_height_vs_bh(n.right);
                if n.color == Color::Red {
                    assert(Self::color_of(n.left) == Color::Black);
                    assert(Self::color_of(n.right) == Color::Black);
                }
            },
        }
    }

    /// On an ordered tree the stored pairs are as many as the nodes, and the
    /// key set is finite.
    proof fn lemma_count_entries(o: Option<Box<RBNode<V>>>)
        requires
            Self::opt_ordered(o),
        ensures
            Self::opt_entries(o).dom().finite(),
            Self::opt_entries(o).dom().len() == Self::opt_count(o),
        decreases o,
    {
        broadcast use vstd::set_lib::lemma_set_disjoint_lens;

        match o {
            None => {
                assert(Self::opt_entries(o).dom() =~= Set::<u64>::empty());
            },
            Some(n) => {
                Self::lemma_count_entries(n.left);
                Self::lemma_count_entries(n.right);
                let dl = Self::opt_entries(n.left).dom();
                let dr = Self::opt_entries(n.right).dom();
                assert(Self::opt_entries(o).dom() =~= (dl + dr).insert(n.key));
                assert(dl.disjoint(dr));
                assert(!(dl + dr).contains(n.key));
            },
        }
    }

    /// Compute the height of a subtree.
    fn calc_height(o: &Option<Box<RBNode<V>>>) -> (h: usize)
        requires
            Self::opt_count(*o) <= usize::MAX,
        ensures
            h == Self::opt_height(*o) + 1,
        decreases *o,
    {
        match o {
            None => 0,
            Some(n) => {
                proof {
                    Self::lemma_height_below_count(n.left);
                    Self::lemma_height_below_count(n.right);
                }
                let hl = Self::calc_height(&n.left);
                let hr = Self::calc_height(&n.right);
                1 + if hl >= hr {
                    hl
                } else {
                    hr
                }
            },
        }
    }

    fn get_opt<'a>(o: &'a Option<Box<RBNode<V>>>, key: u64) -> (r: Option<&'a V>)
        requires
            Self::opt_ordered(*o),
        ensures
            match r {
                Some(v) => Self::opt_entries(*o).dom().contains(key) && *v == Self::opt_entries(
                    *o,
                )[key],
                None => !Self::opt_entries(*o).dom().contains(key),
            },
        decreases *o,
    {
        match o {
            None => None,
            Some(n) => {
                if key == n.key {
                    Some(&n.value)
                } else if key < n.key {
                    proof {
                        assert(!Self::opt_entries(n.right).dom().contains(key));
                    }
                    Self::get_opt(&n.left, key)
                } else {
                    proof {
                        assert(!Self::opt_entries(n.left).dom().contains(key));
                    }
                    Self::get_opt(&n.right, key)
                }
            },
        }
    }

    fn get_mut_opt<'a>(o: &'a mut Option<Box<RBNode<V>>>, key: u64) -> (r: Option<
        &'a mut V,
    >)
        requires
            Self::opt_ordered(*old(o)),
            Self::opt_colors_ok(*old(o)),
            Self::bh_ok(*old(o)),
        ensures
            Self::opt_ordered(*final(o)),
            Self::opt_colors_ok(*final(o)),
            Self::bh_ok(*final(o)),
            Self::bh(*final(o)) == Self::bh(*old(o)),
            Self::color_of(*final(o)) == Self::color_of(*old(o)),
            Self::opt_count(*final(o)) == Self::opt_count(*old(o)),
            match r {
                Some(v) => Self::opt_entries(*old(o)).dom().contains(key) && *v
                    == Self::opt_entries(*old(o))[key] && Self::opt_entries(*final(o))
                    == Self::opt_entries(*old(o)).insert(key, *final(v)),
                None => !Self::opt_entries(*old(o)).dom().contains(key) && *final(o) == *old(
                    o,
                ),
            },
        decreases *old(o),
    {
        match o {
            None => None,
            Some(n) => {
                if key == n.key {
                    proof {
                        assert(!Self::opt_entries(n.left).dom().contains(key));
                        assert(!Self::opt_entries(n.right).dom().contains(key));
                    }
                    Some(&mut n.value)
                } else if key < n.key {
                    proof {
                        assert(!Self::opt_entries(n.right).dom().contains(key));
                    }
                    Self::get_mut_opt(&mut n.left, key)
                } else {
                    proof {
                        assert(!Self::opt_entries(n.left).dom().contains(key));
                    }
                    Self::get_mut_opt(&mut n.right, key)
                }
            },
        }
    }

    fn modify_opt(o: &mut Option<Box<RBNode<V>>>, key: u64, value: V) -> (hit: bool)
        requires
            Self::opt_ordered(*old(o)),
            Self::opt_colors_ok(*old(o)),
            Self::bh_ok(*old(o)),
        ensures
            Self::opt_ordered(*final(o)),
            Self::opt_colors_ok(*final(o)),
            Self::bh_ok(*final(o)),
            Self::bh(*final(o)) == Self::bh(*old(o)),
            Self::color_of(*final(o)) == Self::color_of(*old(o)),
            hit == Self::opt_entries(*old(o)).dom().contains(key),
            Self::opt_entries(*final(o)) == if hit {
                Self::opt_entries(*old(o)).insert(key, value)
            } else {
                Self::opt_entries(*old(o))
            },
        decreases *old(o),
    {
        match o.take() {
            None => false,
            Some(mut n) => {
                let hit;
                if key == n.key {
                    (&mut *n).value = value;
                    hit = true;
                    proof {
                        assert(!Self::opt_entries(n.left).dom().contains(key));
                        assert(!Self::opt_entries(n.right).dom().contains(key));
                        assert(n.entries() =~= old(o)->Some_0.entries().insert(key, value));
                        assert(n.colors_ok());
                    }
                } else if key < n.key {
                    hit = Self::modify_opt(&mut (&mut *n).left, key, value);
                    proof {
                        assert(!Self::opt_entries(n.right).dom().contains(key));
                        if hit {
                            assert(n.entries() =~= old(o)->Some_0.entries().insert(key, value));
                        } else {
                            assert(n.entries() =~= old(o)->Some_0.entries());
                        }
                        assert(n.colors_ok());
                    }
                } else {
                    hit = Self::modify_opt(&mut (&mut *n).right, key, value);
                    proof {
                        assert(!Self::opt_entries(n.left).dom().contains(key));
                        if hit {
                            assert(n.entries() =~= old(o)->Some_0.entries().insert(key, value));
                        } else {
                            assert(n.entries() =~= old(o)->Some_0.entries());
                        }
                        assert(n.colors_ok());
                    }
                }
                *o = Some(n);
                hit
            },
        }
    }

    /// All keys of the subtree lie strictly inside the given bounds.
    pub closed spec fn opt_bounded(
        o: Option<Box<RBNode<V>>>,
        lo: Option<u64>,
        hi: Option<u64>,
    ) -> bool {
        forall|k: u64|
            Self::opt_entries(o).dom().contains(k) ==> (match lo {
                Some(l) => l < k,
                None => true,
            } && match hi {
                Some(h) => k < h,
                None => true,
            })
    }

    /// Check search-tree order within an open interval, each bound optional.
    fn check_range(o: &Option<Box<RBNode<V>>>, lo: Option<u64>, hi: Option<u64>) -> (r: bool)
        ensures
            r == (Self::opt_ordered(*o) && Self::opt_bounded(*o, lo, hi)),
        decreases *o,
    {
        match o {
            None => {
                proof {
                    assert(Self::opt_entries(*o).dom() =~= Set::<u64>::empty());
                }
                true
            },
            Some(n) => {
                let lo_ok = match lo {
                    Some(l) => l < n.key,
                    None => true,
                };
                let hi_ok = match hi {
                    Some(h) => n.key < h,
                    None => true,
                };
                if !lo_ok || !hi_ok {
                    proof {
                        assert(Self::opt_entries(*o).dom().contains(n.key));
                    }
                    false
                } else {
                    let left_ok = Self::check_range(&n.left, lo, Some(n.key));
                    let right_ok = Self::check_range(&n.right, Some(n.key), hi);
                    proof {
                        assert(Self::opt_entries(*o).dom() =~= Self::opt_entries(
                            n.left,
                        ).dom().union(Self::opt_entries(n.right).dom()).insert(n.key));
                        if left_ok && right_ok {
                            assert(forall|k: u64|
                                Self::opt_entries(n.left).dom().contains(k) ==> k < n.key);
                            assert(forall|k: u64|
                                Self::opt_entries(n.right).dom().contains(k) ==> k > n.key);
                            assert(n.ordered());
                            assert(Self::opt_bounded(*o, lo, hi));
                        } else {
                            assert(!(Self::opt_ordered(*o) && Self::opt_bounded(*o, lo, hi)))
                                by {
                                if Self::opt_ordered(*o) && Self::opt_bounded(*o, lo, hi) {
                                    assert forall|k: u64|
                                        Self::opt_entries(n.left).dom().contains(k) implies (
                                    match lo {
                                        Some(l) => l < k,
                                        None => true,
                                    } && k < n.key) by {
                                        assert(Self::opt_entries(*o).dom().contains(k));
                                    }
                                    assert(Self::opt_bounded(n.left, lo, Some(n.key)));
                                    assert forall|k: u64|
                                        Self::opt_entries(n.right).dom().contains(k) implies (
                                    n.key < k && match hi {
                                        Some(h) => k < h,
                                        None => true,
                                    }) by {
                                        assert(Self::opt_entries(*o).dom().contains(k));
                                    }
                                    assert(Self::opt_bounded(n.right, Some(n.key), hi));
                                    assert(false);
                                }
                            }
                        }
                    }
                    left_ok && right_ok
                }
            },
        }
    }

    /// Push the subtree's keys, in order, onto the end of a vector.
    fn push_keys(o: &Option<Box<RBNode<V>>>, out: &mut Vec<u64>)
        ensures
            final(out)@ == old(out)@ + Self::opt_key_seq(*o),
        decreases *o,
    {
        match o {
            None => {
                proof {
                    assert(out@ =~= old(out)@ + Self::opt_key_seq(*o));
                }
            },
            Some(n) => {
                Self::push_keys(&n.left, out);
                out.push(n.key);
                Self::push_keys(&n.right, out);
                proof {
                    assert(out@ =~= old(out)@ + Self::opt_key_seq(*o));
                }
            },
        }
    }

    /// An ordered walk visits strictly increasing keys: exactly the key set,
    /// each key once.
    proof fn lemma_walk(o: Option<Box<RBNode<V>>>)
        requires
            Self::opt_ordered(o),
        ensures
            crate::laws::strictly_increasing(Self::opt_key_seq(o)),
            Self::opt_key_seq(o).to_set() =~= Self::opt_entries(o).dom(),
        decreases o,
    {
        match o {
            None => {
                assert(Self::opt_key_seq(o).to_set() =~= Self::opt_entries(o).dom()) by {
                    assert(forall|k: u64| !Self::opt_key_seq(o).contains(k));
                    assert(Self::opt_entries(o).dom() =~= Set::<u64>::empty());
                }
            },
            Some(n) => {
                Self::lemma_walk(n.left);
                Self::lemma_walk(n.right);
                let l = Self::opt_key_seq(n.left);
                let r = Self::opt_key_seq(n.right);
                let s = Self::opt_key_seq(o);
                let ll = l.len() as int;
                assert(s == l + seq![n.key] + r);
                assert(Self::opt_entries(o).dom() =~= Self::opt_entries(n.left).dom().union(
                    Self::opt_entries(n.right).dom(),
                ).insert(n.key));
                assert forall|k: u64| s.contains(k) implies Self::opt_entries(o).dom().contains(
                    k,
                ) by {
                    let i = choose|i: int| 0 <= i < s.len() && s[i] == k;
                    if i < ll {
                        assert(l[i] == k);
                        assert(l.contains(k));
                        assert(l.to_set().contains(k));
                    } else if i == ll {
                        assert(k == n.key);
                    } else {
                        assert(r[i - ll - 1] == k);
                        assert(r.contains(k));
                        assert(r.to_set().contains(k));
                    }
                }
                assert forall|k: u64| Self::opt_entries(o).dom().contains(k) implies s.contains(
                    k,
                ) by {
                    if Self::opt_entries(n.left).dom().contains(k) {
                        assert(l.to_set().contains(k));
                        let i = choose|i: int| 0 <= i < l.len() && l[i] == k;
                        assert(s[i] == k);
                    } else if k == n.key {
                        assert(s[ll] == k);
                    } else {
                        assert(r.to_set().contains(k));
                        let i = choose|i: int| 0 <= i < r.len() && r[i] == k;
                        assert(s[ll + 1 + i] == k);
                    }
                }
                assert(s.to_set() =~= Self::opt_entries(o).dom());
                assert forall|i: int, j: int| 0 <= i < j < s.len() implies s[i] < s[j] by {
                    if i < ll {
                        assert(s[i] == l[i]);
                        assert(l.contains(l[i]));
                        assert(l.to_set().contains(l[i]));
                    }
                    if j > ll {
                        assert(s[j] == r[j - ll - 1]);
                        assert(r.contains(r[j - ll - 1]));
                        assert(r.to_set().contains(r[j - ll - 1]));
                    }
                    if i == ll {
                        assert(s[i] == n.key);
                    }
                    if j == ll {
                        assert(s[j] == n.key);
                    }
                }
            },
        }
    }
}

impl<V> RB<V> {
    /// Structural well-formedness: search-tree order and the three colour
    /// rules — Black root, no Red-Red edge, equal Black counts — plus a
    /// machine bound on the node count.
    pub closed spec fn wf(self) -> bool {
        &&& RBNode::opt_ordered(self.root)
        &&& RBNode::opt_colors_ok(self.root)
        &&& RBNode::bh_ok(self.root)
        &&& RBNode::color_of(self.root) == Color::Black
        &&& RBNode::opt_count(self.root) <= usize::MAX
    }

    /// The shape invariants alone: what the validator examines.
    pub closed spec fn shape_ok(self) -> bool {
        &&& RBNode::opt_ordered(self.root)
        &&& RBNode::opt_colors_ok(self.root)
        &&& RBNode::bh_ok(self.root)
        &&& RBNode::color_of(self.root) == Color::Black
    }

    /// The Black count is small enough for the validator to measure.
    pub closed spec fn bh_small(self) -> bool {
        RBNode::bh(self.root) <= u64::MAX
    }

    /// The keys of an in-order walk of the whole tree.
    pub closed spec fn key_seq(self) -> Seq<u64> {
        RBNode::opt_key_seq(self.root)
    }

    /// The height of the tree: -1 when empty, 0 for a single node.
    pub closed spec fn height_of(self) -> int {
        RBNode::opt_height(self.root)
    }

    /// An empty tree.
    pub fn new() -> (t: Self)
        ensures
            t.wf(),
            t@ == Map::<u64, V>::empty(),
    {
        RB { root: None }
    }

    /// A well-formed tree always passes its own validation.
    pub proof fn lemma_wf_validates(self)
        requires
            self.wf(),
        ensures
            self.shape_ok(),
            self.bh_small(),
    {
        RBNode::lemma_bh_below_count(self.root);
    }

    /// Add `key -> value` unless the key is already present; report whether
    /// the pair was added. A present key keeps its old value.
    pub fn insert(&mut self, key: u64, value: V) -> (added: bool)
        requires
            old(self).wf(),
            old(self)@.dom().len() < usize::MAX,
        ensures
            final(self).wf(),
            added == !old(self)@.dom().contains(key),
            final(self)@ == if added {
                old(self)@.insert(key, value)
            } else {
                old(self)@
            },
    {
        let present = RBNode::get_opt(&self.root, key).is_some();
        if present {
            return false;
        }
        proof {
            RBNode::lemma_count_entries(self.root);
        }
        let root = self.root.take();
        let t = RBNode::ins(root, key, value);
        self.root = RBNode::make_black(Some(t));
        proof {
            RBNode::lemma_count_entries(self.root);
            assert(RBNode::opt_entries(self.root).dom() =~= old(self)@.dom().insert(key));
        }
        true
    }

    /// Take the pair under the key out of the tree and return its value.
    pub fn remove(&mut self, key: &u64) -> (r: Option<V>)
        requires
            old(self).wf(),
        ensures
            final(self).wf(),
            final(self)@ == old(self)@.remove(*key),
            r == if old(self)@.dom().contains(*key) {
                Some(old(self)@[*key])
            } else {
                None::<V>
            },
    {
        proof {
            RBNode::lemma_count_entries(self.root);
        }
        let root = self.root.take();
        let (t, r) = RBNode::del(root, *key);
        self.root = RBNode::make_black(t);
        proof {
            RBNode::lemma_count_entries(self.root);
            assert(RBNode::opt_entries(self.root).dom() =~= if old(self)@.dom().contains(
                *key,
            ) {
                old(self)@.dom().remove(*key)
            } else {
                old(self)@.dom()
            });
            if old(self)@.dom().contains(*key) {
                assert(old(self)@.dom().remove(*key).len() == old(self)@.dom().len() - 1);
            }
        }
        r
    }

    /// Look the key up.
    pub fn get(&self, key: &u64) -> (r: Option<&V>)
        requires
            self.wf(),
        ensures
            match r {
                Some(v) => self@.dom().contains(*key) && *v == self@[*key],
                None => !self@.dom().contains(*key),
            },
    {
        RBNode::get_opt(&self.root, *key)
    }

    /// Replace the value under a present key; report whether it was present.
    pub fn modify(&mut self, key: &u64, value: V) -> (hit: bool)
        requires
            old(self).wf(),
        ensures
            final(self).wf(),
            hit == old(self)@.dom().contains(*key),
            final(self)@ == if hit {
                old(self)@.insert(*key, value)
            } else {
                old(self)@
            },
    {
        proof {
            RBNode::lemma_count_entries(self.root);
        }
        let hit = RBNode::modify_opt(&mut self.root, *key, value);
        proof {
            RBNode::lemma_count_entries(self.root);
            if hit {
                assert(RBNode::opt_entries(self.root).dom() =~= old(self)@.dom());
            }
        }
        hit
    }

    /// Borrow the value under the key mutably; what the caller writes
    /// through the borrow is what the key maps to afterwards.
    pub fn get_mut<'a>(&'a mut self, key: &u64) -> (r: Option<&'a mut V>)
        requires
            old(self).wf(),
        ensures
            final(self).wf(),
            match r {
                Some(v) => old(self)@.dom().contains(*key) && *v == old(self)@[*key]
                    && final(self)@ == old(self)@.insert(*key, *final(v)),
                None => !old(self)@.dom().contains(*key) && final(self)@ == old(self)@,
            },
    {
        RBNode::get_mut_opt(&mut self.root, *key)
    }

    /// Walk the tree and report the first violated invariant, if any.
    pub fn self_validate(&self) -> (r: Result<(), InvariantError>)
        ensures
            r.is_ok() ==> self.shape_ok(),
            self.shape_ok() && self.bh_small() ==> r.is_ok(),
    {
        if !RBNode::check_range(&self.root, None, None) {
            return Err(InvariantError::BstOrder);
        }
        let root_black = match &self.root {
            None => true,
            Some(n) => n.color == Color::Black,
        };
        if !root_black {
            return Err(InvariantError::RedRoot);
        }
        if !RBNode::check_colors(&self.root) {
            return Err(InvariantError::RedRed);
        }
        match RBNode::check_bh(&self.root) {
            Some(_) => Ok(()),
            None => Err(InvariantError::BlackHeight),
        }
    }

    /// The height of the tree, absent when the tree is empty.
    pub fn height(&self) -> (h: Option<usize>)
        requires
            self.wf(),
        ensures
            h.is_none() <==> self.height_of() == -1,
            h.is_some() ==> h.unwrap() == self.height_of(),
    {
        let c = RBNode::calc_height(&self.root);
        if c == 0 {
            None
        } else {
            Some(c - 1)
        }
    }

    /// The keys in ascending order.
    pub fn keys_in_order(&self) -> (out: Vec<u64>)
        ensures
            out@ == self.key_seq(),
    {
        let mut out: Vec<u64> = Vec::new();
        RBNode::push_keys(&self.root, &mut out);
        proof {
            assert(out@ =~= self.key_seq());
        }
        out
    }

    /// BST order, proved of every well-formed tree: the in-order walk is
    /// strictly increasing, and it visits exactly the stored keys, each of
    /// them once.
    pub proof fn lemma_in_order(self)
        requires
            self.wf(),
        ensures
            crate::laws::strictly_increasing(self.key_seq()),
            self.key_seq().to_set() == self@.dom(),
    {
        RBNode::lemma_walk(self.root);
    }

    /// The colour rules keep the tree shallow: a tree of height `h` holds
    /// at least `2^((h+1)/2) - 1` pairs, so the height stays logarithmic in
    /// the number of pairs however the keys arrive.
    pub proof fn lemma_height_logarithmic(self)
        requires
            self.wf(),
        ensures
            pow2(((self.height_of() + 1) / 2) as nat) <= self@.dom().len() + 1,
    {
        RBNode::lemma_bh_size(self.root);
        RBNode::lemma_height_vs_bh(self.root);
        RBNode::lemma_count_entries(self.root);
        RBNode::lemma_height_bounds(self.root);
        assert(self.height_of() + 1 <= 2 * RBNode::bh(self.root));
        assert(((self.height_of() + 1) / 2) as nat <= RBNode::bh(self.root));
        RBNode::<V>::lemma_pow2_le(
            ((self.height_of() + 1) / 2) as nat,
            RBNode::bh(self.root),
        );
    }
}

impl<V> View for RB<V> {
    type V = Map<u64, V>;

    /// The abstract contents: a finite map from keys to values.
    closed spec fn view(&self) -> Map<u64, V> {
        RBNode::opt_entries(self.root)
    }
}

} // verus!
