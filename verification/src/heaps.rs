//! Plain priority queues over a sorted vector, viewed as multisets: a
//! min-heap, and two "dictionary heap" fronts that take and ignore a key so
//! that they can stand in for a keyed heap. They serve as reference oracles
//! for the treap's heap behaviour.

use vstd::prelude::*;
use vstd::multiset::Multiset;

verus! {

/// A min-heap of machine words: `pop` yields the smallest entry.
pub struct MinHeap {
    /// Sorted in non-increasing order, the minimum at the end.
    items: Vec<u64>,
}

/// A min-heap that accepts and ignores a key with each entry.
pub struct MinDictHeap {
    /// Sorted in non-increasing order, the minimum at the end.
    items: Vec<u64>,
}

/// A max-heap that accepts and ignores a key with each entry.
pub struct MaxDictHeap {
    /// Sorted in non-decreasing order, the maximum at the end.
    items: Vec<u64>,
}

/// Non-increasing order: each entry at least the next one.
pub open spec fn sorted_desc(s: Seq<u64>) -> bool {
    forall|i: int, j: int| 0 <= i < j < s.len() ==> s[i] >= s[j]
}

/// Non-decreasing order: each entry at most the next one.
pub open spec fn sorted_asc(s: Seq<u64>) -> bool {
    forall|i: int, j: int| 0 <= i < j < s.len() ==> s[i] <= s[j]
}

impl MinHeap {
    /// The vector stays sorted with the minimum last.
    pub closed spec fn wf(self) -> bool {
        sorted_desc(self.items@)
    }

    /// An empty heap.
    pub fn new() -> (h: Self)
        ensures
            h.wf(),
            h@ == Multiset::<u64>::empty(),
    {
        let h = MinHeap { items: Vec::new() };
        proof {
            broadcast use vstd::seq_lib::group_to_multiset_ensures;

            assert(h.items@.len() == 0);
            assert(h@.len() == 0);
            assert(h@ =~= Multiset::<u64>::empty());
        }
        h
    }

    /// Add one entry.
    pub fn push(&mut self, v: u64)
        requires
            old(self).wf(),
        ensures
            final(self).wf(),
            final(self)@ == old(self)@.insert(v),
    {
        proof {
            broadcast use vstd::seq_lib::group_to_multiset_ensures;

        }
        let mut i: usize = 0;
        loop
            invariant
                i <= self.items.len(),
                forall|j: int| 0 <= j < i ==> self.items@[j] > v,
                self == old(self),
            ensures
                i <= self.items.len(),
                forall|j: int| 0 <= j < i ==> self.items@[j] > v,
                i < self.items.len() ==> self.items@[i as int] <= v,
                self == old(self),
            decreases self.items.len() - i,
        {
            if i == self.items.len() {
                break;
            }
            if self.items[i] <= v {
                break;
            }
            i = i + 1;
        }
        self.items.insert(i, v);
        proof {
            broadcast use vstd::seq_lib::group_to_multiset_ensures;

            assert(self.items@ == old(self).items@.insert(i as int, v));
            assert(self@ =~= old(self)@.insert(v));
        }
    }

    /// Take the least entry out; absent when the heap is empty.
    pub fn pop(&mut self) -> (r: Option<u64>)
        requires
            old(self).wf(),
        ensures
            final(self).wf(),
            match r {
                None => old(self)@ == Multiset::<u64>::empty() && final(self)@ == old(self)@,
                Some(m) => {
                    &&& old(self)@.count(m) > 0
                    &&& forall|x: u64| old(self)@.count(x) > 0 ==> m <= x
                    &&& final(self)@ == old(self)@.remove(m)
                },
            },
    {
        proof {
            broadcast use vstd::seq_lib::group_to_multiset_ensures;

        }
        let ghost s = self.items@;
        let r = self.items.pop();
        proof {
            broadcast use vstd::seq_lib::group_to_multiset_ensures;

            match r {
                None => {
                    assert(s.len() == 0);
                    assert(old(self)@.len() == 0);
                    assert(old(self)@ =~= Multiset::<u64>::empty());
                },
                Some(m) => {
                    let last = s.len() - 1;
                    assert(s.remove(last) =~= s.drop_last());
                    assert(self@ =~= old(self)@.remove(m));
                    assert(s.contains(s[last]));
                    assert forall|x: u64| old(self)@.count(x) > 0 implies m <= x by {
                        assert(s.contains(x));
                        let j = choose|j: int| 0 <= j < s.len() && s[j] == x;
                        assert(s[j] >= s[last]);
                    }
                },
            }
        }
        r
    }
}

impl View for MinHeap {
    type V = Multiset<u64>;

    /// The abstract contents: the multiset of stored entries.
    closed spec fn view(&self) -> Multiset<u64> {
        self.items@.to_multiset()
    }
}

impl MinDictHeap {
    /// The vector stays sorted with the minimum last.
    pub closed spec fn wf(self) -> bool {
        sorted_desc(self.items@)
    }

    /// An empty heap.
    pub fn new() -> (h: Self)
        ensures
            h.wf(),
            h@ == Multiset::<u64>::empty(),
    {
        let h = MinDictHeap { items: Vec::new() };
        proof {
            broadcast use vstd::seq_lib::group_to_multiset_ensures;

            assert(h@.len() == 0);
            assert(h@ =~= Multiset::<u64>::empty());
        }
        h
    }

    /// Add one entry; the key is taken for interface compatibility and
    /// ignored.
    pub fn push(&mut self, _key: u64, v: u64)
        requires
            old(self).wf(),
        ensures
            final(self).wf(),
            final(self)@ == old(self)@.insert(v),
    {
        proof {
            broadcast use vstd::seq_lib::group_to_multiset_ensures;

        }
        let mut i: usize = 0;
        loop
            invariant
                i <= self.items.len(),
                forall|j: int| 0 <= j < i ==> self.items@[j] > v,
                self == old(self),
            ensures
                i <= self.items.len(),
                forall|j: int| 0 <= j < i ==> self.items@[j] > v,
                i < self.items.len() ==> self.items@[i as int] <= v,
                self == old(self),
            decreases self.items.len() - i,
        {
            if i == self.items.len() {
                break;
            }
            if self.items[i] <= v {
                break;
            }
            i = i + 1;
        }
        self.items.insert(i, v);
        proof {
            broadcast use vstd::seq_lib::group_to_multiset_ensures;

            assert(self.items@ == old(self).items@.insert(i as int, v));
            assert(self@ =~= old(self)@.insert(v));
        }
    }

    /// Take the least entry out; absent when the heap is empty.
    pub fn pop(&mut self) -> (r: Option<u64>)
        requires
            old(self).wf(),
        ensures
            final(self).wf(),
            match r {
                None => old(self)@ == Multiset::<u64>::empty() && final(self)@ == old(self)@,
                Some(m) => {
                    &&& old(self)@.count(m) > 0
                    &&& forall|x: u64| old(self)@.count(x) > 0 ==> m <= x
                    &&& final(self)@ == old(self)@.remove(m)
                },
            },
    {
        proof {
            broadcast use vstd::seq_lib::group_to_multiset_ensures;

        }
        let ghost s = self.items@;
        let r = self.items.pop();
        proof {
            broadcast use vstd::seq_lib::group_to_multiset_ensures;

            match r {
                None => {
                    assert(s.len() == 0);
                    assert(old(self)@.len() == 0);
                    assert(old(self)@ =~= Multiset::<u64>::empty());
                },
                Some(m) => {
                    let last = s.len() - 1;
                    assert(s.remove(last) =~= s.drop_last());
                    assert(self@ =~= old(self)@.remove(m));
                    assert(s.contains(s[last]));
                    assert forall|x: u64| old(self)@.count(x) > 0 implies m <= x by {
                        assert(s.contains(x));
                        let j = choose|j: int| 0 <= j < s.len() && s[j] == x;
                        assert(s[j] >= s[last]);
                    }
                },
            }
        }
        r
    }
}

impl View for MinDictHeap {
    type V = Multiset<u64>;

    /// The abstract contents: the multiset of stored entries.
    closed spec fn view(&self) -> Multiset<u64> {
        self.items@.to_multiset()
    }
}

impl MaxDictHeap {
    /// The vector stays sorted with the maximum last.
    pub closed spec fn wf(self) -> bool {
        sorted_asc(self.items@)
    }

    /// An empty heap.
    pub fn new() -> (h: Self)
        ensures
            h.wf(),
            h@ == Multiset::<u64>::empty(),
    {
        let h = MaxDictHeap { items: Vec::new() };
        proof {
            broadcast use vstd::seq_lib::group_to_multiset_ensures;

            assert(h@.len() == 0);
            assert(h@ =~= Multiset::<u64>::empty());
        }
        h
    }

    /// Add one entry; the key is taken for interface compatibility and
    /// ignored.
    pub fn push(&mut self, _key: u64, v: u64)
        requires
            old(self).wf(),
        ensures
            final(self).wf(),
            final(self)@ == old(self)@.insert(v),
    {
        proof {
            broadcast use vstd::seq_lib::group_to_multiset_ensures;

        }
        let mut i: usize = 0;
        loop
            invariant
                i <= self.items.len(),
                forall|j: int| 0 <= j < i ==> self.items@[j] < v,
                self == old(self),
            ensures
                i <= self.items.len(),
                forall|j: int| 0 <= j < i ==> self.items@[j] < v,
                i < self.items.len() ==> self.items@[i as int] >= v,
                self == old(self),
            decreases self.items.len() - i,
        {
            if i == self.items.len() {
                break;
            }
            if self.items[i] >= v {
                break;
            }
            i = i + 1;
        }
        self.items.insert(i, v);
        proof {
            broadcast use vstd::seq_lib::group_to_multiset_ensures;

            assert(self.items@ == old(self).items@.insert(i as int, v));
            assert(self@ =~= old(self)@.insert(v));
        }
    }

    /// Take the greatest entry out; absent when the heap is empty.
    pub fn pop(&mut self) -> (r: Option<u64>)
        requires
            old(self).wf(),
        ensures
            final(self).wf(),
            match r {
                None => old(self)@ == Multiset::<u64>::empty() && final(self)@ == old(self)@,
                Some(m) => {
                    &&& old(self)@.count(m) > 0
                    &&& forall|x: u64| old(self)@.count(x) > 0 ==> m >= x
                    &&& final(self)@ == old(self)@.remove(m)
                },
            },
    {
        proof {
            broadcast use vstd::seq_lib::group_to_multiset_ensures;

        }
        let ghost s = self.items@;
        let r = self.items.pop();
        proof {
            broadcast use vstd::seq_lib::group_to_multiset_ensures;

            match r {
                None => {
                    assert(s.len() == 0);
                    assert(old(self)@.len() == 0);
                    assert(old(self)@ =~= Multiset::<u64>::empty());
                },
                Some(m) => {
                    let last = s.len() - 1;
                    assert(s.remove(last) =~= s.drop_last());
                    assert(self@ =~= old(self)@.remove(m));
                    assert(s.contains(s[last]));
                    assert forall|x: u64| old(self)@.count(x) > 0 implies m >= x by {
                        assert(s.contains(x));
                        let j = choose|j: int| 0 <= j < s.len() && s[j] == x;
                        assert(s[j] <= s[last]);
                    }
                },
            }
        }
        r
    }
}

impl View for MaxDictHeap {
    type V = Multiset<u64>;

    /// The abstract contents: the multiset of stored entries.
    closed spec fn view(&self) -> Multiset<u64> {
        self.items@.to_multiset()
    }
}

} // verus!
