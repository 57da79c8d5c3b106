use vstd::prelude::*;
use std::collections::VecDeque;

verus! {

broadcast use vstd::std_specs::vecdeque::group_vec_dequeue_axioms;

/// Tracks the recency order of the keys currently cached: oldest first,
/// newest last, each key appearing at most once.
///
/// The tracker is the sole source of eviction victims for the cache; the
/// cache mirrors every mutation of its mapping here so that the two key
/// sets never diverge.
pub struct LruCache {
    order: VecDeque<u64>,
    capacity: usize,
}

/// The order a tracker holds after `access(key)`: the key moves to (or is
/// inserted at) the newest end; if the key is absent and the tracker is at
/// a non-zero capacity, the oldest entry makes room first.
pub open spec fn spec_access(order: Seq<u64>, capacity: nat, key: u64) -> Seq<u64> {
    if order.contains(key) {
        order.remove_value(key).push(key)
    } else if order.len() == capacity && order.len() > 0 {
        order.drop_first().push(key)
    } else {
        order.push(key)
    }
}

impl View for LruCache {
    type V = Seq<u64>;

    closed spec fn view(&self) -> Seq<u64> {
        self.order@
    }
}

impl LruCache {
    /// The maximum number of keys the tracker was created for.
    pub closed spec fn spec_capacity(&self) -> usize {
        self.capacity
    }

    /// Well-formedness: no key appears twice in the order.
    pub open spec fn wf(&self) -> bool {
        self@.no_duplicates()
    }

    /// Creates an empty tracker with the given capacity.
    pub fn new(capacity: usize) -> (r: LruCache)
        ensures
            r@ == Seq::<u64>::empty(),
            r.spec_capacity() == capacity,
            r.wf(),
    {
        LruCache { order: VecDeque::new(), capacity }
    }

    /// The index of the first occurrence of `key`, if any.
    fn find_pos(&self, key: u64) -> (r: Option<usize>)
        ensures
            match r {
                Some(i) => i < self@.len() && self@[i as int] == key && (forall|j: int|
                    0 <= j < i ==> self@[j] != key),
                None => !self@.contains(key),
            },
    {
        let n = self.order.len();
        let mut i: usize = 0;
        while i < n
            invariant
                n == self@.len(),
                i <= n,
                forall|j: int| 0 <= j < i ==> self@[j] != key,
            decreases n - i,
        {
            if self.order[i] == key {
                return Some(i);
            }
            i = i + 1;
        }
        None
    }

    /// Marks `key` as the most recently used: moves it to the newest end if
    /// present, appends it otherwise, making room by dropping the oldest
    /// entry when the tracker is at a non-zero capacity.
    pub fn access(&mut self, key: u64)
        requires
            old(self).wf(),
        ensures
            final(self).wf(),
            final(self).spec_capacity() == old(self).spec_capacity(),
            final(self)@ == spec_access(old(self)@, old(self).spec_capacity() as nat, key),
    {
        let ghost s = self@;
        let pos = self.find_pos(key);
        match pos {
            Some(i) => {
                self.order.remove(i);
                proof {
                    assert(s.contains(key));
                    lemma_first_index_unique(s, key, i as int);
                    lemma_remove_value_props(s, key);
                }
            },
            None => {
                if self.order.len() == self.capacity {
                    self.order.pop_front();
                    proof {
                        if s.len() > 0 {
                            lemma_drop_first_props(s);
                        }
                    }
                }
            },
        }
        let ghost mid = self@;
        self.order.push_back(key);
        proof {
            lemma_push_no_dup(mid, key);
        }
    }

    /// Removes and returns the oldest key, or `None` when the tracker is
    /// empty. The sole source of eviction victims.
    pub fn evict(&mut self) -> (r: Option<u64>)
        requires
            old(self).wf(),
        ensures
            final(self).wf(),
            final(self).spec_capacity() == old(self).spec_capacity(),
            old(self)@.len() == 0 ==> r is None && final(self)@ == old(self)@,
            old(self)@.len() > 0 ==> r == Some(old(self)@[0]) && final(self)@ == old(
                self,
            )@.drop_first(),
    {
        let ghost s = self@;
        let r = self.order.pop_front();
        proof {
            if s.len() > 0 {
                lemma_drop_first_props(s);
            }
        }
        r
    }

    /// Removes `key` if present; returns whether it was found. A no-op on
    /// an absent key.
    pub fn remove(&mut self, key: &u64) -> (r: bool)
        requires
            old(self).wf(),
        ensures
            final(self).wf(),
            final(self).spec_capacity() == old(self).spec_capacity(),
            r == old(self)@.contains(*key),
            final(self)@ == old(self)@.remove_value(*key),
    {
        let ghost s = self@;
        let pos = self.find_pos(*key);
        match pos {
            Some(i) => {
                self.order.remove(i);
                proof {
                    assert(s.contains(*key));
                    lemma_first_index_unique(s, *key, i as int);
                    lemma_remove_value_props(s, *key);
                }
                true
            },
            None => {
                proof {
                    lemma_remove_value_props(s, *key);
                }
                false
            },
        }
    }

    /// The number of keys currently tracked.
    pub fn len(&self) -> (r: usize)
        ensures
            r == self@.len(),
    {
        self.order.len()
    }

    /// The capacity the tracker was created with.
    pub fn capacity(&self) -> (r: usize)
        ensures
            r == self.spec_capacity(),
    {
        self.capacity
    }

    /// Whether the tracker holds no keys.
    pub fn is_empty(&self) -> (r: bool)
        ensures
            r == (self@.len() == 0),
    {
        self.order.len() == 0
    }

    /// The oldest key, if any.
    pub fn front(&self) -> (r: Option<u64>)
        ensures
            self@.len() == 0 ==> r is None,
            self@.len() > 0 ==> r == Some(self@[0]),
    {
        if self.order.len() == 0 {
            None
        } else {
            Some(self.order[0])
        }
    }

    /// The newest key, if any.
    pub fn back(&self) -> (r: Option<u64>)
        ensures
            self@.len() == 0 ==> r is None,
            self@.len() > 0 ==> r == Some(self@.last()),
    {
        let n = self.order.len();
        if n == 0 {
            None
        } else {
            Some(self.order[n - 1])
        }
    }

    /// Whether `key` is currently tracked.
    pub fn contains(&self, key: &u64) -> (r: bool)
        ensures
            r == self@.contains(*key),
    {
        match self.find_pos(*key) {
            Some(i) => {
                proof {
                    assert(self@.contains(*key));
                }
                true
            },
            None => false,
        }
    }
}

/// In a sequence, an index that holds `key` while every earlier index does
/// not is the one `index_of_first` returns.
pub proof fn lemma_first_index_unique(s: Seq<u64>, key: u64, i: int)
    requires
        0 <= i < s.len(),
        s[i] == key,
        forall|j: int| 0 <= j < i ==> s[j] != key,
    ensures
        s.index_of_first(key) == Some(i),
        s.remove_value(key) == s.remove(i),
{
    assert(s.contains(key));
    s.index_of_first_ensures(key);
    if let Some(fi) = s.index_of_first(key) {
        if fi < i {
            assert(s[fi] == key);
            assert(false);
        }
        if fi > i {
            assert(s[i] != key);
            assert(false);
        }
    } else {
        assert(false);
    }
}

/// Removing a value from a duplicate-free sequence removes exactly that
/// value: no other membership changes, and the key set shrinks by the key.
pub proof fn lemma_remove_value_props(s: Seq<u64>, key: u64)
    requires
        s.no_duplicates(),
    ensures
        s.remove_value(key).no_duplicates(),
        !s.remove_value(key).contains(key),
        forall|x: u64| x != key ==> (s.remove_value(key).contains(x) <==> s.contains(x)),
        s.contains(key) ==> s.remove_value(key).len() == s.len() - 1,
        !s.contains(key) ==> s.remove_value(key) == s,
        s.remove_value(key).to_set() == s.to_set().remove(key),
{
    let r = s.remove_value(key);
    s.index_of_first_ensures(key);
    if let Some(i) = s.index_of_first(key) {
        assert(s.contains(key));
        assert(r == s.remove(i));
        assert(r.len() == s.len() - 1);
        assert(forall|k: int|
            0 <= k < r.len() ==> r[k] == (if k < i {
                s[k]
            } else {
                s[k + 1]
            }));
        assert forall|k1: int, k2: int|
            0 <= k1 < r.len() && 0 <= k2 < r.len() && k1 != k2 implies r[k1] != r[k2] by {
            let o1: int = if k1 < i {
                k1
            } else {
                k1 + 1
            };
            let o2: int = if k2 < i {
                k2
            } else {
                k2 + 1
            };
            assert(s[o1] == r[k1] && s[o2] == r[k2] && o1 != o2);
        }
        assert forall|k: int| 0 <= k < r.len() implies r[k] != key by {
            let o: int = if k < i {
                k
            } else {
                k + 1
            };
            assert(r[k] == s[o] && o != i);
        }
        assert(!r.contains(key));
        assert forall|x: u64| x != key implies (r.contains(x) <==> s.contains(x)) by {
            if r.contains(x) {
                let k = choose|k: int| 0 <= k < r.len() && r[k] == x;
                let o: int = if k < i {
                    k
                } else {
                    k + 1
                };
                assert(s[o] == x);
                assert(s.contains(x));
            }
            if s.contains(x) {
                let o = choose|o: int| 0 <= o < s.len() && s[o] == x;
                assert(o != i);
                let k: int = if o < i {
                    o
                } else {
                    o - 1
                };
                assert(r[k] == x);
                assert(r.contains(x));
            }
        }
        assert(r.to_set() =~= s.to_set().remove(key));
    } else {
        assert(r == s);
        if s.contains(key) {
            assert(false);
        }
        assert(r.to_set() =~= s.to_set().remove(key));
    }
}

/// Dropping the first element of a duplicate-free sequence removes exactly
/// that element from its key set.
pub proof fn lemma_drop_first_props(s: Seq<u64>)
    requires
        s.no_duplicates(),
        s.len() > 0,
    ensures
        s.drop_first().no_duplicates(),
        !s.drop_first().contains(s[0]),
        forall|x: u64| x != s[0] ==> (s.drop_first().contains(x) <==> s.contains(x)),
        s.drop_first().to_set() == s.to_set().remove(s[0]),
{
    let r = s.drop_first();
    assert(forall|k: int| 0 <= k < r.len() ==> r[k] == s[k + 1]);
    assert forall|k: int| 0 <= k < r.len() implies r[k] != s[0] by {
        assert(r[k] == s[k + 1] && k + 1 != 0);
    }
    assert(!r.contains(s[0]));
    assert forall|x: u64| x != s[0] implies (r.contains(x) <==> s.contains(x)) by {
        if r.contains(x) {
            let k = choose|k: int| 0 <= k < r.len() && r[k] == x;
            assert(s[k + 1] == x);
            assert(s.contains(x));
        }
        if s.contains(x) {
            let o = choose|o: int| 0 <= o < s.len() && s[o] == x;
            assert(o != 0);
            assert(r[o - 1] == x);
            assert(r.contains(x));
        }
    }
    assert(r.to_set() =~= s.to_set().remove(s[0]));
}

/// Appending a fresh element keeps a sequence duplicate-free, and adds the
/// element to its key set.
pub proof fn lemma_push_no_dup(s: Seq<u64>, x: u64)
    requires
        s.no_duplicates(),
        !s.contains(x),
    ensures
        s.push(x).no_duplicates(),
        s.push(x).to_set() == s.to_set().insert(x),
{
    let r = s.push(x);
    assert forall|k1: int, k2: int|
        0 <= k1 < r.len() && 0 <= k2 < r.len() && k1 != k2 implies r[k1] != r[k2] by {
        if k1 < s.len() && k2 < s.len() {
        } else if k1 == s.len() {
            if s[k2] == x {
                assert(s.contains(x));
            }
        } else {
            if s[k1] == x {
                assert(s.contains(x));
            }
        }
    }
    assert forall|y: u64| r.to_set().contains(y) <==> s.to_set().insert(x).contains(y) by {
        if r.contains(y) {
            let k = choose|k: int| 0 <= k < r.len() && r[k] == y;
            if k < s.len() {
                assert(s.contains(y));
            }
        }
        if s.contains(y) {
            let k = choose|k: int| 0 <= k < s.len() && s[k] == y;
            assert(r[k] == y);
            assert(r.contains(y));
        }
        if y == x {
            assert(r[s.len() as int] == x);
            assert(r.contains(x));
        }
    }
    assert(r.to_set() =~= s.to_set().insert(x));
}

} // verus!
