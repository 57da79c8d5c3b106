use vstd::prelude::*;
use std::collections::HashMap;
use crate::errors::CacheError;
use crate::lru::{LruCache, lemma_drop_first_props, lemma_first_index_unique,
    lemma_push_no_dup, lemma_remove_value_props};
use crate::storage::{BufferModel, Storage, full_region};
use crate::tensor::{Tensor, tensor_elems, tensor_shape, valid_shape};

verus! {

broadcast use vstd::std_specs::hash::group_hash_axioms, vstd::seq_lib::seq_to_set_is_finite;

/// The mathematical model of a cache: its capacity, the buffers it maps
/// each key to, and the recency order of those keys (oldest first).
#[verifier::ext_equal]
pub struct CacheModel {
    pub capacity: nat,
    pub entries: Map<u64, BufferModel>,
    pub order: Seq<u64>,
}

/// The invariant of every reachable cache state: the tracker's key set
/// equals the mapping's key set, the mapping never outgrows the capacity,
/// and the two structures agree in size.
pub open spec fn inv(m: CacheModel) -> bool {
    &&& m.order.no_duplicates()
    &&& m.entries.dom().finite()
    &&& m.order.to_set() == m.entries.dom()
    &&& m.order.len() == m.entries.dom().len()
    &&& m.entries.dom().len() <= m.capacity
}

/// The model of a freshly created cache.
pub open spec fn spec_new(capacity: nat) -> CacheModel {
    CacheModel { capacity, entries: Map::empty(), order: Seq::empty() }
}

/// The model of `set`: reject a shape too large to allocate; otherwise
/// replace an existing entry, insert below capacity, evict the oldest key
/// and insert at capacity, and fail when an eviction victim is needed but
/// the tracker is empty. The touched key always ends newest.
pub open spec fn spec_set(m: CacheModel, key: u64, value: BufferModel) -> (CacheModel, Result<
    (),
    CacheError,
>) {
    if !valid_shape(value.shape) {
        (m, Err(CacheError::InvalidShape))
    } else if m.entries.contains_key(key) {
        (
            CacheModel {
                entries: m.entries.insert(key, value),
                order: m.order.remove_value(key).push(key),
                ..m
            },
            Ok(()),
        )
    } else if m.entries.dom().len() < m.capacity {
        (
            CacheModel { entries: m.entries.insert(key, value), order: m.order.push(key), ..m },
            Ok(()),
        )
    } else if m.order.len() > 0 {
        (
            CacheModel {
                entries: m.entries.remove(m.order[0]).insert(key, value),
                order: m.order.drop_first().push(key),
                ..m
            },
            Ok(()),
        )
    } else {
        (m, Err(CacheError::CapacityExhausted))
    }
}

/// The model of `get`: an absent key fails and changes nothing; a present
/// key moves to the newest end of the order and its buffer is returned.
pub open spec fn spec_get(m: CacheModel, key: u64) -> (CacheModel, Result<
    BufferModel,
    CacheError,
>) {
    if m.entries.contains_key(key) {
        (
            CacheModel { order: m.order.remove_value(key).push(key), ..m },
            Ok(m.entries[key]),
        )
    } else {
        (m, Err(CacheError::NotFound))
    }
}

/// The model of `delete`: an absent key fails and changes nothing; a
/// present key leaves both the mapping and the order.
pub open spec fn spec_delete(m: CacheModel, key: u64) -> (CacheModel, Result<(), CacheError>) {
    if m.entries.contains_key(key) {
        (
            CacheModel {
                entries: m.entries.remove(key),
                order: m.order.remove_value(key),
                ..m
            },
            Ok(()),
        )
    } else {
        (m, Err(CacheError::NotFound))
    }
}

/// The buffer models of a mapping's storages.
pub open spec fn entries_of(m: Map<u64, Storage>) -> Map<u64, BufferModel> {
    Map::new(|k: u64| m.contains_key(k), |k: u64| m[k]@)
}

proof fn lemma_entries_dom(m: Map<u64, Storage>)
    ensures
        entries_of(m).dom() == m.dom(),
{
    assert(entries_of(m).dom() =~= m.dom());
}

proof fn lemma_entries_insert(m: Map<u64, Storage>, key: u64, s: Storage)
    ensures
        entries_of(m.insert(key, s)) == entries_of(m).insert(key, s@),
{
    assert(entries_of(m.insert(key, s)) =~= entries_of(m).insert(key, s@));
}

proof fn lemma_entries_remove(m: Map<u64, Storage>, key: u64)
    ensures
        entries_of(m.remove(key)) == entries_of(m).remove(key),
{
    assert(entries_of(m.remove(key)) =~= entries_of(m).remove(key));
}

/// A fixed-capacity in-memory cache of shaped numeric buffers with
/// least-recently-used eviction. Every mutation of the key-to-buffer
/// mapping is mirrored in the recency tracker, so the two never diverge.
pub struct Cache {
    map: HashMap<u64, Storage>,
    lru: LruCache,
    capacity: usize,
}

impl View for Cache {
    type V = CacheModel;

    closed spec fn view(&self) -> CacheModel {
        CacheModel {
            capacity: self.capacity as nat,
            entries: entries_of(self.map@),
            order: self.lru@,
        }
    }
}

impl Cache {
    /// Well-formedness: the tracker is duplicate-free and sized like the
    /// cache, and the model invariant holds.
    pub closed spec fn wf(&self) -> bool {
        &&& self.lru.wf()
        &&& self.lru.spec_capacity() == self.capacity
        &&& inv(self@)
    }

    /// Creates an empty cache that holds at most `capacity` buffers.
    pub fn new(capacity: usize) -> (r: Cache)
        ensures
            r.wf(),
            r@ == spec_new(capacity as nat),
    {
        let r = Cache { map: HashMap::new(), lru: LruCache::new(capacity), capacity };
        proof {
            lemma_entries_dom(r.map@);
            assert(entries_of(r.map@) =~= Map::<u64, BufferModel>::empty());
            assert(r.lru@.to_set() =~= Set::<u64>::empty());
            assert(r@ =~= spec_new(capacity as nat));
        }
        r
    }

    /// Stores `value` under `key`: builds a zero-filled buffer of
    /// `value`'s shape, writes the whole of `value` into it, evicts the
    /// least recently used key first when `key` is new and the cache is
    /// full, and marks `key` most recently used. Fails with
    /// `InvalidShape` on a shape too large to allocate and with
    /// `CapacityExhausted` when an eviction victim is needed but the
    /// tracker is empty; a failed call changes nothing.
    pub fn set(&mut self, key: u64, value: Tensor) -> (r: Result<(), CacheError>)
        requires
            old(self).wf(),
        ensures
            final(self).wf(),
            inv(final(self)@),
            final(self)@ == spec_set(old(self)@, key, (BufferModel {
                shape: tensor_shape(value),
                elems: tensor_elems(value),
            })).0,
            r == spec_set(old(self)@, key, (BufferModel {
                shape: tensor_shape(value),
                elems: tensor_elems(value),
            })).1,
    {
        let ghost m = old(self)@;
        let ghost vm = BufferModel { shape: tensor_shape(value), elems: tensor_elems(value) };
        let shape = value.shape();
        let mut storage = match Storage::new(&shape) {
            Ok(s) => s,
            Err(e) => {
                proof {
                    assert(self@ =~= m);
                }
                return Err(e);
            },
        };
        let region = full_region(&shape);
        match storage.set_subarray(&region, &value) {
            Ok(()) => {},
            Err(e) => {
                return Err(e);
            },
        }
        proof {
            assert(storage@ =~= vm);
        }
        let present = self.map.contains_key(&key);
        if self.map.len() >= self.capacity && !present {
            match self.lru.evict() {
                Some(victim) => {
                    self.map.remove(&victim);
                    proof {
                        lemma_entries_dom(old(self).map@);
                        lemma_entries_remove(old(self).map@, victim);
                    }
                },
                None => {
                    proof {
                        lemma_entries_dom(old(self).map@);
                        assert(self@ =~= m);
                    }
                    return Err(CacheError::CapacityExhausted);
                },
            }
        }
        let ghost mid_map = self.map@;
        let ghost mid_ord = self.lru@;
        self.lru.access(key);
        self.map.insert(key, storage);
        proof {
            lemma_entries_dom(old(self).map@);
            lemma_entries_dom(mid_map);
            lemma_entries_insert(mid_map, key, storage);
            let ord = m.order;
            if m.entries.contains_key(key) {
                // replacement: no eviction ran, the key moves to the end
                assert(ord.to_set().contains(key));
                assert(mid_ord == ord && mid_map == old(self).map@);
                lemma_remove_value_props(ord, key);
                lemma_push_no_dup(ord.remove_value(key), key);
                let ord2 = ord.remove_value(key).push(key);
                assert(self.lru@ == ord2);
                assert(ord2.to_set() =~= m.entries.dom().insert(key));
                assert(m.entries.insert(key, vm).dom() =~= m.entries.dom().insert(key));
                ord2.unique_seq_to_set();
                assert(m.entries.dom().insert(key) =~= m.entries.dom());
                assert(self@ =~= spec_set(m, key, vm).0);
            } else {
                assert(!ord.to_set().contains(key));
                assert(!ord.contains(key));
                if m.entries.dom().len() < m.capacity {
                    // room left: plain insert at the newest end
                    assert(mid_ord == ord && mid_map == old(self).map@);
                    assert(ord.len() < m.capacity);
                    lemma_push_no_dup(ord, key);
                    let ord2 = ord.push(key);
                    assert(self.lru@ == ord2);
                    assert(ord2.to_set() =~= m.entries.dom().insert(key));
                    assert(m.entries.insert(key, vm).dom() =~= m.entries.dom().insert(key));
                    ord2.unique_seq_to_set();
                    assert(self@ =~= spec_set(m, key, vm).0);
                } else {
                    // full and the key is new: the oldest key was evicted
                    assert(m.entries.dom().len() == m.capacity);
                    assert(ord.len() == m.capacity && ord.len() > 0);
                    let victim = ord[0];
                    lemma_drop_first_props(ord);
                    let ord1 = ord.drop_first();
                    assert(mid_ord == ord1);
                    assert(!ord1.contains(key));
                    assert(ord1.len() == m.capacity - 1);
                    lemma_push_no_dup(ord1, key);
                    let ord2 = ord1.push(key);
                    assert(self.lru@ == ord2);
                    assert(entries_of(mid_map) == m.entries.remove(victim));
                    assert(ord2.to_set() =~= m.entries.dom().remove(victim).insert(key));
                    assert(m.entries.remove(victim).insert(key, vm).dom() =~= m.entries.dom()
                        .remove(victim).insert(key));
                    ord2.unique_seq_to_set();
                    assert(self@ =~= spec_set(m, key, vm).0);
                }
            }
        }
        Ok(())
    }

    /// Retrieves the buffer stored under `key` as a read-only view, marking
    /// `key` most recently used; fails with `NotFound` when `key` is
    /// absent, changing nothing.
    pub fn get(&mut self, key: &u64) -> (r: Result<&Tensor, CacheError>)
        requires
            old(self).wf(),
        ensures
            final(self).wf(),
            inv(final(self)@),
            final(self)@ == spec_get(old(self)@, *key).0,
            match r {
                Ok(t) => spec_get(old(self)@, *key).1 == Ok::<BufferModel, CacheError>(
                    (BufferModel { shape: tensor_shape(*t), elems: tensor_elems(*t) }),
                ),
                Err(e) => spec_get(old(self)@, *key).1 == Err::<BufferModel, CacheError>(e),
            },
    {
        let ghost m = old(self)@;
        let present = self.map.contains_key(key);
        if !present {
            proof {
                lemma_entries_dom(self.map@);
                assert(self@ =~= m);
            }
            return Err(CacheError::NotFound);
        }
        proof {
            lemma_entries_dom(self.map@);
            assert(m.order.to_set().contains(*key));
            let ord = m.order;
            lemma_remove_value_props(ord, *key);
            lemma_push_no_dup(ord.remove_value(*key), *key);
        }
        self.lru.access(*key);
        proof {
            let ord = m.order;
            let ord2 = ord.remove_value(*key).push(*key);
            assert(self.lru@ == ord2);
            assert(ord2.to_set() =~= m.entries.dom());
            ord2.unique_seq_to_set();
            assert(self@ =~= spec_get(m, *key).0);
        }
        match self.map.get(key) {
            Some(storage) => {
                let t = storage.get_data();
                proof {
                    assert(m.entries[*key] =~= (BufferModel {
                        shape: tensor_shape(*t),
                        elems: tensor_elems(*t),
                    }));
                }
                Ok(t)
            },
            None => Err(CacheError::NotFound),
        }
    }

    /// Removes the entry stored under `key` from both the mapping and the
    /// tracker; fails with `NotFound` when `key` is absent, changing
    /// nothing.
    pub fn delete(&mut self, key: &u64) -> (r: Result<(), CacheError>)
        requires
            old(self).wf(),
        ensures
            final(self).wf(),
            inv(final(self)@),
            final(self)@ == spec_delete(old(self)@, *key).0,
            r == spec_delete(old(self)@, *key).1,
    {
        let ghost m = old(self)@;
        match self.map.remove(key) {
            Some(_) => {
                proof {
                    lemma_entries_dom(old(self).map@);
                    lemma_entries_remove(old(self).map@, *key);
                    assert(m.order.to_set().contains(*key));
                    lemma_remove_value_props(m.order, *key);
                }
                self.lru.remove(key);
                proof {
                    let ord2 = m.order.remove_value(*key);
                    assert(self.lru@ == ord2);
                    assert(ord2.to_set() =~= m.entries.remove(*key).dom());
                    ord2.unique_seq_to_set();
                    assert(self@ =~= spec_delete(m, *key).0);
                }
                Ok(())
            },
            None => {
                proof {
                    lemma_entries_dom(old(self).map@);
                    assert(self@ =~= m);
                }
                Err(CacheError::NotFound)
            },
        }
    }

    /// The number of buffers currently stored.
    pub fn len(&self) -> (r: usize)
        ensures
            r == self@.entries.dom().len(),
    {
        proof {
            lemma_entries_dom(self.map@);
        }
        self.map.len()
    }

    /// The capacity the cache was created with.
    pub fn capacity(&self) -> (r: usize)
        ensures
            r == self@.capacity,
    {
        self.capacity
    }
}

/// A freshly created cache satisfies the invariant: both key sets are
/// empty and the mapping is within capacity.
pub proof fn lemma_new_inv(capacity: nat)
    ensures
        inv(spec_new(capacity)),
{
    let m = spec_new(capacity);
    assert(m.order.to_set() =~= m.entries.dom());
    assert(m.entries.dom() =~= Set::<u64>::empty());
}

/// `set` preserves the invariant: after any `set`, the tracker's key set
/// still equals the mapping's key set and the mapping is within capacity.
pub proof fn lemma_set_preserves_inv(m: CacheModel, key: u64, value: BufferModel)
    requires
        inv(m),
    ensures
        inv(spec_set(m, key, value).0),
{
    let ord = m.order;
    if !valid_shape(value.shape) {
    } else if m.entries.contains_key(key) {
        assert(ord.to_set().contains(key));
        lemma_remove_value_props(ord, key);
        lemma_push_no_dup(ord.remove_value(key), key);
        let ord2 = ord.remove_value(key).push(key);
        assert(ord2.to_set() =~= m.entries.insert(key, value).dom());
        ord2.unique_seq_to_set();
    } else if m.entries.dom().len() < m.capacity {
        assert(!ord.to_set().contains(key));
        lemma_push_no_dup(ord, key);
        let ord2 = ord.push(key);
        assert(ord2.to_set() =~= m.entries.insert(key, value).dom());
        ord2.unique_seq_to_set();
    } else if ord.len() > 0 {
        assert(!ord.to_set().contains(key));
        let victim = ord[0];
        lemma_drop_first_props(ord);
        lemma_push_no_dup(ord.drop_first(), key);
        let ord2 = ord.drop_first().push(key);
        assert(ord2.to_set() =~= m.entries.remove(victim).insert(key, value).dom());
        ord2.unique_seq_to_set();
    }
}

/// `get` preserves the invariant.
pub proof fn lemma_get_preserves_inv(m: CacheModel, key: u64)
    requires
        inv(m),
    ensures
        inv(spec_get(m, key).0),
{
    if m.entries.contains_key(key) {
        assert(m.order.to_set().contains(key));
        lemma_remove_value_props(m.order, key);
        lemma_push_no_dup(m.order.remove_value(key), key);
        let ord2 = m.order.remove_value(key).push(key);
        assert(ord2.to_set() =~= m.entries.dom());
        ord2.unique_seq_to_set();
    }
}

/// `delete` preserves the invariant.
pub proof fn lemma_delete_preserves_inv(m: CacheModel, key: u64)
    requires
        inv(m),
    ensures
        inv(spec_delete(m, key).0),
{
    if m.entries.contains_key(key) {
        lemma_remove_value_props(m.order, key);
        let ord2 = m.order.remove_value(key);
        assert(ord2.to_set() =~= m.entries.remove(key).dom());
        ord2.unique_seq_to_set();
    }
}

/// Round trip: on a well-formed cache with room to succeed (a positive
/// capacity and an allocatable shape), `set(key, value)` succeeds, and a
/// `get(key)` right after it yields exactly `value`.
pub proof fn lemma_set_then_get(m: CacheModel, key: u64, value: BufferModel)
    requires
        inv(m),
        m.capacity > 0,
        valid_shape(value.shape),
    ensures
        spec_set(m, key, value).1 is Ok,
        spec_get(spec_set(m, key, value).0, key).1 == Ok::<BufferModel, CacheError>(value),
{
    if !m.entries.contains_key(key) && !(m.entries.dom().len() < m.capacity) {
        assert(m.order.len() == m.entries.dom().len() >= m.capacity > 0);
    }
    let m2 = spec_set(m, key, value).0;
    assert(m2.entries.contains_key(key) && m2.entries[key] == value);
}

/// Idempotent delete: deleting an absent key reports `NotFound` and
/// leaves the state unchanged, invariants included.
pub proof fn lemma_delete_absent(m: CacheModel, key: u64)
    requires
        !m.entries.contains_key(key),
    ensures
        spec_delete(m, key).1 == Err::<(), CacheError>(CacheError::NotFound),
        spec_delete(m, key).0 == m,
{
}

/// The state after a sequence of `set` calls, one per key, first key
/// first.
pub open spec fn spec_set_all(m: CacheModel, keys: Seq<u64>, values: Seq<BufferModel>) -> CacheModel
    recommends
        values.len() == keys.len(),
    decreases keys.len(),
{
    if keys.len() == 0 {
        m
    } else {
        spec_set_all(spec_set(m, keys[0], values[0]).0, keys.drop_first(), values.drop_first())
    }
}

/// Setting a run of fresh, distinct keys that fits in the remaining room
/// appends them to the order, in call order, and adds them to the mapping.
proof fn lemma_set_all_fresh(m: CacheModel, keys: Seq<u64>, values: Seq<BufferModel>)
    requires
        inv(m),
        keys.no_duplicates(),
        values.len() == keys.len(),
        forall|i: int| 0 <= i < values.len() ==> valid_shape((#[trigger] values[i]).shape),
        forall|i: int| 0 <= i < keys.len() ==> !m.entries.contains_key(#[trigger] keys[i]),
        m.entries.dom().len() + keys.len() <= m.capacity,
    ensures
        ({
            let m2 = spec_set_all(m, keys, values);
            &&& m2.capacity == m.capacity
            &&& m2.order == m.order + keys
            &&& m2.entries.dom() == m.entries.dom() + keys.to_set()
            &&& inv(m2)
        }),
    decreases keys.len(),
{
    if keys.len() == 0 {
        assert(m.order + keys =~= m.order);
        assert(m.entries.dom() + keys.to_set() =~= m.entries.dom());
    } else {
        let k0 = keys[0];
        let v0 = values[0];
        assert(valid_shape(v0.shape) && !m.entries.contains_key(k0));
        assert(m.entries.dom().len() < m.capacity);
        let m1 = spec_set(m, k0, v0).0;
        assert(!m.order.to_set().contains(k0));
        lemma_push_no_dup(m.order, k0);
        let ord1 = m.order.push(k0);
        assert(ord1.to_set() =~= m.entries.insert(k0, v0).dom());
        ord1.unique_seq_to_set();
        assert(inv(m1));
        lemma_drop_first_props(keys);
        let rest = keys.drop_first();
        let vrest = values.drop_first();
        assert(forall|i: int|
            0 <= i < vrest.len() ==> valid_shape((#[trigger] vrest[i]).shape));
        assert forall|i: int| 0 <= i < rest.len() implies !m1.entries.contains_key(
            #[trigger] rest[i],
        ) by {
            assert(rest[i] == keys[i + 1]);
            assert(!m.entries.contains_key(keys[i + 1]));
            assert(keys[i + 1] != k0);
        }
        lemma_set_all_fresh(m1, rest, vrest);
        let m2 = spec_set_all(m, keys, values);
        assert(m2.order == m1.order + rest);
        assert(m1.order + rest =~= m.order + keys);
        assert(m1.entries.dom() + rest.to_set() =~= m.entries.dom() + keys.to_set());
    }
}

/// Folding `set` over concatenated key runs is the same as folding over
/// the first run and then the second.
proof fn lemma_set_all_append(
    m: CacheModel,
    a: Seq<u64>,
    va: Seq<BufferModel>,
    b: Seq<u64>,
    vb: Seq<BufferModel>,
)
    requires
        va.len() == a.len(),
        vb.len() == b.len(),
    ensures
        spec_set_all(m, a + b, va + vb) == spec_set_all(spec_set_all(m, a, va), b, vb),
    decreases a.len(),
{
    if a.len() == 0 {
        assert(a + b =~= b);
        assert(va + vb =~= vb);
    } else {
        let k0 = (a + b)[0];
        assert(k0 == a[0]);
        assert((va + vb)[0] == va[0]);
        let m1 = spec_set(m, a[0], va[0]).0;
        assert((a + b).drop_first() =~= a.drop_first() + b);
        assert((va + vb).drop_first() =~= va.drop_first() + vb);
        lemma_set_all_append(m1, a.drop_first(), va.drop_first(), b, vb);
    }
}

/// Eviction order: starting from an empty cache of capacity `n >= 1`,
/// `n + 1` successive `set` calls with distinct keys and no intervening
/// `get` leave the first key absent and all later keys present, with the
/// order holding exactly the later keys, oldest first.
pub proof fn lemma_eviction_order(capacity: nat, keys: Seq<u64>, values: Seq<BufferModel>)
    requires
        capacity >= 1,
        keys.no_duplicates(),
        keys.len() == capacity + 1,
        values.len() == keys.len(),
        forall|i: int| 0 <= i < values.len() ==> valid_shape((#[trigger] values[i]).shape),
    ensures
        ({
            let m2 = spec_set_all(spec_new(capacity), keys, values);
            &&& !m2.entries.contains_key(keys[0])
            &&& forall|i: int| 1 <= i < keys.len() ==> m2.entries.contains_key(#[trigger] keys[i])
            &&& m2.order == keys.drop_first()
        }),
{
    let m0 = spec_new(capacity);
    lemma_new_inv(capacity);
    let n = capacity as int;
    let a = keys.subrange(0, n);
    let va = values.subrange(0, n);
    let b = keys.subrange(n, n + 1);
    let vb = values.subrange(n, n + 1);
    assert(keys =~= a + b);
    assert(values =~= va + vb);
    lemma_set_all_append(m0, a, va, b, vb);
    assert(a.no_duplicates());
    assert(m0.entries.dom() =~= Set::<u64>::empty());
    lemma_set_all_fresh(m0, a, va);
    let mf = spec_set_all(m0, a, va);
    assert(mf.order =~= a);
    assert(mf.entries.dom() =~= a.to_set());
    let kl = keys[n];
    let vl = values[n];
    assert(b[0] == kl && vb[0] == vl);
    assert(b.drop_first().len() == 0);
    let md = spec_set(mf, kl, vl).0;
    assert(spec_set_all(md, b.drop_first(), vb.drop_first()) == md);
    assert(spec_set_all(mf, b, vb) == spec_set_all(md, b.drop_first(), vb.drop_first()));
    // the last set finds the cache full and the new key absent
    assert forall|x: u64| a.to_set().contains(x) implies x != kl by {
        let j = choose|j: int| 0 <= j < a.len() && a[j] == x;
        assert(keys[j] == x && keys[n] == kl);
    }
    assert(!mf.entries.contains_key(kl));
    assert(mf.order.len() == mf.entries.dom().len() == capacity);
    assert(mf.order[0] == a[0] == keys[0]);
    assert(md.entries == mf.entries.remove(keys[0]).insert(kl, vl));
    assert(kl != keys[0]);
    assert(!md.entries.contains_key(keys[0]));
    assert forall|i: int| 1 <= i < keys.len() implies md.entries.contains_key(
        #[trigger] keys[i],
    ) by {
        if i < n {
            assert(a[i] == keys[i]);
            assert(a.to_set().contains(keys[i]));
            assert(keys[i] != keys[0]);
        }
    }
    assert(md.order =~= keys.drop_first());
}

/// Recency update: with capacity two, `set(k0); set(k1); get(k0);
/// set(k2)` on distinct keys evicts `k1`, the least recently touched key,
/// and keeps `k0` and `k2`.
pub proof fn lemma_recency_update(
    k0: u64,
    k1: u64,
    k2: u64,
    v0: BufferModel,
    v1: BufferModel,
    v2: BufferModel,
)
    requires
        k0 != k1,
        k0 != k2,
        k1 != k2,
        valid_shape(v0.shape),
        valid_shape(v1.shape),
        valid_shape(v2.shape),
    ensures
        ({
            let ma = spec_set(spec_new(2), k0, v0).0;
            let mb = spec_set(ma, k1, v1).0;
            let mc = spec_get(mb, k0).0;
            let md = spec_set(mc, k2, v2).0;
            &&& !md.entries.contains_key(k1)
            &&& md.entries.contains_key(k0)
            &&& md.entries.contains_key(k2)
            &&& md.order == seq![k0, k2]
        }),
{
    let m0 = spec_new(2);
    lemma_new_inv(2);
    assert(m0.entries.dom() =~= Set::<u64>::empty());
    let ma = spec_set(m0, k0, v0).0;
    let orda = Seq::<u64>::empty().push(k0);
    assert(ma.order == orda);
    lemma_push_no_dup(Seq::<u64>::empty(), k0);
    orda.unique_seq_to_set();
    assert(orda.to_set() =~= ma.entries.dom());
    let mb = spec_set(ma, k1, v1).0;
    assert(!ma.entries.contains_key(k1));
    assert(ma.entries.dom().len() == 1);
    let ordb = orda.push(k1);
    assert(mb.order == ordb);
    assert(!orda.contains(k1));
    lemma_push_no_dup(orda, k1);
    ordb.unique_seq_to_set();
    assert(ordb.to_set() =~= mb.entries.dom());
    // get(k0): k0 leaves position zero and returns at the newest end
    assert(mb.entries.contains_key(k0));
    assert(ordb[0] == k0);
    lemma_first_index_unique(ordb, k0, 0);
    assert(ordb.remove_value(k0) == ordb.remove(0));
    assert(ordb.remove(0) =~= seq![k1]);
    let mc = spec_get(mb, k0).0;
    let ordc = seq![k1].push(k0);
    assert(mc.order == ordc);
    assert(mc.entries == mb.entries);
    // set(k2): the cache is full, k2 is new, and the oldest key is now k1
    assert(!mc.entries.contains_key(k2));
    assert(mc.entries.dom().len() == 2);
    assert(ordc.len() == 2 && ordc[0] == k1);
    let md = spec_set(mc, k2, v2).0;
    assert(md.entries == mc.entries.remove(k1).insert(k2, v2));
    assert(!md.entries.contains_key(k1));
    assert(md.entries.contains_key(k0));
    assert(md.entries.contains_key(k2));
    assert(md.order == ordc.drop_first().push(k2));
    assert(ordc.drop_first() =~= seq![k0]);
    assert(md.order =~= seq![k0, k2]);
}

} // verus!
