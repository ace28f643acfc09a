use vstd::prelude::*;
use vstd::slice::slice_to_vec;

use lru::LruCache;

use crate::error::StateError;
use crate::lfu_map::{lfu_get, lfu_insert, lfu_items, lfu_new, lfu_remove, lfu_slot, LfuCache};
use crate::lru_map::{
    lemma_items_written, lru_cap, lru_capacity, lru_clear, lru_contains, lru_entries, lru_get,
    lru_items, lru_len, lru_new, lru_order, lru_pop, lru_pop_lru, lru_put, lru_valid,
};
use crate::store::{bytes_eq, insert_all, lookup, overlay, Backend};

verus! {

/// The value part of a policy read.
pub open spec fn got(r: Option<(Vec<u8>, bool)>) -> Option<Seq<u8>> {
    match r {
        Some(p) => Some(p.0@),
        None => None,
    }
}

/// Writing pairs that a map already holds leaves it as it was.
pub proof fn lemma_insert_all_agreeing(m: Map<Seq<u8>, Seq<u8>>, s: Seq<(Vec<u8>, Vec<u8>)>)
    requires
        forall|i: int|
            0 <= i < s.len() ==> m.contains_key(#[trigger] s[i].0@) && m[s[i].0@] == s[i].1@,
    ensures
        insert_all(m, s) == m,
    decreases s.len(),
{
    if s.len() > 0 {
        let p = s.drop_last();
        assert forall|i: int| 0 <= i < p.len() implies m.contains_key(#[trigger] p[i].0@)
            && m[p[i].0@] == p[i].1@ by {
            assert(p[i] == s[i]);
        }
        lemma_insert_all_agreeing(m, p);
        assert(m.contains_key(s[s.len() - 1].0@));
        assert(insert_all(m, s) =~= m);
    }
}

/// A cache in front of a store, with the contract that every eviction policy meets: reads see
/// the newest write, and report whether the cache answered.
pub trait CachePolicy {
    /// What reads see.
    spec fn view(&self) -> Map<Seq<u8>, Seq<u8>>;

    /// What the store behind the cache holds.
    spec fn stored(&self) -> Map<Seq<u8>, Seq<u8>>;

    /// The keys that the cache can answer.
    spec fn cached(&self) -> Set<Seq<u8>>;

    /// Whether the store behind the cache never fails.
    spec fn store_infallible(&self) -> bool;

    /// How many entries the cache holds when full.
    spec fn capacity(&self) -> nat;

    /// Whether a read that misses always brings its key into the cache, and the cached keys
    /// after each operation are exactly `after_miss` and `after_write`.
    spec fn promotes(&self) -> bool;

    /// The cached keys after a read of `k` that missed and brought it in.
    spec fn after_miss(&self, k: Seq<u8>) -> Set<Seq<u8>>;

    /// The cached keys after a write of `k`.
    spec fn after_write(&self, k: Seq<u8>) -> Set<Seq<u8>>;

    /// Whether a write of `k` is taken by the cache alone, with no store call.
    spec fn absorbs(&self, k: Seq<u8>) -> bool;

    spec fn wf(&self) -> bool;

    /// The value of `key` and whether the cache answered. A key found in the store only is
    /// brought into the cache, as the policy admits it.
    fn get(&mut self, key: &[u8]) -> (r: Result<Option<(Vec<u8>, bool)>, StateError>)
        requires
            old(self).wf(),
        ensures
            final(self).wf(),
            final(self).promotes() == old(self).promotes(),
            final(self).store_infallible() == old(self).store_infallible(),
            final(self).capacity() == old(self).capacity(),
            final(self).cached().subset_of(old(self).cached().insert(key@)),
            old(self).cached().contains(key@) ==> (r matches Ok(Some(p)) && p.1),
            old(self).store_infallible() ==> r is Ok,
            r is Ok ==> final(self).view() == old(self).view(),
            r is Ok ==> got(r->Ok_0) == lookup(old(self).view(), key@),
            r matches Ok(Some(p)) ==> (p.1 <==> old(self).cached().contains(key@)),
            r matches Ok(Some(p)) && p.1 ==> final(self).cached() == old(self).cached(),
            r matches Ok(Some(p)) && !p.1 && old(self).promotes() ==> final(self).cached()
                == old(self).after_miss(key@),
            r matches Ok(Some(p)) && old(self).promotes() ==> final(self).cached().contains(
                key@,
            ),
    ;

    /// Writes `value` under `key`.
    fn insert(&mut self, key: &[u8], value: &[u8]) -> (r: Result<(), StateError>)
        requires
            old(self).wf(),
        ensures
            final(self).wf(),
            final(self).promotes() == old(self).promotes(),
            final(self).store_infallible() == old(self).store_infallible(),
            final(self).capacity() == old(self).capacity(),
            final(self).cached().subset_of(old(self).cached().insert(key@)),
            old(self).store_infallible() ==> r is Ok,
            old(self).absorbs(key@) ==> r is Ok,
            r is Ok ==> final(self).view() == old(self).view().insert(key@, value@),
            r is Ok ==> final(self).cached().subset_of(old(self).after_write(key@)),
            r is Ok && old(self).promotes() ==> final(self).cached() == old(self).after_write(
                key@,
            ),
    ;

    /// Writes every entry that the store lacks back to it.
    fn flush(&mut self) -> (r: Result<(), StateError>)
        requires
            old(self).wf(),
        ensures
            final(self).wf(),
            final(self).promotes() == old(self).promotes(),
            final(self).store_infallible() == old(self).store_infallible(),
            final(self).capacity() == old(self).capacity(),
            final(self).cached().subset_of(old(self).cached()),
            old(self).store_infallible() ==> r is Ok,
            r is Ok ==> final(self).view() == old(self).view(),
            r is Ok ==> final(self).stored() == old(self).view(),
    ;
}

/// A plain bounded cache: a full cache is written back whole and emptied before a new entry
/// comes in. Writes go through to the store.
pub struct PlainBounded<B: Backend> {
    store: B,
    size: usize,
    entries: Vec<(Vec<u8>, Vec<u8>)>,
}

impl<B: Backend> PlainBounded<B> {
    /// An empty cache of `size` entries in front of `store`; `size` is positive.
    pub fn new(store: B, size: usize) -> (r: Self)
        requires
            size > 0,
        ensures
            r.wf(),
            r.view() == store.contents(),
            r.stored() == store.contents(),
            r.store_infallible() == store.infallible(),
            r.cached() == Set::<Seq<u8>>::empty(),
            r.capacity() == size,
            r.entry_count() == 0,
            r.promotes(),
    {
        let r = PlainBounded { store, size, entries: Vec::new() };
        assert(r.cached() =~= Set::<Seq<u8>>::empty());
        r
    }

    /// How many entries the cache holds.
    pub closed spec fn entry_count(&self) -> nat {
        self.entries@.len()
    }

    /// A well-formed cache has a positive capacity, holds no more entries than that, and
    /// holds only what the store holds.
    pub proof fn lemma_wf(&self)
        requires
            self.wf(),
        ensures
            self.capacity() > 0,
            self.entry_count() <= self.capacity(),
            forall|k: Seq<u8>| #[trigger]
                self.cached().contains(k) ==> self.stored().contains_key(k),
            self.cached().finite(),
            self.cached().len() == self.entry_count(),
    {
        assert forall|k: Seq<u8>| #[trigger] self.cached().contains(k) implies self.stored().contains_key(k) by {
            let i = choose|i: int| 0 <= i < self.entries@.len() && self.entries@[i].0@ == k;
        }
        let ks = self.entries@.map_values(|e: (Vec<u8>, Vec<u8>)| e.0@);
        assert(ks.no_duplicates()) by {
            assert forall|i: int, j: int| 0 <= i < ks.len() && 0 <= j < ks.len() && i != j implies ks[i]
                != ks[j] by {
                if i < j {
                    assert(self.entries@[i].0@ != self.entries@[j].0@);
                } else {
                    assert(self.entries@[j].0@ != self.entries@[i].0@);
                }
            }
        }
        ks.unique_seq_to_set();
        assert forall|k: Seq<u8>| #[trigger] self.cached().contains(k) == ks.to_set().contains(k) by {
            if self.cached().contains(k) {
                let i = choose|i: int| 0 <= i < self.entries@.len() && self.entries@[i].0@ == k;
                assert(ks[i] == k);
            }
            if ks.to_set().contains(k) {
                let i = choose|i: int| 0 <= i < ks.len() && ks[i] == k;
                assert(self.entries@[i].0@ == k);
            }
        }
        assert(self.cached() =~= ks.to_set());
        vstd::seq_lib::seq_to_set_is_finite(ks);
    }

    /// The capacity.
    pub fn size(&self) -> (r: usize)
        ensures
            r == self.capacity(),
    {
        self.size
    }

    /// The number of cached entries.
    pub fn len(&self) -> (r: usize)
        ensures
            r == self.entry_count(),
    {
        self.entries.len()
    }

    /// The store behind the cache.
    pub fn store(&self) -> (r: &B)
        ensures
            r.contents() == self.stored(),
    {
        &self.store
    }
}

impl<B: Backend> CachePolicy for PlainBounded<B> {
    open spec fn view(&self) -> Map<Seq<u8>, Seq<u8>> {
        self.stored()
    }

    closed spec fn stored(&self) -> Map<Seq<u8>, Seq<u8>> {
        self.store.contents()
    }

    closed spec fn cached(&self) -> Set<Seq<u8>> {
        Set::new(
            |k: Seq<u8>| exists|i: int| 0 <= i < self.entries@.len() && self.entries@[i].0@ == k,
        )
    }

    closed spec fn store_infallible(&self) -> bool {
        self.store.infallible()
    }

    closed spec fn capacity(&self) -> nat {
        self.size as nat
    }

    open spec fn promotes(&self) -> bool {
        true
    }

    /// A full cache is written back and emptied before the new key comes in.
    open spec fn after_miss(&self, k: Seq<u8>) -> Set<Seq<u8>> {
        if self.entry_count() >= self.capacity() {
            Set::empty().insert(k)
        } else {
            self.cached().insert(k)
        }
    }

    /// Writes go through: the key leaves the cache.
    open spec fn after_write(&self, k: Seq<u8>) -> Set<Seq<u8>> {
        self.cached().remove(k)
    }

    open spec fn absorbs(&self, k: Seq<u8>) -> bool {
        false
    }

    closed spec fn wf(&self) -> bool {
        &&& self.size > 0
        &&& self.entries@.len() <= self.size
        &&& forall|i: int, j: int|
            0 <= i < j < self.entries@.len() ==> self.entries@[i].0@ != self.entries@[j].0@
        &&& forall|i: int|
            0 <= i < self.entries@.len() ==> self.store.contents().contains_key(
                #[trigger] self.entries@[i].0@,
            ) && self.store.contents()[self.entries@[i].0@] == self.entries@[i].1@
    }

    fn get(&mut self, key: &[u8]) -> (r: Result<Option<(Vec<u8>, bool)>, StateError>) {
        let mut i: usize = 0;
        while i < self.entries.len()
            invariant
                self.wf(),
                i <= self.entries@.len(),
                forall|j: int| 0 <= j < i ==> self.entries@[j].0@ != key@,
            decreases self.entries@.len() - i,
        {
            if bytes_eq(self.entries[i].0.as_slice(), key) {
                let v = slice_to_vec(self.entries[i].1.as_slice());
                assert(self.cached().contains(key@));
                return Ok(Some((v, true)));
            }
            i = i + 1;
        }
        assert(!self.cached().contains(key@));
        match self.store.get(key) {
            Err(e) => Err(e),
            Ok(None) => Ok(None),
            Ok(Some(v)) => {
                if self.entries.len() >= self.size {
                    let ghost m = self.store.contents();
                    proof {
                        lemma_insert_all_agreeing(m, self.entries@);
                    }
                    let written = self.store.put_all(self.entries.as_slice());
                    self.entries.clear();
                    if let Err(e) = written {
                        assert(self.cached() =~= Set::<Seq<u8>>::empty());
                        return Err(e);
                    }
                }
                let ghost before = self.entries@;
                self.entries.push((slice_to_vec(key), slice_to_vec(v.as_slice())));
                assert(self.cached().subset_of(old(self).cached().insert(key@))) by {
                    assert forall|k: Seq<u8>| #[trigger]
                        self.cached().contains(k) implies old(self).cached().insert(
                        key@,
                    ).contains(k) by {
                        let j = choose|j: int|
                            0 <= j < self.entries@.len() && self.entries@[j].0@ == k;
                        if j < before.len() && before.len() == old(self).entries@.len() {
                            assert(old(self).entries@[j] == self.entries@[j]);
                        }
                    }
                }
                assert(self.cached().contains(key@)) by {
                    assert(self.entries@[self.entries@.len() - 1].0@ == key@);
                }
                assert(self.cached() =~= old(self).after_miss(key@)) by {
                    assert forall|k: Seq<u8>| #[trigger] old(self).after_miss(key@).contains(k)
                        implies self.cached().contains(k) by {
                        if k != key@ {
                            let j = choose|j: int|
                                0 <= j < old(self).entries@.len() && old(self).entries@[j].0@ == k;
                            assert(self.entries@[j] == old(self).entries@[j]);
                        }
                    }
                    assert forall|k: Seq<u8>| #[trigger] self.cached().contains(k) implies old(
                        self,
                    ).after_miss(key@).contains(k) by {
                        let j = choose|j: int|
                            0 <= j < self.entries@.len() && self.entries@[j].0@ == k;
                        if j < before.len() && before.len() == old(self).entries@.len() {
                            assert(old(self).entries@[j] == self.entries@[j]);
                        }
                    }
                }
                Ok(Some((v, false)))
            },
        }
    }

    fn insert(&mut self, key: &[u8], value: &[u8]) -> (r: Result<(), StateError>) {
        let mut i: usize = 0;
        while i < self.entries.len()
            invariant
                self.wf(),
                *self == *old(self),
                i <= self.entries@.len(),
                forall|j: int| 0 <= j < i ==> self.entries@[j].0@ != key@,
            ensures
                i <= self.entries@.len(),
                forall|j: int| 0 <= j < i ==> self.entries@[j].0@ != key@,
                i < self.entries@.len() ==> self.entries@[i as int].0@ == key@,
            decreases self.entries@.len() - i,
        {
            if bytes_eq(self.entries[i].0.as_slice(), key) {
                break;
            }
            i = i + 1;
        }
        let ghost e0 = self.entries@;
        if i < self.entries.len() {
            self.entries.remove(i);
            assert(self.entries@ == e0.remove(i as int));
            assert(self.cached() =~= old(self).cached().remove(key@)) by {
                assert forall|k: Seq<u8>| #[trigger] old(self).cached().contains(k) && k != key@
                    implies self.cached().contains(k) by {
                    let j = choose|j: int| 0 <= j < e0.len() && e0[j].0@ == k;
                    if j < i {
                        assert(self.entries@[j] == e0[j]);
                    } else {
                        assert(j != i);
                        assert(self.entries@[j - 1] == e0[j]);
                    }
                }
                assert forall|k: Seq<u8>| #[trigger] self.cached().contains(k) implies old(
                    self,
                ).cached().contains(k) && k != key@ by {
                    let j = choose|j: int|
                        0 <= j < self.entries@.len() && self.entries@[j].0@ == k;
                    if j < i {
                        assert(self.entries@[j] == e0[j]);
                    } else {
                        assert(self.entries@[j] == e0[j + 1]);
                    }
                }
            }
        } else {
            assert(self.cached() =~= old(self).cached().remove(key@));
        }
        self.store.put(key, value)
    }

    fn flush(&mut self) -> (r: Result<(), StateError>) {
        Ok(())
    }
}

/// A least-recently-used cache. Writes go through to the store; a read that misses in a
/// full cache first writes the least recently used entry back and evicts it.
pub struct LruPolicy<B: Backend> {
    store: B,
    cache: LruCache<Vec<u8>, Vec<u8>>,
}

impl<B: Backend> LruPolicy<B> {
    /// An empty cache of `size` entries in front of `store`; `size` is positive.
    pub fn new(store: B, size: usize) -> (r: Self)
        requires
            size > 0,
        ensures
            r.wf(),
            r.view() == store.contents(),
            r.cached() == Set::<Seq<u8>>::empty(),
            r.stored() == store.contents(),
            r.store_infallible() == store.infallible(),
            r.capacity() == size,
            r.promotes(),
    {
        let r = LruPolicy { store, cache: lru_new(size) };
        assert(r.cached() =~= Set::<Seq<u8>>::empty());
        r
    }

    /// The cached entries.
    pub closed spec fn entries(&self) -> Map<Seq<u8>, Seq<u8>> {
        lru_entries(self.cache)
    }

    /// The cached keys, from the least to the most recently used.
    pub closed spec fn recency(&self) -> Seq<Seq<u8>> {
        lru_order(self.cache)
    }

    /// The capacity.
    pub fn size(&self) -> (r: usize)
        ensures
            r == self.capacity(),
    {
        lru_capacity(&self.cache)
    }

    /// The number of cached entries.
    pub fn len(&self) -> (r: usize)
        ensures
            r == self.recency().len(),
    {
        lru_len(&self.cache)
    }

    /// A well-formed cache has a positive capacity, lists each cached key once in its
    /// recency order, and holds no more entries than its capacity. Its entries agree with
    /// the store.
    pub proof fn lemma_wf(&self)
        requires
            self.wf(),
        ensures
            self.capacity() > 0,
            self.recency().no_duplicates(),
            forall|k: Seq<u8>| #[trigger]
                self.entries().contains_key(k) <==> self.recency().contains(k),
            self.entries().dom().finite(),
            self.entries().len() == self.recency().len(),
            self.recency().len() <= self.capacity(),
            forall|k: Seq<u8>| #[trigger]
                self.entries().contains_key(k) ==> self.stored().contains_key(k)
                    && self.stored()[k] == self.entries()[k],
    {
    }

    /// The store behind the cache.
    pub fn store(&self) -> (r: &B)
        ensures
            r.contents() == self.stored(),
    {
        &self.store
    }
}

impl<B: Backend> CachePolicy for LruPolicy<B> {
    open spec fn view(&self) -> Map<Seq<u8>, Seq<u8>> {
        self.stored()
    }

    closed spec fn stored(&self) -> Map<Seq<u8>, Seq<u8>> {
        self.store.contents()
    }

    open spec fn cached(&self) -> Set<Seq<u8>> {
        self.entries().dom()
    }

    closed spec fn store_infallible(&self) -> bool {
        self.store.infallible()
    }

    closed spec fn capacity(&self) -> nat {
        lru_cap(self.cache)
    }

    open spec fn promotes(&self) -> bool {
        true
    }

    /// A full cache first evicts its least recently used entry.
    open spec fn after_miss(&self, k: Seq<u8>) -> Set<Seq<u8>> {
        if self.recency().len() == self.capacity() {
            self.entries().dom().remove(self.recency()[0]).insert(k)
        } else {
            self.entries().dom().insert(k)
        }
    }

    /// Writes go through: the key leaves the cache.
    open spec fn after_write(&self, k: Seq<u8>) -> Set<Seq<u8>> {
        self.entries().dom().remove(k)
    }

    open spec fn absorbs(&self, k: Seq<u8>) -> bool {
        false
    }

    closed spec fn wf(&self) -> bool {
        &&& lru_valid(self.cache)
        &&& lru_cap(self.cache) > 0
        &&& forall|k: Seq<u8>| #[trigger]
            lru_entries(self.cache).contains_key(k) ==> self.store.contents().contains_key(k)
                && self.store.contents()[k] == lru_entries(self.cache)[k]
    }

    fn get(&mut self, key: &[u8]) -> (r: Result<Option<(Vec<u8>, bool)>, StateError>) {
        if let Some(v) = lru_get(&mut self.cache, key) {
            return Ok(Some((v, true)));
        }
        match self.store.get(key) {
            Err(e) => Err(e),
            Ok(None) => Ok(None),
            Ok(Some(v)) => {
                if lru_len(&self.cache) == lru_capacity(&self.cache) {
                    if let Some((k0, v0)) = lru_pop_lru(&mut self.cache) {
                        let ghost m = self.store.contents();
                        if let Err(e) = self.store.put(k0.as_slice(), v0.as_slice()) {
                            return Err(e);
                        }
                        assert(self.store.contents() =~= m);
                    }
                }
                lru_put(&mut self.cache, slice_to_vec(key), slice_to_vec(v.as_slice()));
                Ok(Some((v, false)))
            },
        }
    }

    fn insert(&mut self, key: &[u8], value: &[u8]) -> (r: Result<(), StateError>) {
        lru_pop(&mut self.cache, key);
        self.store.put(key, value)
    }

    fn flush(&mut self) -> (r: Result<(), StateError>) {
        Ok(())
    }
}

/// A least-recently-used cache that holds writes: an entry reaches the store when it is
/// evicted, which writes back the least recently used entry alone, or on flush.
pub struct Hybrid<B: Backend> {
    store: B,
    cache: LruCache<Vec<u8>, Vec<u8>>,
}

impl<B: Backend> Hybrid<B> {
    /// An empty cache of `size` entries in front of `store`; `size` is positive.
    pub fn new(store: B, size: usize) -> (r: Self)
        requires
            size > 0,
        ensures
            r.wf(),
            r.view() == store.contents(),
            r.cached() == Set::<Seq<u8>>::empty(),
            r.stored() == store.contents(),
            r.store_infallible() == store.infallible(),
            r.capacity() == size,
            r.promotes(),
    {
        let r = Hybrid { store, cache: lru_new(size) };
        assert(r.cached() =~= Set::<Seq<u8>>::empty());
        assert(r.view() =~= store.contents());
        r
    }

    /// The cached entries.
    pub closed spec fn entries(&self) -> Map<Seq<u8>, Seq<u8>> {
        lru_entries(self.cache)
    }

    /// The cached keys, from the least to the most recently used.
    pub closed spec fn recency(&self) -> Seq<Seq<u8>> {
        lru_order(self.cache)
    }

    /// The capacity.
    pub fn size(&self) -> (r: usize)
        ensures
            r == self.capacity(),
    {
        lru_capacity(&self.cache)
    }

    /// The number of cached entries.
    pub fn len(&self) -> (r: usize)
        ensures
            r == self.recency().len(),
    {
        lru_len(&self.cache)
    }

    /// A well-formed cache has a positive capacity, lists each cached key once in its
    /// recency order, and holds no more entries than its capacity.
    pub proof fn lemma_wf(&self)
        requires
            self.wf(),
        ensures
            self.capacity() > 0,
            self.recency().no_duplicates(),
            forall|k: Seq<u8>| #[trigger]
                self.entries().contains_key(k) <==> self.recency().contains(k),
            self.entries().dom().finite(),
            self.entries().len() == self.recency().len(),
            self.recency().len() <= self.capacity(),
    {
    }

    /// The store behind the cache.
    pub fn store(&self) -> (r: &B)
        ensures
            r.contents() == self.stored(),
    {
        &self.store
    }

    /// Writes every cached entry to the store and empties the cache.
    fn write_back_all(&mut self) -> (r: Result<(), StateError>)
        requires
            old(self).wf(),
        ensures
            final(self).wf(),
            r is Err ==> lru_entries(final(self).cache) == lru_entries(old(self).cache),
            final(self).store_infallible() == old(self).store_infallible(),
            final(self).capacity() == old(self).capacity(),
            old(self).store_infallible() ==> r is Ok,
            r is Ok ==> final(self).cached() == Set::<Seq<u8>>::empty(),
            r is Ok ==> final(self).stored() == old(self).view(),
            r is Ok ==> final(self).view() == old(self).view(),
    {
        let items = lru_items(&self.cache);
        proof {
            lemma_items_written(self.cache, items@, self.store.contents());
        }
        match self.store.put_all(items.as_slice()) {
            Err(e) => Err(e),
            Ok(()) => {
                lru_clear(&mut self.cache);
                assert(self.cached() =~= Set::<Seq<u8>>::empty());
                assert(self.view() =~= old(self).view());
                Ok(())
            },
        }
    }
}

impl<B: Backend> CachePolicy for Hybrid<B> {
    open spec fn view(&self) -> Map<Seq<u8>, Seq<u8>> {
        overlay(self.entries(), self.stored())
    }

    closed spec fn stored(&self) -> Map<Seq<u8>, Seq<u8>> {
        self.store.contents()
    }

    open spec fn cached(&self) -> Set<Seq<u8>> {
        self.entries().dom()
    }

    closed spec fn store_infallible(&self) -> bool {
        self.store.infallible()
    }

    closed spec fn capacity(&self) -> nat {
        lru_cap(self.cache)
    }

    open spec fn promotes(&self) -> bool {
        true
    }

    /// A full cache first evicts its least recently used entry, writing it back.
    open spec fn after_miss(&self, k: Seq<u8>) -> Set<Seq<u8>> {
        if self.recency().len() == self.capacity() {
            self.entries().dom().remove(self.recency()[0]).insert(k)
        } else {
            self.entries().dom().insert(k)
        }
    }

    /// A write of a new key into a full cache first evicts its least recently used entry,
    /// writing it back.
    open spec fn after_write(&self, k: Seq<u8>) -> Set<Seq<u8>> {
        if !self.entries().contains_key(k) && self.recency().len() == self.capacity() {
            self.entries().dom().remove(self.recency()[0]).insert(k)
        } else {
            self.entries().dom().insert(k)
        }
    }

    /// The cache takes a write alone when it holds the key or has room.
    open spec fn absorbs(&self, k: Seq<u8>) -> bool {
        self.entries().contains_key(k) || self.recency().len() < self.capacity()
    }

    closed spec fn wf(&self) -> bool {
        &&& lru_valid(self.cache)
        &&& lru_cap(self.cache) > 0
    }

    fn get(&mut self, key: &[u8]) -> (r: Result<Option<(Vec<u8>, bool)>, StateError>) {
        if let Some(v) = lru_get(&mut self.cache, key) {
            return Ok(Some((v, true)));
        }
        match self.store.get(key) {
            Err(e) => Err(e),
            Ok(None) => Ok(None),
            Ok(Some(v)) => {
                if lru_len(&self.cache) == lru_capacity(&self.cache) {
                    if let Some((k0, v0)) = lru_pop_lru(&mut self.cache) {
                        if let Err(e) = self.store.put(k0.as_slice(), v0.as_slice()) {
                            lru_put(&mut self.cache, k0, v0);
                            return Err(e);
                        }
                        assert(self.view() =~= old(self).view());
                    }
                }
                lru_put(&mut self.cache, slice_to_vec(key), slice_to_vec(v.as_slice()));
                Ok(Some((v, false)))
            },
        }
    }

    fn insert(&mut self, key: &[u8], value: &[u8]) -> (r: Result<(), StateError>) {
        if !lru_contains(&self.cache, key) && lru_len(&self.cache) == lru_capacity(&self.cache) {
            if let Some((k0, v0)) = lru_pop_lru(&mut self.cache) {
                if let Err(e) = self.store.put(k0.as_slice(), v0.as_slice()) {
                    lru_put(&mut self.cache, k0, v0);
                    assert(lru_entries(self.cache) =~= lru_entries(old(self).cache));
                    return Err(e);
                }
                assert(self.view() =~= old(self).view());
            }
        }
        let ghost mid = self.view();
        lru_put(&mut self.cache, slice_to_vec(key), slice_to_vec(value));
        assert(self.view() =~= mid.insert(key@, value@));
        assert(self.cached() =~= old(self).after_write(key@));
        Ok(())
    }

    fn flush(&mut self) -> (r: Result<(), StateError>) {
        self.write_back_all()
    }
}

/// An approximate least-frequently-used cache: a frequency sketch decides whether a key
/// read from the store is admitted, and which item makes room. Writes go through to the store.
pub struct LfuPolicy<B: Backend> {
    store: B,
    size: usize,
    cache: LfuCache,
}

impl<B: Backend> LfuPolicy<B> {
    /// An empty cache of `size` entries in front of `store`; `size` is positive.
    pub fn new(store: B, size: usize) -> (r: Self)
        requires
            size > 0,
        ensures
            r.wf(),
            r.view() == store.contents(),
            r.cached() == Set::<Seq<u8>>::empty(),
            r.capacity() == size,
            !r.promotes(),
    {
        let r = LfuPolicy { store, size, cache: lfu_new(size) };
        assert(r.cached() =~= Set::<Seq<u8>>::empty());
        r
    }

    /// The store behind the cache.
    pub fn store(&self) -> (r: &B)
        ensures
            r.contents() == self.stored(),
    {
        &self.store
    }
}

impl<B: Backend> CachePolicy for LfuPolicy<B> {
    open spec fn view(&self) -> Map<Seq<u8>, Seq<u8>> {
        self.stored()
    }

    closed spec fn stored(&self) -> Map<Seq<u8>, Seq<u8>> {
        self.store.contents()
    }

    closed spec fn cached(&self) -> Set<Seq<u8>> {
        Set::new(
            |k: Seq<u8>|
                lfu_items(self.cache).contains_key(lfu_slot(self.cache, k)) && lfu_items(
                    self.cache,
                )[lfu_slot(self.cache, k)].0 == k,
        )
    }

    closed spec fn store_infallible(&self) -> bool {
        self.store.infallible()
    }

    closed spec fn capacity(&self) -> nat {
        self.size as nat
    }

    open spec fn promotes(&self) -> bool {
        false
    }

    /// Admission decides: the key may come in, and some other key may leave.
    open spec fn after_miss(&self, k: Seq<u8>) -> Set<Seq<u8>> {
        self.cached().insert(k)
    }

    /// Writes go through: the key leaves the cache, and a key sharing its slot may too.
    open spec fn after_write(&self, k: Seq<u8>) -> Set<Seq<u8>> {
        self.cached().remove(k)
    }

    open spec fn absorbs(&self, k: Seq<u8>) -> bool {
        false
    }

    closed spec fn wf(&self) -> bool {
        forall|s: u64| #[trigger]
            lfu_items(self.cache).contains_key(s) ==> {
                let (k, v) = lfu_items(self.cache)[s];
                &&& lfu_slot(self.cache, k) == s
                &&& self.store.contents().contains_key(k)
                &&& self.store.contents()[k] == v
            }
    }

    fn get(&mut self, key: &[u8]) -> (r: Result<Option<(Vec<u8>, bool)>, StateError>) {
        if let Some((k, v)) = lfu_get(&self.cache, key) {
            if bytes_eq(k.as_slice(), key) {
                assert(self.cached().contains(key@));
                return Ok(Some((v, true)));
            }
        }
        assert(!self.cached().contains(key@));
        match self.store.get(key) {
            Err(e) => Err(e),
            Ok(None) => Ok(None),
            Ok(Some(v)) => {
                let ghost c0 = self.cache;
                lfu_insert(&mut self.cache, slice_to_vec(key), slice_to_vec(v.as_slice()));
                assert(self.cached().subset_of(old(self).cached().insert(key@))) by {
                    assert forall|k: Seq<u8>| #[trigger]
                        self.cached().contains(k) implies old(self).cached().insert(key@).contains(
                        k,
                    ) by {
                        assert(lfu_slot(self.cache, k) == lfu_slot(c0, k));
                        if k != key@ && lfu_slot(c0, k) == lfu_slot(c0, key@) {
                            assert(lfu_items(self.cache)[lfu_slot(c0, k)].0 == key@);
                        }
                    }
                }
                Ok(Some((v, false)))
            },
        }
    }

    fn insert(&mut self, key: &[u8], value: &[u8]) -> (r: Result<(), StateError>) {
        let ghost c0 = self.cache;
        lfu_remove(&mut self.cache, key);
        assert(self.cached().subset_of(old(self).cached())) by {
            assert forall|k: Seq<u8>| #[trigger]
                self.cached().contains(k) implies old(self).cached().contains(k) by {
                assert(lfu_slot(self.cache, k) == lfu_slot(c0, k));
            }
        }
        let ghost mid = self.store.contents();
        let r = self.store.put(key, value);
        assert(self.wf()) by {
            assert forall|s: u64| #[trigger] lfu_items(self.cache).contains_key(s) implies {
                let (k, v) = lfu_items(self.cache)[s];
                &&& lfu_slot(self.cache, k) == s
                &&& self.store.contents().contains_key(k)
                &&& self.store.contents()[k] == v
            } by {
                let (k, v) = lfu_items(self.cache)[s];
                assert(lfu_items(c0).contains_key(s));
                assert(lfu_slot(self.cache, k) == lfu_slot(c0, k));
                assert(s != lfu_slot(c0, key@));
                assert(k != key@);
            }
        }
        r
    }

    fn flush(&mut self) -> (r: Result<(), StateError>) {
        Ok(())
    }
}

/// The four policies side by side, each in front of its own store, to serve one workload
/// and compare hit rates.
pub struct CacheBundle<B: Backend> {
    pub size: usize,
    pub plain: PlainBounded<B>,
    pub lru: LruPolicy<B>,
    pub lfu: LfuPolicy<B>,
    pub hybrid: Hybrid<B>,
}

impl<B: Backend> CacheBundle<B> {
    /// Four empty caches of `size` entries; `size` is positive.
    pub fn new(size: usize, plain: B, lru: B, lfu: B, hybrid: B) -> (r: Self)
        requires
            size > 0,
        ensures
            r.size == size,
            r.plain.wf() && r.plain.view() == plain.contents(),
            r.lru.wf() && r.lru.view() == lru.contents(),
            r.lfu.wf() && r.lfu.view() == lfu.contents(),
            r.hybrid.wf() && r.hybrid.view() == hybrid.contents(),
    {
        CacheBundle {
            size,
            plain: PlainBounded::new(plain, size),
            lru: LruPolicy::new(lru, size),
            lfu: LfuPolicy::new(lfu, size),
            hybrid: Hybrid::new(hybrid, size),
        }
    }
}

/// One step of a workload: a read of a key, or a write of a key and value.
pub enum Access {
    Read(Seq<u8>),
    Write(Seq<u8>, Seq<u8>),
}

/// The key that an access touches.
pub open spec fn access_key(a: Access) -> Seq<u8> {
    match a {
        Access::Read(k) => k,
        Access::Write(k, _) => k,
    }
}

/// What reads see after an access, as the policy contract states it.
pub open spec fn after_access(m: Map<Seq<u8>, Seq<u8>>, a: Access) -> Map<Seq<u8>, Seq<u8>> {
    match a {
        Access::Read(_) => m,
        Access::Write(k, v) => m.insert(k, v),
    }
}

/// The contents after a whole trace.
pub open spec fn after_trace(m: Map<Seq<u8>, Seq<u8>>, trace: Seq<Access>) -> Map<
    Seq<u8>,
    Seq<u8>,
>
    decreases trace.len(),
{
    if trace.len() == 0 {
        m
    } else {
        after_access(after_trace(m, trace.drop_last()), trace.last())
    }
}

proof fn lemma_not_cached_before(
    cached: Seq<Set<Seq<u8>>>,
    trace: Seq<Access>,
    k: Seq<u8>,
    j: int,
)
    requires
        cached.len() == trace.len() + 1,
        cached[0] == Set::<Seq<u8>>::empty(),
        forall|t: int|
            0 <= t < trace.len() ==> #[trigger] cached[t + 1].subset_of(
                cached[t].insert(access_key(trace[t])),
            ),
        0 <= j <= trace.len(),
        forall|t: int| 0 <= t < j ==> access_key(#[trigger] trace[t]) != k,
    ensures
        !cached[j].contains(k),
    decreases j,
{
    if j > 0 {
        lemma_not_cached_before(cached, trace, k, j - 1);
        let t = j - 1;
        assert(cached[t + 1].subset_of(cached[t].insert(access_key(trace[t]))));
        assert(access_key(trace[j - 1]) != k);
    }
}

/// Under any policy, the cached keys grow at most by the accessed key at each step. So,
/// starting from an empty cache, the first access to every key is a miss.
pub proof fn lemma_first_access_misses(
    cached: Seq<Set<Seq<u8>>>,
    trace: Seq<Access>,
    i: int,
)
    requires
        cached.len() == trace.len() + 1,
        cached[0] == Set::<Seq<u8>>::empty(),
        forall|j: int|
            0 <= j < trace.len() ==> #[trigger] cached[j + 1].subset_of(
                cached[j].insert(access_key(trace[j])),
            ),
        0 <= i < trace.len(),
        forall|j: int| 0 <= j < i ==> access_key(#[trigger] trace[j]) != access_key(trace[i]),
    ensures
        !cached[i].contains(access_key(trace[i])),
{
    lemma_not_cached_before(cached, trace, access_key(trace[i]), i);
}

proof fn lemma_views_follow_trace(
    views: Seq<Map<Seq<u8>, Seq<u8>>>,
    trace: Seq<Access>,
    j: int,
)
    requires
        views.len() == trace.len() + 1,
        forall|t: int|
            0 <= t < trace.len() ==> #[trigger] views[t + 1] == after_access(views[t], trace[t]),
        0 <= j <= trace.len(),
    ensures
        views[j] == after_trace(views[0], trace.subrange(0, j)),
    decreases j,
{
    if j == 0 {
        assert(trace.subrange(0, 0) =~= Seq::<Access>::empty());
    } else {
        lemma_views_follow_trace(views, trace, j - 1);
        let t = j - 1;
        assert(views[t + 1] == after_access(views[t], trace[t]));
        assert(trace.subrange(0, j).drop_last() =~= trace.subrange(0, j - 1));
    }
}

/// Two policies that start from the same contents and serve the same trace see the same
/// contents after every step: their reads return the same values, and once flushed their
/// stores hold the same state.
pub proof fn lemma_same_trace_same_state(
    views_a: Seq<Map<Seq<u8>, Seq<u8>>>,
    views_b: Seq<Map<Seq<u8>, Seq<u8>>>,
    trace: Seq<Access>,
)
    requires
        views_a.len() == trace.len() + 1,
        views_b.len() == trace.len() + 1,
        views_a[0] == views_b[0],
        forall|j: int|
            0 <= j < trace.len() ==> #[trigger] views_a[j + 1] == after_access(
                views_a[j],
                trace[j],
            ),
        forall|j: int|
            0 <= j < trace.len() ==> #[trigger] views_b[j + 1] == after_access(
                views_b[j],
                trace[j],
            ),
    ensures
        forall|j: int| 0 <= j < views_a.len() ==> #[trigger] views_a[j] == views_b[j],
        views_a.last() == after_trace(views_a[0], trace),
        views_b.last() == after_trace(views_a[0], trace),
{
    assert forall|j: int| 0 <= j < views_a.len() implies #[trigger] views_a[j] == views_b[j] by {
        lemma_views_follow_trace(views_a, trace, j);
        lemma_views_follow_trace(views_b, trace, j);
    }
    lemma_views_follow_trace(views_a, trace, trace.len() as int);
    lemma_views_follow_trace(views_b, trace, trace.len() as int);
    assert(trace.subrange(0, trace.len() as int) =~= trace);
}

} // verus!
