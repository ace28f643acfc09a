use vstd::prelude::*;
use vstd::slice::slice_to_vec;

use std::collections::VecDeque;

use lru::LruCache;

use crate::error::StateError;
use crate::lru_map::{
    lemma_items_written, lru_cap, lru_entries, lru_items, lru_len, lru_new, lru_order, lru_peek,
    lru_pop, lru_put, lru_valid,
};
use crate::codec::{has_prefix, is_prefix};
use crate::store::{batch_has, lookup, opt_bytes, overlay, without_prefix, Backend};

verus! {

/// The frozen snapshots seen as one map, oldest first in `fs`: a newer snapshot shadows an
/// older one.
pub open spec fn stack(fs: Seq<Map<Seq<u8>, Seq<u8>>>) -> Map<Seq<u8>, Seq<u8>>
    decreases fs.len(),
{
    if fs.len() == 0 {
        Map::empty()
    } else {
        overlay(fs.last(), stack(fs.drop_last()))
    }
}

/// Whether a deletion of `d` (a key, or a prefix when `by_prefix`) spares `k`.
pub open spec fn spares(d: Seq<u8>, by_prefix: bool, k: Seq<u8>) -> bool {
    if by_prefix {
        !is_prefix(d, k)
    } else {
        k != d
    }
}

/// `m` after a deletion of `d`.
pub open spec fn dropped(m: Map<Seq<u8>, Seq<u8>>, d: Seq<u8>, by_prefix: bool) -> Map<
    Seq<u8>,
    Seq<u8>,
> {
    Map::new(|k: Seq<u8>| m.contains_key(k) && spares(d, by_prefix, k), |k: Seq<u8>| m[k])
}

/// Each map of `fs` after a deletion of `d`.
pub open spec fn dropped_all(fs: Seq<Map<Seq<u8>, Seq<u8>>>, d: Seq<u8>, by_prefix: bool) -> Seq<
    Map<Seq<u8>, Seq<u8>>,
> {
    fs.map_values(|m: Map<Seq<u8>, Seq<u8>>| dropped(m, d, by_prefix))
}

pub proof fn lemma_stack_dropped(fs: Seq<Map<Seq<u8>, Seq<u8>>>, d: Seq<u8>, by_prefix: bool)
    ensures
        stack(dropped_all(fs, d, by_prefix)) == dropped(stack(fs), d, by_prefix),
    decreases fs.len(),
{
    let gs = dropped_all(fs, d, by_prefix);
    if fs.len() == 0 {
        assert(stack(gs) =~= dropped(stack(fs), d, by_prefix));
    } else {
        lemma_stack_dropped(fs.drop_last(), d, by_prefix);
        assert(gs.drop_last() =~= dropped_all(fs.drop_last(), d, by_prefix));
        assert(stack(gs) =~= dropped(stack(fs), d, by_prefix));
    }
}

/// The cache layers of a tiered store: the active map, the frozen queue (oldest first) and
/// the capacity of the active map.
pub struct CacheShape {
    pub active: Map<Seq<u8>, Seq<u8>>,
    pub frozen: Seq<Map<Seq<u8>, Seq<u8>>>,
    pub capacity: nat,
}

/// The cache layers after a write: a full active map is frozen first and replaced by an
/// empty one.
pub open spec fn put_shape(s: CacheShape, k: Seq<u8>, v: Seq<u8>) -> CacheShape {
    if s.active.len() < s.capacity {
        CacheShape { active: s.active.insert(k, v), frozen: s.frozen, capacity: s.capacity }
    } else {
        CacheShape {
            active: Map::empty().insert(k, v),
            frozen: s.frozen.push(s.active),
            capacity: s.capacity,
        }
    }
}

/// The cache layers after a sequence of writes.
pub open spec fn put_all_shape(s: CacheShape, writes: Seq<(Seq<u8>, Seq<u8>)>) -> CacheShape
    decreases writes.len(),
{
    if writes.len() == 0 {
        s
    } else {
        let t = put_all_shape(s, writes.drop_last());
        put_shape(t, writes.last().0, writes.last().1)
    }
}

/// The layer that answered a read.
#[derive(Clone, Copy, Debug, PartialEq, Eq, Structural)]
pub enum Layer {
    Active,
    Frozen,
    Local,
    Remote,
}

/// How many reads each layer answered.
#[derive(Clone, Copy, Debug, PartialEq, Eq, Structural)]
pub struct LayerHits {
    pub active: u64,
    pub frozen: u64,
    pub local: u64,
    pub remote: u64,
}

pub open spec fn bump(n: u64) -> u64 {
    if n < u64::MAX {
        (n + 1) as u64
    } else {
        n
    }
}

impl LayerHits {
    /// No reads yet.
    pub fn new() -> (r: LayerHits)
        ensures
            r == (LayerHits { active: 0, frozen: 0, local: 0, remote: 0 }),
    {
        LayerHits { active: 0, frozen: 0, local: 0, remote: 0 }
    }

    pub open spec fn counted(self, l: Layer) -> LayerHits {
        match l {
            Layer::Active => LayerHits { active: bump(self.active), ..self },
            Layer::Frozen => LayerHits { frozen: bump(self.frozen), ..self },
            Layer::Local => LayerHits { local: bump(self.local), ..self },
            Layer::Remote => LayerHits { remote: bump(self.remote), ..self },
        }
    }

    /// Counts one read answered by `l`; a counter stays at its maximum.
    pub fn count(&mut self, l: Layer)
        ensures
            *final(self) == old(self).counted(l),
    {
        match l {
            Layer::Active => {
                if self.active < u64::MAX {
                    self.active = self.active + 1;
                }
            },
            Layer::Frozen => {
                if self.frozen < u64::MAX {
                    self.frozen = self.frozen + 1;
                }
            },
            Layer::Local => {
                if self.local < u64::MAX {
                    self.local = self.local + 1;
                }
            },
            Layer::Remote => {
                if self.remote < u64::MAX {
                    self.remote = self.remote + 1;
                }
            },
        }
    }
}

/// A store in tiers: a bounded active cache, a queue of frozen caches awaiting write-back, a
/// local engine and a remote store.
pub struct Tiered<L: Backend, R: Backend> {
    local: L,
    remote: R,
    name: String,
    restored: bool,
    capacity: usize,
    active: LruCache<Vec<u8>, Vec<u8>>,
    frozen: VecDeque<LruCache<Vec<u8>, Vec<u8>>>,
    hits: LayerHits,
}

pub proof fn lemma_stack_drop_first(fs: Seq<Map<Seq<u8>, Seq<u8>>>)
    requires
        fs.len() > 0,
    ensures
        stack(fs) == overlay(stack(fs.drop_first()), fs[0]),
    decreases fs.len(),
{
    if fs.len() == 1 {
        assert(fs.drop_last() =~= Seq::<Map<Seq<u8>, Seq<u8>>>::empty());
        assert(fs.drop_first() =~= Seq::<Map<Seq<u8>, Seq<u8>>>::empty());
        assert(stack(fs) =~= overlay(stack(fs.drop_first()), fs[0]));
    } else {
        lemma_stack_drop_first(fs.drop_last());
        assert(fs.drop_last().drop_first() =~= fs.drop_first().drop_last());
        assert(fs.drop_first().last() == fs.last());
        assert(stack(fs) =~= overlay(stack(fs.drop_first()), fs[0]));
    }
}

/// Some pair among the first `n` of `s` has key `k`.
pub open spec fn among(s: Seq<(Vec<u8>, Vec<u8>)>, n: int, k: Seq<u8>) -> bool {
    exists|j: int| 0 <= j < n && (#[trigger] s[j]).0@ == k
}

/// Deletes `d` (a key, or every key that it starts when `by_prefix`) from an LRU cache.
fn drop_in_cache(c: &mut LruCache<Vec<u8>, Vec<u8>>, d: &[u8], by_prefix: bool)
    requires
        lru_valid(*old(c)),
    ensures
        lru_valid(*final(c)),
        lru_cap(*final(c)) == lru_cap(*old(c)),
        lru_entries(*final(c)) == dropped(lru_entries(*old(c)), d@, by_prefix),
{
    if !by_prefix {
        lru_pop(c, d);
        assert(lru_entries(*c) =~= dropped(lru_entries(*old(c)), d@, by_prefix));
        return ;
    }
    let ghost e = lru_entries(*c);
    let ghost order = lru_order(*c);
    let items = lru_items(c);
    let n = items.len();
    let mut i: usize = 0;
    while i < n
        invariant
            n == items@.len(),
            n == order.len(),
            i <= n,
            by_prefix,
            lru_valid(*c),
            lru_cap(*c) == lru_cap(*old(c)),
            forall|j: int| 0 <= j < n ==> (#[trigger] items@[j]).0@ == order[n - 1 - j],
            lru_entries(*c) == Map::new(
                |k: Seq<u8>| e.contains_key(k) && !(is_prefix(d@, k) && among(items@, i as int, k)),
                |k: Seq<u8>| e[k],
            ),
        decreases n - i,
    {
        let ghost before = lru_entries(*c);
        let ghost ki = items@[i as int].0@;
        if has_prefix(d, items[i].0.as_slice()) {
            lru_pop(c, items[i].0.as_slice());
        }
        i = i + 1;
        assert(lru_entries(*c) =~= Map::new(
            |k: Seq<u8>| e.contains_key(k) && !(is_prefix(d@, k) && among(items@, i as int, k)),
            |k: Seq<u8>| e[k],
        )) by {
            assert forall|k: Seq<u8>| #[trigger]
                among(items@, i as int, k) <==> among(items@, i - 1, k) || k == ki by {
                if k == ki {
                    assert(items@[i - 1].0@ == k);
                }
                if among(items@, i as int, k) && k != ki {
                    let j = choose|j: int| 0 <= j < i && (#[trigger] items@[j]).0@ == k;
                    assert(j < i - 1);
                }
            }
        }
    }
    assert(lru_entries(*c) =~= dropped(e, d@, by_prefix)) by {
        assert forall|k: Seq<u8>| #[trigger] e.contains_key(k) implies among(items@, n as int, k) by {
            let t = order.index_of(k);
            assert(items@[n - 1 - t].0@ == k);
        }
    }
}

/// Store changes confined to the keys of the oldest frozen snapshot do not change what reads
/// see: the snapshot shadows those keys.
pub proof fn lemma_shadowed_stores(
    a: Map<Seq<u8>, Seq<u8>>,
    fs: Seq<Map<Seq<u8>, Seq<u8>>>,
    l: Map<Seq<u8>, Seq<u8>>,
    r: Map<Seq<u8>, Seq<u8>>,
    l2: Map<Seq<u8>, Seq<u8>>,
    r2: Map<Seq<u8>, Seq<u8>>,
)
    requires
        fs.len() > 0,
        forall|k: Seq<u8>| !fs[0].contains_key(k) ==> #[trigger] lookup(l2, k) == lookup(l, k),
        forall|k: Seq<u8>| !fs[0].contains_key(k) ==> #[trigger] lookup(r2, k) == lookup(r, k),
    ensures
        overlay(a, overlay(stack(fs), overlay(l2, r2))) == overlay(
            a,
            overlay(stack(fs), overlay(l, r)),
        ),
{
    lemma_stack_drop_first(fs);
    let x = overlay(a, overlay(stack(fs), overlay(l2, r2)));
    let y = overlay(a, overlay(stack(fs), overlay(l, r)));
    assert forall|k: Seq<u8>| #[trigger] x.dom().contains(k) == y.dom().contains(k) by {
        if !stack(fs).contains_key(k) {
            assert(!fs[0].contains_key(k));
            assert(lookup(l2, k) == lookup(l, k));
            assert(lookup(r2, k) == lookup(r, k));
        }
    }
    assert(x.dom() =~= y.dom());
    assert forall|k: Seq<u8>| x.contains_key(k) implies #[trigger] x[k] == y[k] by {
        if !stack(fs).contains_key(k) {
            assert(!fs[0].contains_key(k));
            assert(lookup(l2, k) == lookup(l, k));
            assert(lookup(r2, k) == lookup(r, k));
        }
    }
    assert(x =~= y);
}

impl<L: Backend, R: Backend> Tiered<L, R> {
    pub closed spec fn active_map(&self) -> Map<Seq<u8>, Seq<u8>> {
        lru_entries(self.active)
    }

    pub closed spec fn frozen_maps(&self) -> Seq<Map<Seq<u8>, Seq<u8>>> {
        self.frozen@.map_values(|c: LruCache<Vec<u8>, Vec<u8>>| lru_entries(c))
    }

    pub closed spec fn local_map(&self) -> Map<Seq<u8>, Seq<u8>> {
        self.local.contents()
    }

    pub closed spec fn remote_map(&self) -> Map<Seq<u8>, Seq<u8>> {
        self.remote.contents()
    }

    pub closed spec fn cap(&self) -> nat {
        self.capacity as nat
    }

    pub closed spec fn hit_counts(&self) -> LayerHits {
        self.hits
    }

    pub closed spec fn name_view(&self) -> Seq<char> {
        self.name@
    }

    /// Neither store can fail.
    pub closed spec fn stores_infallible(&self) -> bool {
        self.local.infallible() && self.remote.infallible()
    }

    pub closed spec fn is_restored(&self) -> bool {
        self.restored
    }

    /// The cache layers.
    pub open spec fn shape(&self) -> CacheShape {
        CacheShape { active: self.active_map(), frozen: self.frozen_maps(), capacity: self.cap() }
    }

    /// What a read sees: the active cache, then the frozen caches from the newest, then the
    /// local engine, then the remote store.
    pub open spec fn view(&self) -> Map<Seq<u8>, Seq<u8>> {
        overlay(
            self.active_map(),
            overlay(stack(self.frozen_maps()), overlay(self.local_map(), self.remote_map())),
        )
    }

    /// What the cache layers hold, seen as one map: the active cache over the frozen ones.
    pub open spec fn cached_map(&self) -> Map<Seq<u8>, Seq<u8>> {
        overlay(self.active_map(), stack(self.frozen_maps()))
    }

    /// The layer that answers a read of `k`.
    pub open spec fn layer_of(&self, k: Seq<u8>) -> Layer {
        if self.active_map().contains_key(k) {
            Layer::Active
        } else if stack(self.frozen_maps()).contains_key(k) {
            Layer::Frozen
        } else if self.local_map().contains_key(k) {
            Layer::Local
        } else {
            Layer::Remote
        }
    }

    pub closed spec fn wf(&self) -> bool {
        &&& self.capacity > 0
        &&& lru_valid(self.active)
        &&& lru_cap(self.active) == self.capacity
        &&& forall|i: int| 0 <= i < self.frozen@.len() ==> lru_valid(#[trigger] self.frozen@[i])
    }

    proof fn lemma_active_len(&self)
        requires
            self.wf(),
        ensures
            self.active_map().len() == lru_order(self.active).len(),
            self.active_map().dom().finite(),
    {
    }

    /// A well-formed store has a positive capacity, and its active cache holds no more
    /// entries than that.
    pub proof fn lemma_capacity_bound(&self)
        requires
            self.wf(),
        ensures
            self.cap() > 0,
            self.active_map().dom().finite(),
            self.active_map().len() <= self.cap(),
    {
    }

    /// A tiered store over `local` and `remote` whose active cache holds `capacity` entries;
    /// a zero capacity is rejected.
    pub fn create(local: L, remote: R, name: String, capacity: usize) -> (r: Result<
        Self,
        StateError,
    >)
        ensures
            capacity == 0 <==> r is Err,
            r is Err ==> r->Err_0 == StateError::InvalidArgument,
            r is Ok ==> {
                let t = r->Ok_0;
                &&& t.wf()
                &&& t.active_map() == Map::<Seq<u8>, Seq<u8>>::empty()
                &&& t.frozen_maps().len() == 0
                &&& t.cap() == capacity
                &&& t.local_map() == local.contents()
                &&& t.remote_map() == remote.contents()
                &&& !t.is_restored()
                &&& t.name_view() == name@
                &&& t.stores_infallible() == (local.infallible() && remote.infallible())
                &&& t.hit_counts() == (LayerHits { active: 0, frozen: 0, local: 0, remote: 0 })
            },
    {
        if capacity == 0 {
            return Err(StateError::InvalidArgument);
        }
        let active = lru_new(capacity);
        let t = Tiered {
            local,
            remote,
            name,
            restored: false,
            capacity,
            active,
            frozen: VecDeque::new(),
            hits: LayerHits::new(),
        };
        assert(t.frozen_maps() =~= Seq::<Map<Seq<u8>, Seq<u8>>>::empty());
        Ok(t)
    }

    /// A tiered store over a local engine opened from a checkpoint.
    pub fn restore(local: L, remote: R, name: String, capacity: usize) -> (r: Result<
        Self,
        StateError,
    >)
        ensures
            capacity == 0 <==> r is Err,
            r is Err ==> r->Err_0 == StateError::InvalidArgument,
            r is Ok ==> {
                let t = r->Ok_0;
                &&& t.wf()
                &&& t.active_map() == Map::<Seq<u8>, Seq<u8>>::empty()
                &&& t.frozen_maps().len() == 0
                &&& t.cap() == capacity
                &&& t.local_map() == local.contents()
                &&& t.remote_map() == remote.contents()
                &&& t.is_restored()
                &&& t.name_view() == name@
                &&& t.stores_infallible() == (local.infallible() && remote.infallible())
                &&& t.hit_counts() == (LayerHits { active: 0, frozen: 0, local: 0, remote: 0 })
            },
    {
        match Self::create(local, remote, name, capacity) {
            Err(e) => Err(e),
            Ok(mut t) => {
                t.restored = true;
                Ok(t)
            },
        }
    }

    /// Whether this store was opened from a checkpoint.
    pub fn was_restored(&self) -> (r: bool)
        ensures
            r == self.is_restored(),
    {
        self.restored
    }

    /// The store's name.
    pub fn name(&self) -> (r: &str)
        ensures
            r@ == self.name_view(),
    {
        self.name.as_str()
    }

    /// How many reads each layer has answered.
    pub fn layer_hits(&self) -> (r: LayerHits)
        ensures
            r == self.hit_counts(),
    {
        self.hits
    }

    /// The number of frozen caches that await write-back.
    pub fn frozen_len(&self) -> (r: usize)
        ensures
            r == self.frozen_maps().len(),
    {
        self.frozen.len()
    }

    /// The number of entries in the active cache.
    pub fn active_len(&self) -> (r: usize)
        requires
            self.wf(),
        ensures
            r == self.active_map().len(),
    {
        lru_len(&self.active)
    }

    /// The local engine.
    pub fn local(&self) -> (r: &L)
        ensures
            r.contents() == self.local_map(),
    {
        &self.local
    }

    /// The remote store.
    pub fn remote(&self) -> (r: &R)
        ensures
            r.contents() == self.remote_map(),
    {
        &self.remote
    }

    /// Reads `key` from the layers in order, with the layer that answered.
    fn read_layers(&self, key: &[u8]) -> (r: Result<(Option<Vec<u8>>, Layer), StateError>)
        requires
            self.wf(),
        ensures
            self.cached_map().contains_key(key@) ==> r is Ok,
            self.stores_infallible() ==> r is Ok,
            r is Ok ==> opt_bytes(r->Ok_0.0) == lookup(self.view(), key@) && r->Ok_0.1
                == self.layer_of(key@),
    {
        if let Some(v) = lru_peek(&self.active, key) {
            return Ok((Some(v), Layer::Active));
        }
        let ghost fs = self.frozen_maps();
        let mut i: usize = self.frozen.len();
        assert(fs.subrange(0, i as int) =~= fs);
        while i > 0
            invariant
                self.wf(),
                fs == self.frozen_maps(),
                !self.active_map().contains_key(key@),
                i <= fs.len(),
                lookup(stack(fs), key@) == lookup(stack(fs.subrange(0, i as int)), key@),
            decreases i,
        {
            assert(fs.subrange(0, i as int).drop_last() =~= fs.subrange(0, i - 1));
            assert(fs[i - 1] == lru_entries(self.frozen@[i - 1]));
            assert(fs.subrange(0, i as int).last() == fs[i - 1]);
            if let Some(v) = lru_peek(&self.frozen[i - 1], key) {
                assert(lookup(stack(fs.subrange(0, i as int)), key@) == Some(v@));
                assert(stack(fs).contains_key(key@) && stack(fs)[key@] == v@);
                return Ok((Some(v), Layer::Frozen));
            }
            i = i - 1;
        }
        assert(stack(fs.subrange(0, 0)) =~= Map::<Seq<u8>, Seq<u8>>::empty());
        match self.local.get(key) {
            Err(e) => Err(e),
            Ok(Some(v)) => Ok((Some(v), Layer::Local)),
            Ok(None) => match self.remote.get(key) {
                Err(e) => Err(e),
                Ok(v) => Ok((v, Layer::Remote)),
            },
        }
    }

    /// The value under `key`: the newest write wins, in whichever layer it is. The layer that
    /// answered is counted.
    pub fn get(&mut self, _cf: &str, key: &[u8]) -> (r: Result<Option<Vec<u8>>, StateError>)
        requires
            old(self).wf(),
        ensures
            final(self).wf(),
            final(self).shape() == old(self).shape(),
            final(self).local_map() == old(self).local_map(),
            final(self).remote_map() == old(self).remote_map(),
            final(self).stores_infallible() == old(self).stores_infallible(),
            old(self).cached_map().contains_key(key@) ==> r is Ok,
            old(self).stores_infallible() ==> r is Ok,
            r is Ok ==> opt_bytes(r->Ok_0) == lookup(old(self).view(), key@),
            r matches Ok(Some(_)) ==> final(self).hit_counts() == old(self).hit_counts().counted(
                old(self).layer_of(key@),
            ),
            !(r matches Ok(Some(_))) ==> final(self).hit_counts() == old(self).hit_counts(),
    {
        match self.read_layers(key) {
            Err(e) => Err(e),
            Ok((v, l)) => {
                if v.is_some() {
                    self.hits.count(l);
                }
                Ok(v)
            },
        }
    }

    /// Whether `key` holds a value in any layer.
    pub fn contains(&self, _cf: &str, key: &[u8]) -> (r: Result<bool, StateError>)
        requires
            self.wf(),
        ensures
            self.cached_map().contains_key(key@) ==> r == Ok::<bool, StateError>(true),
            self.stores_infallible() ==> r is Ok,
            r is Ok ==> r->Ok_0 == self.view().contains_key(key@),
    {
        match self.read_layers(key) {
            Err(e) => Err(e),
            Ok((v, _)) => Ok(v.is_some()),
        }
    }

    /// Writes `value` under `key` into the active cache. A full active cache is first frozen
    /// onto the back of the queue and replaced by an empty one.
    pub fn put(&mut self, _cf: &str, key: &[u8], value: &[u8]) -> (r: Result<(), StateError>)
        requires
            old(self).wf(),
        ensures
            r is Ok,
            final(self).wf(),
            final(self).view() == old(self).view().insert(key@, value@),
            final(self).shape() == put_shape(old(self).shape(), key@, value@),
            final(self).cached_map().contains_key(key@),
            final(self).cap() > 0,
            final(self).active_map().len() <= final(self).cap(),
            final(self).stores_infallible() == old(self).stores_infallible(),
            final(self).local_map() == old(self).local_map(),
            final(self).remote_map() == old(self).remote_map(),
            final(self).hit_counts() == old(self).hit_counts(),
    {
        let ghost before = self.view();
        let ghost fs = self.frozen_maps();
        proof {
            self.lemma_active_len();
        }
        if lru_len(&self.active) < self.capacity {
            lru_put(&mut self.active, slice_to_vec(key), slice_to_vec(value));
            assert(self.frozen_maps() =~= fs);
        } else {
            let ghost full = self.active_map();
            let mut fresh = lru_new(self.capacity);
            std::mem::swap(&mut fresh, &mut self.active);
            self.frozen.push_back(fresh);
            lru_put(&mut self.active, slice_to_vec(key), slice_to_vec(value));
            assert(self.frozen_maps() =~= fs.push(full));
            assert(self.frozen_maps().drop_last() =~= fs);
            assert(self.active_map() =~= Map::<Seq<u8>, Seq<u8>>::empty().insert(key@, value@));
        }
        assert(self.view() =~= before.insert(key@, value@));
        proof {
            self.lemma_active_len();
        }
        Ok(())
    }

    /// Writes the oldest frozen cache to the local engine and then to the remote store, and
    /// drops it from the queue. Returns whether there was one. On an error the cache stays
    /// queued, to be written again.
    pub fn write_back(&mut self) -> (r: Result<bool, StateError>)
        requires
            old(self).wf(),
        ensures
            final(self).wf(),
            final(self).active_map() == old(self).active_map(),
            final(self).cap() == old(self).cap(),
            final(self).hit_counts() == old(self).hit_counts(),
            final(self).stores_infallible() == old(self).stores_infallible(),
            old(self).stores_infallible() ==> r is Ok,
            r == Ok::<bool, StateError>(false) <==> old(self).frozen_maps().len() == 0,
            r is Err ==> final(self).frozen_maps() == old(self).frozen_maps(),
            final(self).view() == old(self).view(),
            r == Ok::<bool, StateError>(true) ==> {
                &&& final(self).frozen_maps() == old(self).frozen_maps().drop_first()
                &&& final(self).local_map() == overlay(
                    old(self).frozen_maps()[0],
                    old(self).local_map(),
                )
                &&& final(self).remote_map() == overlay(
                    old(self).frozen_maps()[0],
                    old(self).remote_map(),
                )
            },
    {
        if self.frozen.len() == 0 {
            return Ok(false);
        }
        let ghost before = self.view();
        let ghost fs = self.frozen_maps();
        let ghost l0 = self.local_map();
        let ghost r0 = self.remote_map();
        let items = lru_items(&self.frozen[0]);
        proof {
            let c = self.frozen@[0];
            assert(fs[0] == lru_entries(c));
            lemma_items_written(c, items@, l0);
            lemma_items_written(c, items@, r0);
            assert forall|k: Seq<u8>| batch_has(items@, k) implies fs[0].contains_key(k) by {
                let n = items@.len();
                let i = choose|i: int| 0 <= i < n && (#[trigger] items@[i]).0@ == k;
                assert(lru_order(c).contains(lru_order(c)[n - 1 - i]));
            }
        }
        match self.local.put_all(items.as_slice()) {
            Err(e) => {
                proof {
                    lemma_shadowed_stores(self.active_map(), fs, l0, r0, self.local_map(), r0);
                }
                return Err(e);
            },
            Ok(()) => {},
        }
        match self.remote.put_all(items.as_slice()) {
            Err(e) => {
                proof {
                    lemma_shadowed_stores(
                        self.active_map(),
                        fs,
                        l0,
                        r0,
                        self.local_map(),
                        self.remote_map(),
                    );
                }
                return Err(e);
            },
            Ok(()) => {},
        }
        self.frozen.pop_front();
        proof {
            assert(self.frozen_maps() =~= fs.drop_first());
            lemma_stack_drop_first(fs);
            assert(self.view() =~= before);
        }
        Ok(true)
    }

    /// Freezes the active cache onto the back of the queue, when it holds anything.
    pub fn freeze(&mut self)
        requires
            old(self).wf(),
        ensures
            final(self).wf(),
            final(self).view() == old(self).view(),
            final(self).cap() == old(self).cap(),
            final(self).local_map() == old(self).local_map(),
            final(self).remote_map() == old(self).remote_map(),
            final(self).hit_counts() == old(self).hit_counts(),
            final(self).stores_infallible() == old(self).stores_infallible(),
            final(self).active_map().len() == 0,
            old(self).active_map().len() == 0 ==> final(self).frozen_maps() == old(
                self,
            ).frozen_maps(),
            old(self).active_map().len() > 0 ==> final(self).frozen_maps() == old(
                self,
            ).frozen_maps().push(old(self).active_map()),
    {
        proof {
            self.lemma_active_len();
        }
        if lru_len(&self.active) == 0 {
            assert(self.active_map() =~= Map::<Seq<u8>, Seq<u8>>::empty());
            return ;
        }
        let ghost before = self.view();
        let ghost fs = self.frozen_maps();
        let ghost full = self.active_map();
        let mut fresh = lru_new(self.capacity);
        std::mem::swap(&mut fresh, &mut self.active);
        self.frozen.push_back(fresh);
        assert(self.frozen_maps() =~= fs.push(full));
        assert(self.frozen_maps().drop_last() =~= fs);
        assert(self.view() =~= before);
    }

    /// Freezes the active cache and writes every frozen cache back, oldest first. Afterwards
    /// both the local engine and the remote store hold what reads see.
    pub fn flush(&mut self) -> (r: Result<(), StateError>)
        requires
            old(self).wf(),
        ensures
            final(self).wf(),
            final(self).cap() == old(self).cap(),
            final(self).stores_infallible() == old(self).stores_infallible(),
            old(self).stores_infallible() ==> r is Ok,
            old(self).active_map().len() == 0 && old(self).frozen_maps().len() == 0 ==> r is Ok,
            final(self).view() == old(self).view(),
            r is Ok ==> final(self).active_map().len() == 0,
            r is Ok ==> final(self).frozen_maps().len() == 0,
            r is Ok ==> final(self).local_map() == overlay(old(self).cached_map(), old(self).local_map()),
            r is Ok ==> final(self).remote_map() == overlay(old(self).cached_map(), old(self).remote_map()),
    {
        let ghost a0 = self.active_map();
        self.freeze();
        let ghost v0 = self.view();
        let ghost c0 = stack(self.frozen_maps());
        proof {
            if a0.len() == 0 {
                assert(a0 =~= Map::<Seq<u8>, Seq<u8>>::empty());
            } else {
                assert(self.frozen_maps().drop_last() =~= old(self).frozen_maps());
            }
            assert(c0 =~= old(self).cached_map());
        }
        while self.frozen.len() > 0
            invariant
                self.wf(),
                self.cap() == old(self).cap(),
                self.stores_infallible() == old(self).stores_infallible(),
                old(self).active_map().len() == 0 && old(self).frozen_maps().len() == 0
                    ==> self.frozen@.len() == 0,
                self.view() == v0,
                v0 == old(self).view(),
                self.active_map().len() == 0,
                c0 == old(self).cached_map(),
                overlay(stack(self.frozen_maps()), self.local_map()) == overlay(c0, old(self).local_map()),
                overlay(stack(self.frozen_maps()), self.remote_map()) == overlay(c0, old(self).remote_map()),
            decreases self.frozen@.len(),
        {
            let ghost before = *self;
            let ghost fs = self.frozen_maps();
            assert(fs.len() == self.frozen@.len());
            match self.write_back() {
                Err(e) => {
                    return Err(e);
                },
                Ok(b) => {
                    assert(b);
                    assert(self.frozen_maps() == fs.drop_first());
                },
            }
            assert(self.frozen_maps().len() == self.frozen@.len());
            proof {
                lemma_stack_drop_first(fs);
                assert(overlay(stack(self.frozen_maps()), self.local_map()) =~= overlay(
                    stack(fs),
                    before.local_map(),
                ));
                assert(overlay(stack(self.frozen_maps()), self.remote_map()) =~= overlay(
                    stack(fs),
                    before.remote_map(),
                ));
            }
        }
        proof {
            assert(stack(self.frozen_maps()) =~= Map::<Seq<u8>, Seq<u8>>::empty());
            assert(self.local_map() =~= overlay(stack(self.frozen_maps()), self.local_map()));
            assert(self.remote_map() =~= overlay(stack(self.frozen_maps()), self.remote_map()));
        }
        Ok(())
    }

    /// A checkpoint of the local engine, taken after every cached write has been written
    /// back, so that it holds every write made before the call.
    pub fn checkpoint(&mut self) -> (r: Result<L, StateError>)
        requires
            old(self).wf(),
        ensures
            final(self).wf(),
            final(self).cap() == old(self).cap(),
            final(self).stores_infallible() == old(self).stores_infallible(),
            old(self).stores_infallible() ==> r is Ok,
            old(self).stores_infallible() && r is Ok ==> r->Ok_0.infallible(),
            final(self).view() == old(self).view(),
            r is Ok ==> r->Ok_0.contents() == overlay(old(self).cached_map(), old(self).local_map()),
    {
        match self.flush() {
            Err(e) => Err(e),
            Ok(()) => self.local.checkpoint(),
        }
    }

    /// After a deletion of `d` from the caches and from none, either or both stores, every
    /// key that the deletion spares reads as before.
    proof fn lemma_spared(
        &self,
        a0: Map<Seq<u8>, Seq<u8>>,
        fs0: Seq<Map<Seq<u8>, Seq<u8>>>,
        l0: Map<Seq<u8>, Seq<u8>>,
        r0: Map<Seq<u8>, Seq<u8>>,
        d: Seq<u8>,
        by_prefix: bool,
    )
        requires
            self.active_map() == dropped(a0, d, by_prefix),
            self.frozen_maps() == dropped_all(fs0, d, by_prefix),
            self.local_map() == l0 || self.local_map() == dropped(l0, d, by_prefix),
            self.remote_map() == r0 || self.remote_map() == dropped(r0, d, by_prefix),
        ensures
            forall|k: Seq<u8>|
                spares(d, by_prefix, k) ==> #[trigger] lookup(self.view(), k) == lookup(
                    overlay(a0, overlay(stack(fs0), overlay(l0, r0))),
                    k,
                ),
    {
        lemma_stack_dropped(fs0, d, by_prefix);
    }

    /// Deletes `d` (a key, or a prefix when `by_prefix`) from the active and frozen caches.
    fn drop_from_caches(&mut self, d: &[u8], by_prefix: bool)
        requires
            old(self).wf(),
        ensures
            final(self).wf(),
            final(self).active_map() == dropped(old(self).active_map(), d@, by_prefix),
            final(self).frozen_maps() == dropped_all(old(self).frozen_maps(), d@, by_prefix),
            final(self).stores_infallible() == old(self).stores_infallible(),
            final(self).cap() == old(self).cap(),
            final(self).local_map() == old(self).local_map(),
            final(self).remote_map() == old(self).remote_map(),
            final(self).hit_counts() == old(self).hit_counts(),
    {
        drop_in_cache(&mut self.active, d, by_prefix);
        let ghost fs = self.frozen_maps();
        let mut rest: VecDeque<LruCache<Vec<u8>, Vec<u8>>> = VecDeque::new();
        std::mem::swap(&mut rest, &mut self.frozen);
        let ghost all = rest@;
        let ghost kept = *self;
        let total = rest.len();
        let mut i: usize = 0;
        while rest.len() > 0
            invariant
                total == all.len(),
                self.active == kept.active,
                self.capacity == kept.capacity,
                self.local == kept.local,
                self.remote == kept.remote,
                self.hits == kept.hits,
                self.capacity > 0,
                lru_valid(self.active),
                lru_cap(self.active) == self.capacity,
                all.len() == fs.len(),
                forall|j: int| 0 <= j < all.len() ==> lru_valid(#[trigger] all[j]),
                forall|j: int|
                    0 <= j < all.len() ==> fs[j] == lru_entries(#[trigger] all[j]),
                i + rest@.len() == all.len(),
                rest@ == all.subrange(i as int, all.len() as int),
                self.frozen@.len() == i,
                forall|j: int| 0 <= j < i ==> lru_valid(#[trigger] self.frozen@[j]),
                forall|j: int|
                    0 <= j < i ==> lru_entries(#[trigger] self.frozen@[j]) == dropped(
                        fs[j],
                        d@,
                        by_prefix,
                    ),
            decreases rest@.len(),
        {
            let mut c = rest.pop_front().unwrap();
            assert(c == all[i as int]);
            drop_in_cache(&mut c, d, by_prefix);
            self.frozen.push_back(c);
            i = i + 1;
            assert(rest@ =~= all.subrange(i as int, all.len() as int));
        }
        assert(self.frozen_maps() =~= dropped_all(fs, d@, by_prefix));
    }

    /// Deletes `key` from every layer. Every other key reads as before, whatever the result.
    pub fn remove(&mut self, _cf: &str, key: &[u8]) -> (r: Result<(), StateError>)
        requires
            old(self).wf(),
        ensures
            final(self).wf(),
            final(self).cap() == old(self).cap(),
            final(self).stores_infallible() == old(self).stores_infallible(),
            old(self).stores_infallible() ==> r is Ok,
            r is Ok ==> final(self).view() == old(self).view().remove(key@),
            forall|k: Seq<u8>|
                k != key@ ==> #[trigger] lookup(final(self).view(), k) == lookup(
                    old(self).view(),
                    k,
                ),
    {
        let ghost before = self.view();
        let ghost a0 = self.active_map();
        let ghost fs0 = self.frozen_maps();
        let ghost l0 = self.local_map();
        let ghost r0 = self.remote_map();
        self.drop_from_caches(key, false);
        let lr = self.local.remove(key);
        proof {
            assert(l0.remove(key@) =~= dropped(l0, key@, false));
            assert(r0.remove(key@) =~= dropped(r0, key@, false));
        }
        if let Err(e) = lr {
            proof {
                self.lemma_spared(a0, fs0, l0, r0, key@, false);
            }
            return Err(e);
        }
        let rr = self.remote.remove(key);
        proof {
            self.lemma_spared(a0, fs0, l0, r0, key@, false);
        }
        if let Err(e) = rr {
            return Err(e);
        }
        proof {
            lemma_stack_dropped(fs0, key@, false);
            assert(self.view() =~= before.remove(key@));
        }
        Ok(())
    }

    /// Deletes every key that starts with `prefix`, from every layer. An empty prefix is
    /// rejected and nothing is deleted. Every other key reads as before, whatever the result.
    pub fn remove_prefix(&mut self, _cf: &str, prefix: &[u8]) -> (r: Result<(), StateError>)
        requires
            old(self).wf(),
        ensures
            final(self).wf(),
            final(self).cap() == old(self).cap(),
            final(self).stores_infallible() == old(self).stores_infallible(),
            old(self).stores_infallible() && prefix@.len() > 0 ==> r is Ok,
            r == Err::<(), StateError>(StateError::InvalidArgument) <==> prefix@.len() == 0,
            prefix@.len() == 0 ==> *final(self) == *old(self),
            r is Ok ==> final(self).view() == without_prefix(old(self).view(), prefix@),
            forall|k: Seq<u8>|
                !is_prefix(prefix@, k) ==> #[trigger] lookup(final(self).view(), k) == lookup(
                    old(self).view(),
                    k,
                ),
    {
        if prefix.len() == 0 {
            return Err(StateError::InvalidArgument);
        }
        let ghost before = self.view();
        let ghost a0 = self.active_map();
        let ghost fs0 = self.frozen_maps();
        let ghost l0 = self.local_map();
        let ghost r0 = self.remote_map();
        self.drop_from_caches(prefix, true);
        let lr = self.local.remove_prefix(prefix);
        proof {
            assert(without_prefix(l0, prefix@) =~= dropped(l0, prefix@, true));
            assert(without_prefix(r0, prefix@) =~= dropped(r0, prefix@, true));
        }
        if let Err(e) = lr {
            proof {
                self.lemma_spared(a0, fs0, l0, r0, prefix@, true);
            }
            return Err(e);
        }
        let rr = self.remote.remove_prefix(prefix);
        proof {
            self.lemma_spared(a0, fs0, l0, r0, prefix@, true);
        }
        if let Err(e) = rr {
            return Err(e);
        }
        proof {
            lemma_stack_dropped(fs0, prefix@, true);
            assert(self.view() =~= without_prefix(before, prefix@));
        }
        Ok(())
    }
}

} // verus!

verus! {

/// The cache layers of a fresh store of capacity `cap`.
pub open spec fn empty_shape(cap: nat) -> CacheShape {
    CacheShape { active: Map::empty(), frozen: Seq::empty(), capacity: cap }
}

proof fn lemma_fill_below_capacity(cap: nat, writes: Seq<(Seq<u8>, Seq<u8>)>)
    requires
        writes.len() <= cap,
        forall|i: int, j: int| 0 <= i < j < writes.len() ==> writes[i].0 != writes[j].0,
    ensures
        put_all_shape(empty_shape(cap), writes).frozen.len() == 0,
        put_all_shape(empty_shape(cap), writes).capacity == cap,
        put_all_shape(empty_shape(cap), writes).active.dom().finite(),
        put_all_shape(empty_shape(cap), writes).active.len() == writes.len(),
        forall|k: Seq<u8>| #[trigger]
            put_all_shape(empty_shape(cap), writes).active.contains_key(k) ==> exists|i: int|
                0 <= i < writes.len() && writes[i].0 == k,
        forall|i: int|
            0 <= i < writes.len() ==> put_all_shape(empty_shape(cap), writes).active.contains_key(
                (#[trigger] writes[i]).0,
            ),
    decreases writes.len(),
{
    if writes.len() > 0 {
        let p = writes.drop_last();
        lemma_fill_below_capacity(cap, p);
        let t = put_all_shape(empty_shape(cap), p);
        let k = writes.last().0;
        assert(!t.active.contains_key(k)) by {
            if t.active.contains_key(k) {
                let i = choose|i: int| 0 <= i < p.len() && p[i].0 == k;
                assert(writes[i].0 == writes[writes.len() - 1].0);
            }
        }
        let s = put_all_shape(empty_shape(cap), writes);
        assert forall|k2: Seq<u8>| #[trigger] s.active.contains_key(k2) implies exists|i: int|
            0 <= i < writes.len() && writes[i].0 == k2 by {
            if k2 != k {
                let i = choose|i: int| 0 <= i < p.len() && p[i].0 == k2;
                assert(writes[i] == p[i]);
            } else {
                assert(writes[writes.len() - 1].0 == k2);
            }
        }
        assert forall|i: int| 0 <= i < writes.len() implies s.active.contains_key(
            (#[trigger] writes[i]).0,
        ) by {
            if i < p.len() {
                assert(writes[i] == p[i]);
            }
        }
    }
}

/// Writing `cap + 1` distinct keys into a fresh store of capacity `cap` leaves exactly one
/// frozen cache, which holds the first `cap` keys, and in the active cache only the last
/// write.
pub proof fn lemma_one_freeze_past_capacity(cap: nat, writes: Seq<(Seq<u8>, Seq<u8>)>)
    requires
        cap > 0,
        writes.len() == cap + 1,
        forall|i: int, j: int| 0 <= i < j < writes.len() ==> writes[i].0 != writes[j].0,
    ensures
        put_all_shape(empty_shape(cap), writes).frozen.len() == 1,
        put_all_shape(empty_shape(cap), writes).frozen[0].len() == cap,
        put_all_shape(empty_shape(cap), writes).active.len() == 1,
        put_all_shape(empty_shape(cap), writes).active == Map::<Seq<u8>, Seq<u8>>::empty().insert(
            writes.last().0,
            writes.last().1,
        ),
        forall|k: Seq<u8>|
            #[trigger] put_all_shape(empty_shape(cap), writes).frozen[0].contains_key(k) <==> exists|
                i: int,
            | 0 <= i < cap && writes[i].0 == k,
{
    let p = writes.drop_last();
    lemma_fill_below_capacity(cap, p);
    let s = put_all_shape(empty_shape(cap), writes);
    assert(s.active =~= Map::<Seq<u8>, Seq<u8>>::empty().insert(writes.last().0, writes.last().1));
    assert(s.active.dom() =~= Set::<Seq<u8>>::empty().insert(writes.last().0));
    assert forall|k: Seq<u8>|
        #[trigger] s.frozen[0].contains_key(k) <==> exists|i: int| 0 <= i < cap && writes[i].0 == k by {
        if exists|i: int| 0 <= i < cap && writes[i].0 == k {
            let i = choose|i: int| 0 <= i < cap && writes[i].0 == k;
            assert(p[i] == writes[i]);
        }
        if s.frozen[0].contains_key(k) {
            let i = choose|i: int| 0 <= i < p.len() && p[i].0 == k;
            assert(p[i] == writes[i]);
        }
    }
}

/// Checkpoint and restore round trip: at checkpoint time, every key that the checkpoint
/// holds reads as the checkpoint holds it; a store restored from that checkpoint, with empty
/// caches, reads those keys the same way, whatever its remote store holds. Writes made to the
/// live store afterwards change neither the checkpoint nor the restored store.
pub proof fn lemma_checkpoint_round_trip<L: Backend, R: Backend, L2: Backend, R2: Backend>(
    live: Tiered<L, R>,
    restored: Tiered<L2, R2>,
    k: Seq<u8>,
)
    requires
        restored.wf(),
        restored.active_map().len() == 0,
        restored.frozen_maps().len() == 0,
        restored.local_map() == overlay(live.cached_map(), live.local_map()),
        restored.local_map().contains_key(k),
    ensures
        lookup(live.view(), k) == Some(restored.local_map()[k]),
        lookup(restored.view(), k) == Some(restored.local_map()[k]),
{
    assert(restored.frozen_maps() =~= Seq::<Map<Seq<u8>, Seq<u8>>>::empty());
    restored.lemma_active_len();
    if restored.active_map().contains_key(k) {
        vstd::set::axiom_set_contains_len(restored.active_map().dom(), k);
    }
}

} // verus!
