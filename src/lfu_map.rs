use vstd::prelude::*;

use cascara::Cache;

verus! {

/// A TinyLFU cache from `cascara`. It files each item under a 64-bit hash of its key, with a
/// hasher seeded per cache, so the key is kept beside the value to tell keys that share a
/// hash apart. The cache is held in a private field because `cascara::Cache` cannot be
/// declared to the verifier: its default type parameters, and the traits that bound them,
/// live in private modules of that crate.
#[verifier::external_body]
pub struct LfuCache {
    inner: Cache<Vec<u8>, (Vec<u8>, Vec<u8>)>,
}

/// The items of a TinyLFU cache, each a key and its value, by the slot they are filed under.
pub uninterp spec fn lfu_items(c: LfuCache) -> Map<u64, (Seq<u8>, Seq<u8>)>;

/// The slot that a TinyLFU cache files `k` under.
pub uninterp spec fn lfu_slot(c: LfuCache, k: Seq<u8>) -> u64;

/// Relies on `cascara::Cache::new`: an empty cache of `capacity` items, which must be positive.
#[verifier::external_body]
pub fn lfu_new(capacity: usize) -> (r: LfuCache)
    requires
        capacity > 0,
    ensures
        lfu_items(r).len() == 0,
        lfu_items(r).dom().finite(),
{
    LfuCache { inner: Cache::new(capacity) }
}

/// Relies on `cascara::Cache::get`: the item filed under the slot of `k`, if any. Only the
/// admission counters change.
#[verifier::external_body]
pub fn lfu_get(c: &LfuCache, k: &[u8]) -> (r: Option<(Vec<u8>, Vec<u8>)>)
    ensures
        r is Some <==> lfu_items(*c).contains_key(lfu_slot(*c, k@)),
        r matches Some(p) ==> (p.0@, p.1@) == lfu_items(*c)[lfu_slot(*c, k@)],
{
    c.inner.get(&k.to_vec()).map(|p| (p.0.clone(), p.1.clone()))
}

/// Relies on `cascara::Cache::insert`: files `(k, v)` under the slot of `k` unless admission
/// rejects it; a victim may leave either way. A key already present is always replaced.
#[verifier::external_body]
pub fn lfu_insert(c: &mut LfuCache, k: Vec<u8>, v: Vec<u8>) -> (r: bool)
    ensures
        forall|x: Seq<u8>| #[trigger] lfu_slot(*final(c), x) == lfu_slot(*old(c), x),
        lfu_items(*final(c)).dom().finite(),
        lfu_items(*old(c)).contains_key(lfu_slot(*old(c), k@)) ==> r,
        r ==> lfu_items(*final(c)).contains_key(lfu_slot(*old(c), k@)) && lfu_items(
            *final(c),
        )[lfu_slot(*old(c), k@)] == (k@, v@),
        !r ==> !lfu_items(*final(c)).contains_key(lfu_slot(*old(c), k@)),
        forall|s: u64| #[trigger]
            lfu_items(*final(c)).contains_key(s) && s != lfu_slot(*old(c), k@) ==> lfu_items(
                *old(c),
            ).contains_key(s) && lfu_items(*final(c))[s] == lfu_items(*old(c))[s],
{
    c.inner.insert(k.clone(), (k, v)).is_ok()
}

/// Relies on `cascara::Cache::remove`: drops the item filed under the slot of `k`.
#[verifier::external_body]
pub fn lfu_remove(c: &mut LfuCache, k: &[u8])
    ensures
        forall|x: Seq<u8>| #[trigger] lfu_slot(*final(c), x) == lfu_slot(*old(c), x),
        lfu_items(*final(c)) == lfu_items(*old(c)).remove(lfu_slot(*old(c), k@)),
{
    c.inner.remove(&k.to_vec());
}

} // verus!
