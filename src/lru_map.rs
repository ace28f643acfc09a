use vstd::prelude::*;

use lru::LruCache;

use crate::store::{insert_all, lemma_insert_all_distinct, lookup, opt_bytes, overlay};

verus! {

#[verifier::external_type_specification]
#[verifier::external_body]
#[verifier::reject_recursive_types(K)]
#[verifier::reject_recursive_types(V)]
#[verifier::reject_recursive_types(S)]
pub struct ExLruCache<K, V, S>(LruCache<K, V, S>);

#[verifier::external_type_specification]
#[verifier::external_body]
pub struct ExDefaultHasher(lru::DefaultHasher);

/// The entries that an LRU cache holds.
pub uninterp spec fn lru_entries(c: LruCache<Vec<u8>, Vec<u8>>) -> Map<Seq<u8>, Seq<u8>>;

/// The keys of an LRU cache, from the least to the most recently used.
pub uninterp spec fn lru_order(c: LruCache<Vec<u8>, Vec<u8>>) -> Seq<Seq<u8>>;

/// The capacity that an LRU cache was made with.
pub uninterp spec fn lru_cap(c: LruCache<Vec<u8>, Vec<u8>>) -> nat;

/// The recency list holds each cached key once, and no more keys than the capacity.
pub open spec fn lru_valid(c: LruCache<Vec<u8>, Vec<u8>>) -> bool {
    &&& lru_order(c).no_duplicates()
    &&& forall|k: Seq<u8>| #[trigger] lru_entries(c).contains_key(k) <==> lru_order(c).contains(k)
    &&& lru_entries(c).dom().finite()
    &&& lru_entries(c).len() == lru_order(c).len()
    &&& lru_order(c).len() <= lru_cap(c)
}

/// The map with no entries.
pub open spec fn no_entries() -> Map<Seq<u8>, Seq<u8>> {
    Map::empty()
}

/// `order` after using `k`: it moves to the most recent end.
pub open spec fn touch(order: Seq<Seq<u8>>, k: Seq<u8>) -> Seq<Seq<u8>> {
    order.remove_value(k).push(k)
}

/// Relies on `LruCache::new`: an empty cache that holds at most `cap` entries.
#[verifier::external_body]
pub fn lru_new(cap: usize) -> (r: LruCache<Vec<u8>, Vec<u8>>)
    ensures
        lru_entries(r) == no_entries(),
        lru_order(r).len() == 0,
        lru_cap(r) == cap,
        lru_valid(r),
{
    LruCache::new(cap)
}

/// Relies on `LruCache::len`: the number of entries.
#[verifier::external_body]
pub fn lru_len(c: &LruCache<Vec<u8>, Vec<u8>>) -> (r: usize)
    ensures
        r == lru_order(*c).len(),
{
    c.len()
}

/// Relies on `LruCache::cap`: the capacity the cache was made with.
#[verifier::external_body]
pub fn lru_capacity(c: &LruCache<Vec<u8>, Vec<u8>>) -> (r: usize)
    ensures
        r == lru_cap(*c),
{
    c.cap()
}

/// Relies on `LruCache::contains`: whether `k` is cached, leaving the recency list alone.
#[verifier::external_body]
pub fn lru_contains(c: &LruCache<Vec<u8>, Vec<u8>>, k: &[u8]) -> (r: bool)
    ensures
        r == lru_entries(*c).contains_key(k@),
{
    c.contains(k)
}

/// Relies on `LruCache::peek`: the cached value of `k`, leaving the recency list alone.
#[verifier::external_body]
pub fn lru_peek(c: &LruCache<Vec<u8>, Vec<u8>>, k: &[u8]) -> (r: Option<Vec<u8>>)
    ensures
        opt_bytes(r) == lookup(lru_entries(*c), k@),
{
    c.peek(k).map(|v| v.clone())
}

/// Relies on `LruCache::get`: the cached value of `k`, which becomes the most recently used.
#[verifier::external_body]
pub fn lru_get(c: &mut LruCache<Vec<u8>, Vec<u8>>, k: &[u8]) -> (r: Option<Vec<u8>>)
    requires
        lru_valid(*old(c)),
    ensures
        opt_bytes(r) == lookup(lru_entries(*old(c)), k@),
        lru_entries(*final(c)) == lru_entries(*old(c)),
        lru_cap(*final(c)) == lru_cap(*old(c)),
        lru_entries(*old(c)).contains_key(k@) ==> lru_order(*final(c)) == touch(
            lru_order(*old(c)),
            k@,
        ),
        !lru_entries(*old(c)).contains_key(k@) ==> lru_order(*final(c)) == lru_order(*old(c)),
        lru_valid(*final(c)),
{
    c.get(k).map(|v| v.clone())
}

/// Relies on `LruCache::put`: writes `k`, which becomes the most recently used; a new key in a
/// full cache first evicts the least recently used entry. Returns the value `k` had.
#[verifier::external_body]
pub fn lru_put(c: &mut LruCache<Vec<u8>, Vec<u8>>, k: Vec<u8>, v: Vec<u8>) -> (r: Option<Vec<u8>>)
    requires
        lru_valid(*old(c)),
        lru_cap(*old(c)) > 0,
    ensures
        opt_bytes(r) == lookup(lru_entries(*old(c)), k@),
        lru_cap(*final(c)) == lru_cap(*old(c)),
        lru_valid(*final(c)),
        lru_entries(*old(c)).contains_key(k@) ==> lru_entries(*final(c)) == lru_entries(
            *old(c),
        ).insert(k@, v@) && lru_order(*final(c)) == touch(lru_order(*old(c)), k@),
        !lru_entries(*old(c)).contains_key(k@) && lru_order(*old(c)).len() < lru_cap(*old(c))
            ==> lru_entries(*final(c)) == lru_entries(*old(c)).insert(k@, v@) && lru_order(
            *final(c),
        ) == lru_order(*old(c)).push(k@),
        !lru_entries(*old(c)).contains_key(k@) && lru_order(*old(c)).len() == lru_cap(*old(c))
            ==> lru_entries(*final(c)) == lru_entries(*old(c)).remove(
            lru_order(*old(c))[0],
        ).insert(k@, v@) && lru_order(*final(c)) == lru_order(*old(c)).drop_first().push(k@),
{
    c.put(k, v)
}

/// Relies on `LruCache::pop`: removes `k` and returns its value.
#[verifier::external_body]
pub fn lru_pop(c: &mut LruCache<Vec<u8>, Vec<u8>>, k: &[u8]) -> (r: Option<Vec<u8>>)
    requires
        lru_valid(*old(c)),
    ensures
        opt_bytes(r) == lookup(lru_entries(*old(c)), k@),
        lru_entries(*final(c)) == lru_entries(*old(c)).remove(k@),
        lru_order(*final(c)) == lru_order(*old(c)).remove_value(k@),
        lru_cap(*final(c)) == lru_cap(*old(c)),
        lru_valid(*final(c)),
{
    c.pop(k)
}

/// Relies on `LruCache::pop_lru`: removes and returns the least recently used entry.
#[verifier::external_body]
pub fn lru_pop_lru(c: &mut LruCache<Vec<u8>, Vec<u8>>) -> (r: Option<(Vec<u8>, Vec<u8>)>)
    requires
        lru_valid(*old(c)),
    ensures
        lru_order(*old(c)).len() == 0 <==> r is None,
        lru_cap(*final(c)) == lru_cap(*old(c)),
        lru_valid(*final(c)),
        r is None ==> lru_entries(*final(c)) == lru_entries(*old(c)) && lru_order(*final(c))
            == lru_order(*old(c)),
        r is Some ==> {
            let k = lru_order(*old(c))[0];
            &&& r->Some_0.0@ == k
            &&& r->Some_0.1@ == lru_entries(*old(c))[k]
            &&& lru_entries(*final(c)) == lru_entries(*old(c)).remove(k)
            &&& lru_order(*final(c)) == lru_order(*old(c)).drop_first()
        },
{
    c.pop_lru()
}

/// Relies on `LruCache::clear`: removes every entry.
#[verifier::external_body]
pub fn lru_clear(c: &mut LruCache<Vec<u8>, Vec<u8>>)
    ensures
        lru_entries(*final(c)) == no_entries(),
        lru_order(*final(c)).len() == 0,
        lru_cap(*final(c)) == lru_cap(*old(c)),
        lru_valid(*final(c)),
{
    c.clear()
}

/// Relies on `LruCache::iter`: every entry, from the most to the least recently used.
#[verifier::external_body]
pub fn lru_items(c: &LruCache<Vec<u8>, Vec<u8>>) -> (r: Vec<(Vec<u8>, Vec<u8>)>)
    requires
        lru_valid(*c),
    ensures
        r@.len() == lru_order(*c).len(),
        forall|i: int|
            0 <= i < r@.len() ==> {
                let k = lru_order(*c)[r@.len() - 1 - i];
                &&& (#[trigger] r@[i]).0@ == k
                &&& r@[i].1@ == lru_entries(*c)[k]
            },
{
    c.iter().map(|(k, v)| (k.clone(), v.clone())).collect()
}

/// Writing the items of an LRU cache, as `lru_items` lists them, lays its entries over `m`.
pub proof fn lemma_items_written(
    c: LruCache<Vec<u8>, Vec<u8>>,
    items: Seq<(Vec<u8>, Vec<u8>)>,
    m: Map<Seq<u8>, Seq<u8>>,
)
    requires
        lru_valid(c),
        items.len() == lru_order(c).len(),
        forall|i: int|
            0 <= i < items.len() ==> {
                let k = lru_order(c)[items.len() - 1 - i];
                &&& (#[trigger] items[i]).0@ == k
                &&& items[i].1@ == lru_entries(c)[k]
            },
    ensures
        insert_all(m, items) == overlay(lru_entries(c), m),
{
    let n = items.len();
    assert forall|i: int, j: int| 0 <= i < j < n implies items[i].0@ != items[j].0@ by {
        assert(items[i].0@ == lru_order(c)[n - 1 - i]);
        assert(items[j].0@ == lru_order(c)[n - 1 - j]);
    }
    assert forall|i: int| 0 <= i < n implies lru_entries(c).contains_key(#[trigger] items[i].0@)
        && lru_entries(c)[items[i].0@] == items[i].1@ by {
        assert(lru_order(c).contains(lru_order(c)[n - 1 - i]));
    }
    assert forall|k: Seq<u8>| #[trigger] lru_entries(c).contains_key(k) implies exists|i: int|
        0 <= i < n && items[i].0@ == k by {
        let j = lru_order(c).index_of(k);
        assert(items[n - 1 - j].0@ == k);
    }
    lemma_insert_all_distinct(m, items, lru_entries(c));
}

} // verus!
