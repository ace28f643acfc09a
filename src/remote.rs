use vstd::prelude::*;

use crate::codec::key_bytes;
use crate::error::StateError;
use crate::state::{decode_i64, encode_i64, i64_bytes, Handle};
use crate::store::{batch_has, insert_all, lookup, without_prefix, Backend};

verus! {

/// `m` after writing each (user key, value) pair of `pairs` under the metakeys `ik`, `ns`.
pub open spec fn insert_pairs(
    m: Map<Seq<u8>, Seq<u8>>,
    ik: u64,
    ns: u64,
    pairs: Seq<(Vec<u8>, i64)>,
) -> Map<Seq<u8>, Seq<u8>>
    decreases pairs.len(),
{
    if pairs.len() == 0 {
        m
    } else {
        insert_pairs(m, ik, ns, pairs.drop_last()).insert(
            key_bytes(ik, ns, pairs.last().0@),
            i64_bytes(pairs.last().1),
        )
    }
}

/// A state backend that keeps every state object directly in a key-value store, with no
/// cache in front.
pub struct Tikv<B: Backend> {
    store: B,
    name: String,
    restored: bool,
}

impl<B: Backend> Tikv<B> {
    pub closed spec fn contents(&self) -> Map<Seq<u8>, Seq<u8>> {
        self.store.contents()
    }

    pub closed spec fn is_restored(&self) -> bool {
        self.restored
    }

    pub closed spec fn name_view(&self) -> Seq<char> {
        self.name@
    }

    /// The store never fails.
    pub closed spec fn store_infallible(&self) -> bool {
        self.store.infallible()
    }

    /// The map entry under `key` is absent or decodes.
    pub open spec fn decodable(&self, h: Handle, key: Seq<u8>) -> bool {
        match self.entry(h, key) {
            Some(b) => b.len() == 8,
            None => true,
        }
    }

    /// The value of a map entry, as stored.
    pub open spec fn entry(&self, h: Handle, key: Seq<u8>) -> Option<Seq<u8>> {
        lookup(self.contents(), key_bytes(h.item_key, h.namespace, key))
    }

    /// A backend over `store`.
    pub fn create(store: B, name: String) -> (r: Self)
        ensures
            r.contents() == store.contents(),
            r.name_view() == name@,
            r.store_infallible() == store.infallible(),
            !r.is_restored(),
    {
        Tikv { store, name, restored: false }
    }

    /// Whether this backend was opened from a checkpoint; a remote store never is.
    pub fn was_restored(&self) -> (r: bool)
        ensures
            r == self.is_restored(),
    {
        self.restored
    }

    /// The backend's name.
    pub fn name(&self) -> (r: &str)
        ensures
            r@ == self.name_view(),
    {
        self.name.as_str()
    }

    /// Registers a handle; nothing is stored.
    pub fn register_handle(&self, handle: &mut Handle)
        ensures
            *final(handle) == (Handle { registered: true, ..*old(handle) }),
    {
        handle.register();
    }

    /// The value under `key`.
    pub fn get(&self, _cf: &str, key: &[u8]) -> (r: Result<Option<Vec<u8>>, StateError>)
        ensures
            self.store_infallible() ==> r is Ok,
            r matches Ok(Some(v)) ==> lookup(self.contents(), key@) == Some(v@),
            r matches Ok(None) ==> lookup(self.contents(), key@) is None,
    {
        self.store.get(key)
    }

    /// Writes `value` under `key`.
    pub fn put(&mut self, _cf: &str, key: &[u8], value: &[u8]) -> (r: Result<(), StateError>)
        ensures
            final(self).store_infallible() == old(self).store_infallible(),
            old(self).store_infallible() ==> r is Ok,
            r is Ok ==> final(self).contents() == old(self).contents().insert(key@, value@),
            r is Err ==> final(self).contents() == old(self).contents(),
    {
        self.store.put(key, value)
    }

    /// Writes the pairs of `pairs` in order.
    pub fn batch_put(&mut self, _cf: &str, pairs: &[(Vec<u8>, Vec<u8>)]) -> (r: Result<
        (),
        StateError,
    >)
        ensures
            final(self).store_infallible() == old(self).store_infallible(),
            old(self).store_infallible() ==> r is Ok,
            r is Ok ==> final(self).contents() == insert_all(old(self).contents(), pairs@),
            r is Err ==> forall|k: Seq<u8>|
                !batch_has(pairs@, k) ==> #[trigger] lookup(final(self).contents(), k) == lookup(
                    old(self).contents(),
                    k,
                ),
    {
        self.store.put_all(pairs)
    }

    /// Deletes `key`.
    pub fn remove(&mut self, _cf: &str, key: &[u8]) -> (r: Result<(), StateError>)
        ensures
            final(self).store_infallible() == old(self).store_infallible(),
            old(self).store_infallible() ==> r is Ok,
            r is Ok ==> final(self).contents() == old(self).contents().remove(key@),
            r is Err ==> final(self).contents() == old(self).contents(),
    {
        self.store.remove(key)
    }

    /// Deletes every key that starts with `prefix`; an empty prefix is rejected.
    pub fn remove_prefix(&mut self, _cf: &str, prefix: &[u8]) -> (r: Result<(), StateError>)
        ensures
            final(self).store_infallible() == old(self).store_infallible(),
            old(self).store_infallible() && prefix@.len() > 0 ==> r is Ok,
            r == Err::<(), StateError>(StateError::InvalidArgument) <==> prefix@.len() == 0,
            r is Ok ==> final(self).contents() == without_prefix(old(self).contents(), prefix@),
            r is Err ==> final(self).contents() == old(self).contents(),
    {
        self.store.remove_prefix(prefix)
    }

    /// Whether `key` holds a value.
    pub fn contains(&self, _cf: &str, key: &[u8]) -> (r: Result<bool, StateError>)
        ensures
            self.store_infallible() ==> r is Ok,
            r is Ok ==> r->Ok_0 == self.contents().contains_key(key@),
    {
        self.store.contains(key)
    }

    /// The map entry under `key`.
    pub fn map_get(&self, handle: &Handle, key: &[u8]) -> (r: Result<Option<i64>, StateError>)
        ensures
            handle.registered && self.store_infallible() && self.decodable(*handle, key@) ==> r is Ok,
            !handle.registered ==> r == Err::<Option<i64>, StateError>(
                StateError::HandleNotRegistered,
            ),
            r matches Ok(Some(x)) ==> self.entry(*handle, key@) == Some(i64_bytes(x)),
            r matches Ok(None) ==> self.entry(*handle, key@) is None,
            (self.entry(*handle, key@) matches Some(b) && b.len() != 8) ==> r is Err,
    {
        if !handle.registered {
            return Err(StateError::HandleNotRegistered);
        }
        let k = handle.serialize_metakeys_and_key(key);
        match self.store.get(k.as_slice()) {
            Err(e) => Err(e),
            Ok(None) => Ok(None),
            Ok(Some(bytes)) => match decode_i64(bytes.as_slice()) {
                Err(e) => Err(e),
                Ok(x) => Ok(Some(x)),
            },
        }
    }

    /// Writes a map entry without reading the old one.
    pub fn map_fast_insert(&mut self, handle: &Handle, key: &[u8], value: i64) -> (r: Result<
        (),
        StateError,
    >)
        ensures
            final(self).store_infallible() == old(self).store_infallible(),
            handle.registered && old(self).store_infallible() ==> r is Ok,
            !handle.registered ==> r == Err::<(), StateError>(StateError::HandleNotRegistered),
            r is Err ==> final(self).contents() == old(self).contents(),
            r is Ok ==> final(self).contents() == old(self).contents().insert(
                key_bytes(handle.item_key, handle.namespace, key@),
                i64_bytes(value),
            ),
    {
        if !handle.registered {
            return Err(StateError::HandleNotRegistered);
        }
        let k = handle.serialize_metakeys_and_key(key);
        let v = encode_i64(value);
        self.store.put(k.as_slice(), v.as_slice())
    }

    /// Writes a map entry and returns the value it replaces.
    pub fn map_insert(&mut self, handle: &Handle, key: &[u8], value: i64) -> (r: Result<
        Option<i64>,
        StateError,
    >)
        ensures
            final(self).store_infallible() == old(self).store_infallible(),
            handle.registered && old(self).store_infallible() && old(self).decodable(*handle, key@)
                ==> r is Ok,
            !handle.registered ==> r == Err::<Option<i64>, StateError>(
                StateError::HandleNotRegistered,
            ),
            r is Ok ==> final(self).contents() == old(self).contents().insert(
                key_bytes(handle.item_key, handle.namespace, key@),
                i64_bytes(value),
            ),
            r matches Ok(Some(x)) ==> old(self).entry(*handle, key@) == Some(i64_bytes(x)),
            r matches Ok(None) ==> old(self).entry(*handle, key@) is None,
    {
        let old_value = match self.map_get(handle, key) {
            Err(e) => {
                return Err(e);
            },
            Ok(v) => v,
        };
        match self.map_fast_insert(handle, key, value) {
            Err(e) => Err(e),
            Ok(()) => Ok(old_value),
        }
    }

    /// Writes every (user key, value) pair as one batch, later pairs over earlier ones.
    pub fn map_insert_all(&mut self, handle: &Handle, pairs: &Vec<(Vec<u8>, i64)>) -> (r: Result<
        (),
        StateError,
    >)
        ensures
            final(self).store_infallible() == old(self).store_infallible(),
            handle.registered && old(self).store_infallible() ==> r is Ok,
            !handle.registered ==> r == Err::<(), StateError>(StateError::HandleNotRegistered),
            r is Ok ==> final(self).contents() == insert_pairs(
                old(self).contents(),
                handle.item_key,
                handle.namespace,
                pairs@,
            ),
    {
        if !handle.registered {
            return Err(StateError::HandleNotRegistered);
        }
        let mut entries: Vec<(Vec<u8>, Vec<u8>)> = Vec::with_capacity(pairs.len());
        let mut i: usize = 0;
        while i < pairs.len()
            invariant
                i <= pairs@.len(),
                entries@.len() == i,
                forall|m: Map<Seq<u8>, Seq<u8>>|
                    #[trigger] insert_all(m, entries@) == insert_pairs(
                        m,
                        handle.item_key,
                        handle.namespace,
                        pairs@.subrange(0, i as int),
                    ),
            decreases pairs@.len() - i,
        {
            let (k, v) = &pairs[i];
            let ghost before = entries@;
            entries.push((handle.serialize_metakeys_and_key(k.as_slice()), encode_i64(*v)));
            i = i + 1;
            assert forall|m: Map<Seq<u8>, Seq<u8>>| #[trigger]
                insert_all(m, entries@) == insert_pairs(
                    m,
                    handle.item_key,
                    handle.namespace,
                    pairs@.subrange(0, i as int),
                ) by {
                assert(entries@.drop_last() =~= before);
                assert(pairs@.subrange(0, i as int).drop_last() =~= pairs@.subrange(0, i - 1));
                assert(insert_all(m, before) == insert_pairs(
                    m,
                    handle.item_key,
                    handle.namespace,
                    pairs@.subrange(0, i - 1),
                ));
            }
        }
        assert(pairs@.subrange(0, i as int) =~= pairs@);
        assert(insert_all(self.store.contents(), entries@) == insert_pairs(
            self.store.contents(),
            handle.item_key,
            handle.namespace,
            pairs@,
        ));
        self.store.put_all(entries.as_slice())
    }

    /// Deletes a map entry and returns its value.
    pub fn map_remove(&mut self, handle: &Handle, key: &[u8]) -> (r: Result<Option<i64>, StateError>)
        ensures
            final(self).store_infallible() == old(self).store_infallible(),
            handle.registered && old(self).store_infallible() && old(self).decodable(*handle, key@)
                ==> r is Ok,
            !handle.registered ==> r == Err::<Option<i64>, StateError>(
                StateError::HandleNotRegistered,
            ),
            r is Ok ==> final(self).contents() == old(self).contents().remove(
                key_bytes(handle.item_key, handle.namespace, key@),
            ),
            r matches Ok(Some(x)) ==> old(self).entry(*handle, key@) == Some(i64_bytes(x)),
            r matches Ok(None) ==> old(self).entry(*handle, key@) is None,
    {
        let old_value = match self.map_get(handle, key) {
            Err(e) => {
                return Err(e);
            },
            Ok(v) => v,
        };
        match self.map_fast_remove(handle, key) {
            Err(e) => Err(e),
            Ok(()) => Ok(old_value),
        }
    }

    /// Deletes a map entry without reading it.
    pub fn map_fast_remove(&mut self, handle: &Handle, key: &[u8]) -> (r: Result<(), StateError>)
        ensures
            final(self).store_infallible() == old(self).store_infallible(),
            handle.registered && old(self).store_infallible() ==> r is Ok,
            !handle.registered ==> r == Err::<(), StateError>(StateError::HandleNotRegistered),
            r is Err ==> final(self).contents() == old(self).contents(),
            r is Ok ==> final(self).contents() == old(self).contents().remove(
                key_bytes(handle.item_key, handle.namespace, key@),
            ),
    {
        if !handle.registered {
            return Err(StateError::HandleNotRegistered);
        }
        let k = handle.serialize_metakeys_and_key(key);
        self.store.remove(k.as_slice())
    }

    /// Whether the map holds an entry under `key`.
    pub fn map_contains(&self, handle: &Handle, key: &[u8]) -> (r: Result<bool, StateError>)
        ensures
            handle.registered && self.store_infallible() ==> r is Ok,
            !handle.registered ==> r == Err::<bool, StateError>(StateError::HandleNotRegistered),
            r is Ok ==> r->Ok_0 == self.entry(*handle, key@) is Some,
    {
        if !handle.registered {
            return Err(StateError::HandleNotRegistered);
        }
        let k = handle.serialize_metakeys_and_key(key);
        self.store.contains(k.as_slice())
    }

    /// Deletes every entry of the map under the handle's metakeys, and nothing else.
    pub fn map_clear(&mut self, handle: &Handle) -> (r: Result<(), StateError>)
        ensures
            final(self).store_infallible() == old(self).store_infallible(),
            handle.registered && old(self).store_infallible() ==> r is Ok,
            !handle.registered ==> r == Err::<(), StateError>(StateError::HandleNotRegistered),
            r != Err::<(), StateError>(StateError::InvalidArgument),
            r is Ok ==> final(self).contents() == without_prefix(
                old(self).contents(),
                handle.prefix(),
            ),
    {
        if !handle.registered {
            return Err(StateError::HandleNotRegistered);
        }
        let prefix = handle.serialize_metakeys();
        self.store.remove_prefix(prefix.as_slice())
    }
}

} // verus!
