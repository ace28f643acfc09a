use vstd::prelude::*;

use crate::codec::{encode_key, encode_metakeys, key_bytes, metakeys_bytes};
use crate::error::StateError;
use crate::store::{lookup, Backend};
use crate::tiered::Tiered;

verus! {

/// The kind of state object that a handle names.
#[derive(Clone, Copy, Debug, PartialEq, Eq, Structural)]
pub enum StateKind {
    Value,
    KeyedMap,
    List,
    Reducer,
    Aggregator,
}

/// One logical state column: a stable id and the metakeys that scope its entries.
pub struct Handle {
    pub id: String,
    pub kind: StateKind,
    pub item_key: u64,
    pub namespace: u64,
    pub registered: bool,
}

/// The little-endian bytes of a stored integer value.
pub open spec fn i64_bytes(x: i64) -> Seq<u8> {
    let u = x as u64;
    seq![
        u as u8,
        (u >> 8u64) as u8,
        (u >> 16u64) as u8,
        (u >> 24u64) as u8,
        (u >> 32u64) as u8,
        (u >> 40u64) as u8,
        (u >> 48u64) as u8,
        (u >> 56u64) as u8,
    ]
}

/// The integer value whose stored bytes are `b` (eight little-endian bytes).
pub open spec fn i64_of(b: Seq<u8>) -> i64 {
    ((b[0] as u64) | ((b[1] as u64) << 8u64) | ((b[2] as u64) << 16u64) | ((b[3] as u64)
        << 24u64) | ((b[4] as u64) << 32u64) | ((b[5] as u64) << 40u64) | ((b[6] as u64)
        << 48u64) | ((b[7] as u64) << 56u64)) as i64
}

/// The bytes of a stored integer value.
pub fn encode_i64(x: i64) -> (r: Vec<u8>)
    ensures
        r@ == i64_bytes(x),
{
    let u = x as u64;
    let mut r: Vec<u8> = Vec::with_capacity(8);
    r.push(u as u8);
    r.push((u >> 8u64) as u8);
    r.push((u >> 16u64) as u8);
    r.push((u >> 24u64) as u8);
    r.push((u >> 32u64) as u8);
    r.push((u >> 40u64) as u8);
    r.push((u >> 48u64) as u8);
    r.push((u >> 56u64) as u8);
    assert(r@ =~= i64_bytes(x));
    r
}

/// The integer value stored as `b`; anything but eight bytes does not decode.
pub fn decode_i64(b: &[u8]) -> (r: Result<i64, StateError>)
    ensures
        b@.len() != 8 <==> r is Err,
        r is Err ==> r->Err_0 == StateError::Deserialization,
        r is Ok ==> i64_bytes(r->Ok_0) == b@ && r->Ok_0 == i64_of(b@),
{
    if b.len() != 8 {
        return Err(StateError::Deserialization);
    }
    let u: u64 = (b[0] as u64) | ((b[1] as u64) << 8u64) | ((b[2] as u64) << 16u64) | ((
    b[3] as u64) << 24u64) | ((b[4] as u64) << 32u64) | ((b[5] as u64) << 40u64) | ((
    b[6] as u64) << 48u64) | ((b[7] as u64) << 56u64);
    let (b0, b1, b2, b3, b4, b5, b6, b7) = (b[0], b[1], b[2], b[3], b[4], b[5], b[6], b[7]);
    assert(u as u8 == b0 && (u >> 8u64) as u8 == b1 && (u >> 16u64) as u8 == b2 && (u
        >> 24u64) as u8 == b3 && (u >> 32u64) as u8 == b4 && (u >> 40u64) as u8 == b5 && (u
        >> 48u64) as u8 == b6 && (u >> 56u64) as u8 == b7) by (bit_vector)
        requires
            u == (b0 as u64) | ((b1 as u64) << 8u64) | ((b2 as u64) << 16u64) | ((b3 as u64)
                << 24u64) | ((b4 as u64) << 32u64) | ((b5 as u64) << 40u64) | ((b6 as u64)
                << 48u64) | ((b7 as u64) << 56u64),
    ;
    let x = u as i64;
    assert((u as i64) as u64 == u) by (bit_vector);
    assert(i64_bytes(x) =~= b@);
    Ok(x)
}

impl Handle {
    /// The storage prefix of this handle's entries.
    pub open spec fn prefix(&self) -> Seq<u8> {
        metakeys_bytes(self.item_key, self.namespace)
    }

    fn named(id: &str, kind: StateKind) -> (r: Handle)
        ensures
            r.id@ == id@,
            r.kind == kind,
            r.item_key == 0,
            r.namespace == 0,
            !r.registered,
    {
        Handle { id: id.to_string(), kind, item_key: 0, namespace: 0, registered: false }
    }

    /// A handle for a single value, unregistered, with zero metakeys.
    pub fn value(id: &str) -> (r: Handle)
        ensures
            r.id@ == id@,
            r.kind == StateKind::Value,
            r.item_key == 0,
            r.namespace == 0,
            !r.registered,
    {
        Self::named(id, StateKind::Value)
    }

    /// A handle for a map.
    pub fn map(id: &str) -> (r: Handle)
        ensures
            r.id@ == id@,
            r.kind == StateKind::KeyedMap,
            r.item_key == 0,
            r.namespace == 0,
            !r.registered,
    {
        Self::named(id, StateKind::KeyedMap)
    }

    /// A handle for a vector.
    pub fn vec(id: &str) -> (r: Handle)
        ensures
            r.id@ == id@,
            r.kind == StateKind::List,
            r.item_key == 0,
            r.namespace == 0,
            !r.registered,
    {
        Self::named(id, StateKind::List)
    }

    /// A handle for a reducer.
    pub fn reducer(id: &str) -> (r: Handle)
        ensures
            r.id@ == id@,
            r.kind == StateKind::Reducer,
            r.item_key == 0,
            r.namespace == 0,
            !r.registered,
    {
        Self::named(id, StateKind::Reducer)
    }

    /// A handle for an aggregator.
    pub fn aggregator(id: &str) -> (r: Handle)
        ensures
            r.id@ == id@,
            r.kind == StateKind::Aggregator,
            r.item_key == 0,
            r.namespace == 0,
            !r.registered,
    {
        Self::named(id, StateKind::Aggregator)
    }

    /// The same handle scoped to `item_key`.
    pub fn with_item_key(self, item_key: u64) -> (r: Handle)
        ensures
            r == (Handle { item_key, ..self }),
    {
        Handle { item_key, ..self }
    }

    /// The same handle scoped to `namespace`.
    pub fn with_namespace(self, namespace: u64) -> (r: Handle)
        ensures
            r == (Handle { namespace, ..self }),
    {
        Handle { namespace, ..self }
    }

    /// The encoded metakeys: the prefix of all of this handle's entries.
    pub fn serialize_metakeys(&self) -> (r: Vec<u8>)
        ensures
            r@ == self.prefix(),
    {
        encode_metakeys(self.item_key, self.namespace)
    }

    /// The storage key of `key` under this handle's metakeys.
    pub fn serialize_metakeys_and_key(&self, key: &[u8]) -> (r: Vec<u8>)
        ensures
            r@ == key_bytes(self.item_key, self.namespace, key@),
    {
        encode_key(self.item_key, self.namespace, key)
    }

    /// Marks the handle as registered; doing it again changes nothing.
    pub fn register(&mut self)
        ensures
            *final(self) == (Handle { registered: true, ..*old(self) }),
    {
        self.registered = true;
    }
}

/// Registering a handle a second time leaves it as the first registration did.
pub proof fn lemma_register_idempotent(h: Handle)
    ensures
        (Handle { registered: true, ..(Handle { registered: true, ..h }) }) == (Handle {
            registered: true,
            ..h
        }),
{
}

impl<L: Backend, R: Backend> Tiered<L, R> {
    /// A read of the handle's value needs no store that can fail: the caches hold it, or
    /// neither store can fail.
    pub open spec fn readable(&self, handle: Handle) -> bool {
        self.cached_map().contains_key(handle.prefix()) || self.stores_infallible()
    }

    /// What the handle's value decodes from: nothing stored, or eight bytes.
    pub open spec fn decodable(&self, handle: Handle) -> bool {
        match lookup(self.view(), handle.prefix()) {
            Some(b) => b.len() == 8,
            None => true,
        }
    }

    /// Registers a handle with this store. Stored data is not touched.
    pub fn register_handle(&self, handle: &mut Handle)
        ensures
            *final(handle) == (Handle { registered: true, ..*old(handle) }),
    {
        handle.register();
    }

    /// The value stored for the handle's metakeys.
    pub fn value_get(&mut self, handle: &Handle) -> (r: Result<Option<i64>, StateError>)
        requires
            old(self).wf(),
        ensures
            final(self).wf(),
            final(self).view() == old(self).view(),
            final(self).cached_map() == old(self).cached_map(),
            final(self).stores_infallible() == old(self).stores_infallible(),
            !handle.registered ==> r == Err::<Option<i64>, StateError>(
                StateError::HandleNotRegistered,
            ),
            handle.registered && old(self).readable(*handle) && old(self).decodable(*handle)
                ==> r is Ok,
            handle.registered && old(self).readable(*handle) && !old(self).decodable(*handle)
                ==> r == Err::<Option<i64>, StateError>(StateError::Deserialization),
            !old(self).decodable(*handle) ==> r is Err,
            r matches Ok(Some(x)) ==> lookup(old(self).view(), handle.prefix()) == Some(
                i64_bytes(x),
            ),
            r matches Ok(None) ==> lookup(old(self).view(), handle.prefix()) is None,
    {
        if !handle.registered {
            return Err(StateError::HandleNotRegistered);
        }
        let key = handle.serialize_metakeys();
        match self.get(handle.id.as_str(), key.as_slice()) {
            Err(e) => Err(e),
            Ok(None) => Ok(None),
            Ok(Some(bytes)) => match decode_i64(bytes.as_slice()) {
                Err(e) => Err(e),
                Ok(x) => Ok(Some(x)),
            },
        }
    }

    /// Stores `value` for the handle's metakeys without reading the old one.
    pub fn value_fast_set(&mut self, handle: &Handle, value: i64) -> (r: Result<(), StateError>)
        requires
            old(self).wf(),
        ensures
            final(self).wf(),
            final(self).stores_infallible() == old(self).stores_infallible(),
            !handle.registered <==> r is Err,
            r is Ok ==> final(self).cached_map().contains_key(handle.prefix()),
            !handle.registered ==> *final(self) == *old(self) && r
                == Err::<(), StateError>(StateError::HandleNotRegistered),
            r is Ok ==> final(self).view() == old(self).view().insert(
                handle.prefix(),
                i64_bytes(value),
            ),
    {
        if !handle.registered {
            return Err(StateError::HandleNotRegistered);
        }
        let key = handle.serialize_metakeys();
        let bytes = encode_i64(value);
        self.put(handle.id.as_str(), key.as_slice(), bytes.as_slice())
    }

    /// Stores `value` for the handle's metakeys and returns the value it replaces.
    pub fn value_set(&mut self, handle: &Handle, value: i64) -> (r: Result<Option<i64>, StateError>)
        requires
            old(self).wf(),
        ensures
            final(self).wf(),
            final(self).stores_infallible() == old(self).stores_infallible(),
            !handle.registered ==> r == Err::<Option<i64>, StateError>(
                StateError::HandleNotRegistered,
            ),
            handle.registered && old(self).readable(*handle) && old(self).decodable(*handle)
                ==> r is Ok,
            handle.registered && old(self).readable(*handle) && !old(self).decodable(*handle)
                ==> r == Err::<Option<i64>, StateError>(StateError::Deserialization),
            !old(self).decodable(*handle) ==> r is Err,
            r is Err ==> final(self).view() == old(self).view(),
            r is Ok ==> final(self).cached_map().contains_key(handle.prefix()),
            r is Ok ==> final(self).view() == old(self).view().insert(
                handle.prefix(),
                i64_bytes(value),
            ),
            r matches Ok(Some(x)) ==> lookup(old(self).view(), handle.prefix()) == Some(
                i64_bytes(x),
            ),
            r matches Ok(None) ==> lookup(old(self).view(), handle.prefix()) is None,
    {
        let old_value = match self.value_get(handle) {
            Err(e) => {
                return Err(e);
            },
            Ok(v) => v,
        };
        match self.value_fast_set(handle, value) {
            Err(e) => Err(e),
            Ok(()) => Ok(old_value),
        }
    }

    /// Deletes the value stored for the handle's metakeys.
    pub fn value_clear(&mut self, handle: &Handle) -> (r: Result<(), StateError>)
        requires
            old(self).wf(),
        ensures
            final(self).wf(),
            final(self).stores_infallible() == old(self).stores_infallible(),
            !handle.registered ==> r == Err::<(), StateError>(StateError::HandleNotRegistered),
            handle.registered && old(self).stores_infallible() ==> r is Ok,
            r is Ok ==> final(self).view() == old(self).view().remove(handle.prefix()),
    {
        if !handle.registered {
            return Err(StateError::HandleNotRegistered);
        }
        let key = handle.serialize_metakeys();
        self.remove(handle.id.as_str(), key.as_slice())
    }
}

} // verus!
