use vstd::prelude::*;
use vstd::slice::slice_to_vec;

use crate::codec::{
    in_range, is_prefix, lemma_prefix_range, lex_less, prefix_end, prefix_range,
};
use crate::error::StateError;

verus! {

/// What a byte map holds under `k`.
pub open spec fn lookup(m: Map<Seq<u8>, Seq<u8>>, k: Seq<u8>) -> Option<Seq<u8>> {
    if m.contains_key(k) {
        Some(m[k])
    } else {
        None
    }
}

/// The view of an optional byte buffer.
pub open spec fn opt_bytes(o: Option<Vec<u8>>) -> Option<Seq<u8>> {
    match o {
        Some(v) => Some(v@),
        None => None,
    }
}

/// `m` without the keys that start with `p`.
pub open spec fn without_prefix(m: Map<Seq<u8>, Seq<u8>>, p: Seq<u8>) -> Map<Seq<u8>, Seq<u8>> {
    Map::new(|k: Seq<u8>| m.contains_key(k) && !is_prefix(p, k), |k: Seq<u8>| m[k])
}

/// `m` without the keys of the range `[start, end)`.
pub open spec fn without_range(
    m: Map<Seq<u8>, Seq<u8>>,
    start: Seq<u8>,
    end: Option<Seq<u8>>,
) -> Map<Seq<u8>, Seq<u8>> {
    Map::new(|k: Seq<u8>| m.contains_key(k) && !in_range(start, end, k), |k: Seq<u8>| m[k])
}

/// `m` after writing the pairs of `s` in order.
pub open spec fn insert_all(m: Map<Seq<u8>, Seq<u8>>, s: Seq<(Vec<u8>, Vec<u8>)>) -> Map<
    Seq<u8>,
    Seq<u8>,
>
    decreases s.len(),
{
    if s.len() == 0 {
        m
    } else {
        insert_all(m, s.drop_last()).insert(s.last().0@, s.last().1@)
    }
}

/// `top` laid over `below`: a key of `top` shadows the same key below.
pub open spec fn overlay(top: Map<Seq<u8>, Seq<u8>>, below: Map<Seq<u8>, Seq<u8>>) -> Map<
    Seq<u8>,
    Seq<u8>,
> {
    Map::new(
        |k: Seq<u8>| top.contains_key(k) || below.contains_key(k),
        |k: Seq<u8>|
            if top.contains_key(k) {
                top[k]
            } else {
                below[k]
            },
    )
}

/// Writing the pairs of a list with distinct keys lays the map they describe over `m`.
pub proof fn lemma_insert_all_distinct(
    m: Map<Seq<u8>, Seq<u8>>,
    s: Seq<(Vec<u8>, Vec<u8>)>,
    e: Map<Seq<u8>, Seq<u8>>,
)
    requires
        forall|i: int, j: int| 0 <= i < j < s.len() ==> s[i].0@ != s[j].0@,
        forall|i: int|
            0 <= i < s.len() ==> e.contains_key(#[trigger] s[i].0@) && e[s[i].0@] == s[i].1@,
        forall|k: Seq<u8>| #[trigger]
            e.contains_key(k) ==> exists|i: int| 0 <= i < s.len() && s[i].0@ == k,
    ensures
        insert_all(m, s) == overlay(e, m),
    decreases s.len(),
{
    if s.len() == 0 {
        assert forall|k: Seq<u8>| !e.contains_key(k) by {
            if e.contains_key(k) {
                let i = choose|i: int| 0 <= i < s.len() && s[i].0@ == k;
            }
        }
        assert(insert_all(m, s) =~= overlay(e, m));
    } else {
        let n = s.len() - 1;
        let last = s[n];
        let p = s.drop_last();
        let e2 = e.remove(last.0@);
        assert forall|i: int| 0 <= i < p.len() implies e2.contains_key(#[trigger] p[i].0@)
            && e2[p[i].0@] == p[i].1@ by {
            assert(p[i] == s[i]);
        }
        assert forall|k: Seq<u8>| #[trigger] e2.contains_key(k) implies exists|i: int|
            0 <= i < p.len() && p[i].0@ == k by {
            let i = choose|i: int| 0 <= i < s.len() && s[i].0@ == k;
            assert(i != n);
            assert(p[i] == s[i]);
        }
        lemma_insert_all_distinct(m, p, e2);
        assert(e.contains_key(s[n].0@));
        assert(insert_all(m, s) =~= overlay(e, m));
    }
}

/// Some pair of `s` has key `k`.
pub open spec fn batch_has(s: Seq<(Vec<u8>, Vec<u8>)>, k: Seq<u8>) -> bool {
    exists|i: int| 0 <= i < s.len() && (#[trigger] s[i]).0@ == k
}

/// The byte-oriented contract that every physical store meets.
pub trait Backend: Sized {
    /// The entries that the store holds.
    spec fn contents(&self) -> Map<Seq<u8>, Seq<u8>>;

    /// Whether the store never fails: it makes no outside call that could.
    spec fn infallible(&self) -> bool;

    /// The value under `key`, if any.
    fn get(&self, key: &[u8]) -> (r: Result<Option<Vec<u8>>, StateError>)
        ensures
            self.infallible() ==> r is Ok,
            r is Ok ==> opt_bytes(r->Ok_0) == lookup(self.contents(), key@),
    ;

    /// Writes `value` under `key`.
    fn put(&mut self, key: &[u8], value: &[u8]) -> (r: Result<(), StateError>)
        ensures
            final(self).infallible() == old(self).infallible(),
            old(self).infallible() ==> r is Ok,
            r is Ok ==> final(self).contents() == old(self).contents().insert(key@, value@),
            r is Err ==> final(self).contents() == old(self).contents(),
    ;

    /// Writes the pairs of `entries` in order, as one batch. A failed batch leaves every key
    /// outside it as it was.
    fn put_all(&mut self, entries: &[(Vec<u8>, Vec<u8>)]) -> (r: Result<(), StateError>)
        ensures
            final(self).infallible() == old(self).infallible(),
            old(self).infallible() ==> r is Ok,
            r is Ok ==> final(self).contents() == insert_all(old(self).contents(), entries@),
            r is Err ==> forall|k: Seq<u8>|
                !batch_has(entries@, k) ==> #[trigger] lookup(final(self).contents(), k)
                    == lookup(old(self).contents(), k),
    ;

    /// Deletes `key`.
    fn remove(&mut self, key: &[u8]) -> (r: Result<(), StateError>)
        ensures
            final(self).infallible() == old(self).infallible(),
            old(self).infallible() ==> r is Ok,
            r is Ok ==> final(self).contents() == old(self).contents().remove(key@),
            r is Err ==> final(self).contents() == old(self).contents(),
    ;

    /// Deletes every key that starts with `prefix`; an empty prefix is rejected.
    fn remove_prefix(&mut self, prefix: &[u8]) -> (r: Result<(), StateError>)
        ensures
            final(self).infallible() == old(self).infallible(),
            old(self).infallible() && prefix@.len() > 0 ==> r is Ok,
            r == Err::<(), StateError>(StateError::InvalidArgument) <==> prefix@.len() == 0,
            r is Ok ==> final(self).contents() == without_prefix(old(self).contents(), prefix@),
            r is Err ==> final(self).contents() == old(self).contents(),
    ;

    /// Whether `key` holds a value.
    fn contains(&self, key: &[u8]) -> (r: Result<bool, StateError>)
        ensures
            self.infallible() ==> r is Ok,
            r is Ok ==> r->Ok_0 == self.contents().contains_key(key@),
    ;

    /// A point-in-time copy: a store that holds what this one holds now, and that later
    /// writes to either do not reach.
    fn checkpoint(&self) -> (r: Result<Self, StateError>)
        ensures
            self.infallible() ==> r is Ok,
            r is Ok ==> r->Ok_0.contents() == self.contents(),
            r is Ok ==> r->Ok_0.infallible() == self.infallible(),
    ;
}

/// One write of the in-memory store's log.
pub enum LogOp {
    Put(Vec<u8>, Vec<u8>),
    Delete(Vec<u8>),
    DeleteRange(Vec<u8>, Option<Vec<u8>>),
}

pub open spec fn apply_op(m: Map<Seq<u8>, Seq<u8>>, op: LogOp) -> Map<Seq<u8>, Seq<u8>> {
    match op {
        LogOp::Put(k, v) => m.insert(k@, v@),
        LogOp::Delete(k) => m.remove(k@),
        LogOp::DeleteRange(s, e) => without_range(m, s@, opt_bytes(e)),
    }
}

/// The entries that a log of writes leaves.
pub open spec fn replay(log: Seq<LogOp>) -> Map<Seq<u8>, Seq<u8>>
    decreases log.len(),
{
    if log.len() == 0 {
        Map::empty()
    } else {
        apply_op(replay(log.drop_last()), log.last())
    }
}

/// Two log writes with the same bytes.
pub open spec fn same_op(a: LogOp, b: LogOp) -> bool {
    match (a, b) {
        (LogOp::Put(k1, v1), LogOp::Put(k2, v2)) => k1@ == k2@ && v1@ == v2@,
        (LogOp::Delete(k1), LogOp::Delete(k2)) => k1@ == k2@,
        (LogOp::DeleteRange(s1, e1), LogOp::DeleteRange(s2, e2)) => s1@ == s2@ && opt_bytes(e1)
            == opt_bytes(e2),
        _ => false,
    }
}

proof fn lemma_replay_same(a: Seq<LogOp>, b: Seq<LogOp>)
    requires
        a.len() == b.len(),
        forall|i: int| 0 <= i < a.len() ==> same_op(#[trigger] a[i], b[i]),
    ensures
        replay(a) == replay(b),
    decreases a.len(),
{
    if a.len() > 0 {
        lemma_replay_same(a.drop_last(), b.drop_last());
        assert(same_op(a[a.len() - 1], b[b.len() - 1]));
    }
}

fn copy_op(op: &LogOp) -> (r: LogOp)
    ensures
        same_op(*op, r),
{
    match op {
        LogOp::Put(k, v) => LogOp::Put(slice_to_vec(k.as_slice()), slice_to_vec(v.as_slice())),
        LogOp::Delete(k) => LogOp::Delete(slice_to_vec(k.as_slice())),
        LogOp::DeleteRange(s, e) => LogOp::DeleteRange(
            slice_to_vec(s.as_slice()),
            match e {
                Some(x) => Some(slice_to_vec(x.as_slice())),
                None => None,
            },
        ),
    }
}

/// Whether two byte strings are equal.
pub fn bytes_eq(a: &[u8], b: &[u8]) -> (r: bool)
    ensures
        r == (a@ == b@),
{
    if a.len() != b.len() {
        return false;
    }
    let mut i: usize = 0;
    while i < a.len()
        invariant
            i <= a@.len(),
            a@.len() == b@.len(),
            forall|t: int| 0 <= t < i ==> a@[t] == b@[t],
        decreases a@.len() - i,
    {
        if a[i] != b[i] {
            return false;
        }
        i = i + 1;
    }
    assert(a@ =~= b@);
    true
}

/// A store held in memory as a log of writes; the latest write of a key wins.
pub struct InMemory {
    log: Vec<LogOp>,
}

impl InMemory {
    /// An empty store.
    pub fn new() -> (r: InMemory)
        ensures
            r.contents() == Map::<Seq<u8>, Seq<u8>>::empty(),
            r.infallible(),
    {
        InMemory { log: Vec::new() }
    }

    fn append(&mut self, op: LogOp)
        ensures
            final(self).contents() == apply_op(old(self).contents(), op),
    {
        let ghost before = self.log@;
        self.log.push(op);
        assert(self.log@.drop_last() =~= before);
    }
}

/// `key` lies in the range `[start, end)`.
fn in_range_exec(start: &[u8], end: &Option<Vec<u8>>, key: &[u8]) -> (r: bool)
    ensures
        r == in_range(start@, opt_bytes(*end), key@),
{
    if lex_less(key, start) {
        return false;
    }
    match end {
        None => true,
        Some(e) => lex_less(key, e.as_slice()),
    }
}

impl Backend for InMemory {
    closed spec fn contents(&self) -> Map<Seq<u8>, Seq<u8>> {
        replay(self.log@)
    }

    /// The store lives in memory and never fails.
    closed spec fn infallible(&self) -> bool {
        true
    }

    fn get(&self, key: &[u8]) -> (r: Result<Option<Vec<u8>>, StateError>) {
        let mut i: usize = self.log.len();
        assert(self.log@.subrange(0, i as int) =~= self.log@);
        while i > 0
            invariant
                i <= self.log@.len(),
                lookup(replay(self.log@), key@) == lookup(
                    replay(self.log@.subrange(0, i as int)),
                    key@,
                ),
            decreases i,
        {
            let ghost prev = self.log@.subrange(0, i - 1);
            assert(self.log@.subrange(0, i as int).drop_last() =~= prev);
            match &self.log[i - 1] {
                LogOp::Put(k, v) => {
                    if bytes_eq(k.as_slice(), key) {
                        return Ok(Some(slice_to_vec(v.as_slice())));
                    }
                },
                LogOp::Delete(k) => {
                    if bytes_eq(k.as_slice(), key) {
                        return Ok(None);
                    }
                },
                LogOp::DeleteRange(s, e) => {
                    if in_range_exec(s.as_slice(), e, key) {
                        return Ok(None);
                    }
                },
            }
            i = i - 1;
        }
        Ok(None)
    }

    fn put(&mut self, key: &[u8], value: &[u8]) -> (r: Result<(), StateError>) {
        self.append(LogOp::Put(slice_to_vec(key), slice_to_vec(value)));
        Ok(())
    }

    fn put_all(&mut self, entries: &[(Vec<u8>, Vec<u8>)]) -> (r: Result<(), StateError>) {
        let ghost start = self.contents();
        let mut i: usize = 0;
        while i < entries.len()
            invariant
                i <= entries@.len(),
                self.contents() == insert_all(start, entries@.subrange(0, i as int)),
            decreases entries@.len() - i,
        {
            let (k, v) = &entries[i];
            self.append(LogOp::Put(slice_to_vec(k.as_slice()), slice_to_vec(v.as_slice())));
            assert(entries@.subrange(0, i + 1).drop_last() =~= entries@.subrange(0, i as int));
            i = i + 1;
        }
        assert(entries@.subrange(0, i as int) =~= entries@);
        Ok(())
    }

    fn remove(&mut self, key: &[u8]) -> (r: Result<(), StateError>) {
        self.append(LogOp::Delete(slice_to_vec(key)));
        Ok(())
    }

    fn remove_prefix(&mut self, prefix: &[u8]) -> (r: Result<(), StateError>) {
        match prefix_range(prefix) {
            Err(e) => Err(e),
            Ok(end) => {
                let ghost before = self.contents();
                self.append(LogOp::DeleteRange(slice_to_vec(prefix), end));
                proof {
                    assert forall|k: Seq<u8>| #[trigger]
                        in_range(prefix@, prefix_end(prefix@), k) == is_prefix(prefix@, k) by {
                        lemma_prefix_range(prefix@, k);
                    }
                    assert(opt_bytes(end) == prefix_end(prefix@));
                    assert(self.contents() =~= without_prefix(before, prefix@));
                }
                Ok(())
            },
        }
    }

    fn contains(&self, key: &[u8]) -> (r: Result<bool, StateError>) {
        match self.get(key) {
            Ok(v) => Ok(v.is_some()),
            Err(e) => Err(e),
        }
    }

    fn checkpoint(&self) -> (r: Result<Self, StateError>) {
        let mut log: Vec<LogOp> = Vec::with_capacity(self.log.len());
        let mut i: usize = 0;
        while i < self.log.len()
            invariant
                i <= self.log@.len(),
                log@.len() == i,
                forall|j: int| 0 <= j < i ==> same_op(#[trigger] self.log@[j], log@[j]),
            decreases self.log@.len() - i,
        {
            log.push(copy_op(&self.log[i]));
            i = i + 1;
        }
        proof {
            lemma_replay_same(self.log@, log@);
        }
        Ok(InMemory { log })
    }
}

} // verus!
