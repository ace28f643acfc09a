use vstd::prelude::*;

use crate::error::StateError;

verus! {

/// Width in bytes of one encoded metakey.
pub const METAKEY_SIZE: usize = 8;

/// Big-endian bytes of a metakey: byte order follows numeric order.
pub open spec fn u64_be(x: u64) -> Seq<u8> {
    seq![
        (x >> 56u64) as u8,
        (x >> 48u64) as u8,
        (x >> 40u64) as u8,
        (x >> 32u64) as u8,
        (x >> 24u64) as u8,
        (x >> 16u64) as u8,
        (x >> 8u64) as u8,
        x as u8,
    ]
}

/// Little-endian bytes of a 64-bit number.
pub open spec fn u64_le(x: u64) -> Seq<u8> {
    seq![
        x as u8,
        (x >> 8u64) as u8,
        (x >> 16u64) as u8,
        (x >> 24u64) as u8,
        (x >> 32u64) as u8,
        (x >> 40u64) as u8,
        (x >> 48u64) as u8,
        (x >> 56u64) as u8,
    ]
}

/// The fixed-width prefix shared by every entry of one (item key, namespace) pair.
pub open spec fn metakeys_bytes(item_key: u64, namespace: u64) -> Seq<u8> {
    u64_be(item_key) + u64_be(namespace)
}

/// The storage key of a user key under an (item key, namespace) pair.
pub open spec fn key_bytes(item_key: u64, namespace: u64, user_key: Seq<u8>) -> Seq<u8> {
    metakeys_bytes(item_key, namespace) + user_key
}

/// `p` is a prefix of `k`.
pub open spec fn is_prefix(p: Seq<u8>, k: Seq<u8>) -> bool {
    p.len() <= k.len() && k.subrange(0, p.len() as int) == p
}

/// Length of the longest common prefix of `a` and `b`.
pub open spec fn common_len(a: Seq<u8>, b: Seq<u8>) -> nat
    decreases a.len(),
{
    if a.len() == 0 || b.len() == 0 || a[0] != b[0] {
        0
    } else {
        1 + common_len(a.drop_first(), b.drop_first())
    }
}

/// Lexicographic (byte-wise) strict order, the order of the storage engines.
pub open spec fn lex_lt(a: Seq<u8>, b: Seq<u8>) -> bool {
    let c = common_len(a, b);
    c < b.len() && (c == a.len() || a[c as int] < b[c as int])
}

/// Index of the last byte that is not 0xFF, or -1 when there is none.
pub open spec fn last_non_max(p: Seq<u8>) -> int
    decreases p.len(),
{
    if p.len() == 0 {
        -1
    } else if p.last() != 0xFFu8 {
        p.len() - 1
    } else {
        last_non_max(p.drop_last())
    }
}

/// The exclusive upper bound of the keys that start with `p`: the shortest key above all of
/// them. `None` when every byte of `p` is 0xFF, where no such key exists.
pub open spec fn prefix_end(p: Seq<u8>) -> Option<Seq<u8>> {
    let j = last_non_max(p);
    if j < 0 {
        None
    } else {
        Some(p.subrange(0, j).push((p[j] + 1) as u8))
    }
}

/// `k` lies in the half-open range `[start, end)`; an absent end bounds nothing.
pub open spec fn in_range(start: Seq<u8>, end: Option<Seq<u8>>, k: Seq<u8>) -> bool {
    !lex_lt(k, start) && match end {
        None => true,
        Some(e) => lex_lt(k, e),
    }
}

pub proof fn lemma_common_len(a: Seq<u8>, b: Seq<u8>)
    ensures
        common_len(a, b) <= a.len(),
        common_len(a, b) <= b.len(),
        forall|t: int| 0 <= t < common_len(a, b) ==> a[t] == b[t],
        common_len(a, b) < a.len() && common_len(a, b) < b.len() ==> a[common_len(a, b) as int]
            != b[common_len(a, b) as int],
    decreases a.len(),
{
    if a.len() == 0 || b.len() == 0 || a[0] != b[0] {
    } else {
        lemma_common_len(a.drop_first(), b.drop_first());
        assert forall|t: int| 0 <= t < common_len(a, b) implies a[t] == b[t] by {
            if t > 0 {
                assert(a[t] == a.drop_first()[t - 1]);
                assert(b[t] == b.drop_first()[t - 1]);
            }
        }
    }
}

/// The common prefix length is the first index where the sequences differ or one ends.
pub proof fn lemma_common_len_is(a: Seq<u8>, b: Seq<u8>, i: int)
    requires
        0 <= i <= a.len(),
        i <= b.len(),
        forall|t: int| 0 <= t < i ==> a[t] == b[t],
        i == a.len() || i == b.len() || a[i] != b[i],
    ensures
        common_len(a, b) == i,
{
    lemma_common_len(a, b);
    let c = common_len(a, b) as int;
    if c < i {
        assert(a[c] == b[c]);
    } else if c > i {
        assert(a[i] == b[i]);
    }
}

proof fn lemma_last_non_max(p: Seq<u8>)
    ensures
        -1 <= last_non_max(p) < p.len(),
        last_non_max(p) >= 0 ==> p[last_non_max(p)] != 0xFFu8,
        forall|t: int| last_non_max(p) < t < p.len() ==> p[t] == 0xFFu8,
    decreases p.len(),
{
    if p.len() == 0 {
    } else if p.last() != 0xFFu8 {
    } else {
        lemma_last_non_max(p.drop_last());
        assert forall|t: int| last_non_max(p) < t < p.len() implies p[t] == 0xFFu8 by {
            if t < p.len() - 1 {
                assert(p[t] == p.drop_last()[t]);
            }
        }
    }
}

/// A key lies in `[p, prefix_end(p))` exactly when it starts with `p`: deleting that range
/// deletes every key with the prefix and no other key.
pub proof fn lemma_prefix_range(p: Seq<u8>, k: Seq<u8>)
    requires
        p.len() > 0,
    ensures
        in_range(p, prefix_end(p), k) <==> is_prefix(p, k),
{
    lemma_last_non_max(p);
    lemma_common_len(k, p);
    let j = last_non_max(p);
    let c = common_len(k, p) as int;
    if is_prefix(p, k) {
        assert forall|t: int| 0 <= t < p.len() implies k[t] == p[t] by {
            assert(k[t] == k.subrange(0, p.len() as int)[t]);
        }
        lemma_common_len_is(k, p, p.len() as int);
        if j >= 0 {
            let e = p.subrange(0, j).push((p[j] + 1) as u8);
            assert forall|t: int| 0 <= t < j implies k[t] == e[t] by {
                assert(e[t] == p[t]);
            }
            assert(e[j] == (p[j] + 1) as u8);
            lemma_common_len_is(k, e, j);
        }
    } else {
        if in_range(p, prefix_end(p), k) {
            if c >= p.len() {
                assert(k.subrange(0, p.len() as int) =~= p);
            }
            assert(c < p.len() && c < k.len() && k[c] > p[c]);
            if j < c {
                assert(p[c] == 0xFFu8);
            } else {
                let e = p.subrange(0, j).push((p[j] + 1) as u8);
                assert forall|t: int| 0 <= t < c implies k[t] == e[t] by {
                    assert(e[t] == p[t]);
                }
                if c < j {
                    assert(e[c] == p[c]);
                    lemma_common_len_is(k, e, c);
                } else {
                    assert(e[j] == (p[j] + 1) as u8);
                    if k[j] == e[j] {
                        assert forall|t: int| 0 <= t < e.len() implies k[t] == e[t] by {
                            if t < j {
                                assert(e[t] == p[t]);
                            }
                        }
                        lemma_common_len_is(k, e, e.len() as int);
                    } else {
                        lemma_common_len_is(k, e, j);
                    }
                }
            }
        }
    }
}

/// The encoding of a metakey: eight big-endian bytes.
pub fn encode_u64(x: u64) -> (r: Vec<u8>)
    ensures
        r@ == u64_be(x),
{
    let mut r: Vec<u8> = Vec::with_capacity(METAKEY_SIZE);
    r.push((x >> 56u64) as u8);
    r.push((x >> 48u64) as u8);
    r.push((x >> 40u64) as u8);
    r.push((x >> 32u64) as u8);
    r.push((x >> 24u64) as u8);
    r.push((x >> 16u64) as u8);
    r.push((x >> 8u64) as u8);
    r.push(x as u8);
    assert(r@ =~= u64_be(x));
    r
}

/// The prefix under which all state of one (item key, namespace) pair is stored.
pub fn encode_metakeys(item_key: u64, namespace: u64) -> (r: Vec<u8>)
    ensures
        r@ == metakeys_bytes(item_key, namespace),
        r@.len() == 2 * METAKEY_SIZE,
{
    let mut r = encode_u64(item_key);
    let mut n = encode_u64(namespace);
    r.append(&mut n);
    r
}

/// The storage key: the metakey prefix followed by the user key.
pub fn encode_key(item_key: u64, namespace: u64, user_key: &[u8]) -> (r: Vec<u8>)
    ensures
        r@ == key_bytes(item_key, namespace, user_key@),
{
    let mut r = encode_metakeys(item_key, namespace);
    let mut i: usize = 0;
    while i < user_key.len()
        invariant
            i <= user_key@.len(),
            r@ == metakeys_bytes(item_key, namespace) + user_key@.subrange(0, i as int),
        decreases user_key@.len() - i,
    {
        r.push(user_key[i]);
        i = i + 1;
        assert(r@ =~= metakeys_bytes(item_key, namespace) + user_key@.subrange(0, i as int));
    }
    assert(user_key@.subrange(0, user_key@.len() as int) =~= user_key@);
    r
}

/// A benchmark key: the little-endian bytes of `i`, repeated until `key_size` bytes.
pub fn make_key(i: usize, key_size: usize) -> (r: Vec<u8>)
    ensures
        r@.len() == key_size,
        forall|j: int| 0 <= j < key_size ==> r@[j] == u64_le(i as u64)[j % 8],
{
    let x = i as u64;
    let mut bytes: Vec<u8> = Vec::with_capacity(8);
    bytes.push(x as u8);
    bytes.push((x >> 8u64) as u8);
    bytes.push((x >> 16u64) as u8);
    bytes.push((x >> 24u64) as u8);
    bytes.push((x >> 32u64) as u8);
    bytes.push((x >> 40u64) as u8);
    bytes.push((x >> 48u64) as u8);
    bytes.push((x >> 56u64) as u8);
    assert(bytes@ =~= u64_le(x));
    let mut r: Vec<u8> = Vec::with_capacity(key_size);
    let mut j: usize = 0;
    while j < key_size
        invariant
            j <= key_size,
            bytes@ == u64_le(x),
            r@.len() == j,
            forall|t: int| 0 <= t < j ==> r@[t] == u64_le(x)[t % 8],
        decreases key_size - j,
    {
        r.push(bytes[j % 8]);
        j = j + 1;
    }
    r
}

/// Byte-wise lexicographic comparison: `a` sorts strictly before `b`.
pub fn lex_less(a: &[u8], b: &[u8]) -> (r: bool)
    ensures
        r == lex_lt(a@, b@),
{
    let mut i: usize = 0;
    while i < a.len() && i < b.len() && a[i] == b[i]
        invariant
            i <= a@.len(),
            i <= b@.len(),
            forall|t: int| 0 <= t < i ==> a@[t] == b@[t],
        decreases a@.len() - i,
    {
        i = i + 1;
    }
    proof {
        lemma_common_len_is(a@, b@, i as int);
    }
    i < b.len() && (i == a.len() || a[i] < b[i])
}

/// The half-open key range `[prefix, end)` that holds exactly the keys starting with
/// `prefix`. An empty prefix has no such bound and is rejected.
pub fn prefix_range(prefix: &[u8]) -> (r: Result<Option<Vec<u8>>, StateError>)
    ensures
        prefix@.len() == 0 <==> r == Err::<Option<Vec<u8>>, StateError>(
            StateError::InvalidArgument,
        ),
        prefix@.len() > 0 ==> r is Ok,
        r is Ok ==> match r->Ok_0 {
            None => prefix_end(prefix@) is None,
            Some(e) => prefix_end(prefix@) == Some(e@),
        },
{
    if prefix.len() == 0 {
        return Err(StateError::InvalidArgument);
    }
    proof {
        lemma_last_non_max(prefix@);
    }
    let mut n: usize = prefix.len();
    assert(prefix@.subrange(0, n as int) =~= prefix@);
    while n > 0 && prefix[n - 1] == 0xFFu8
        invariant
            0 <= n <= prefix@.len(),
            last_non_max(prefix@) == last_non_max(prefix@.subrange(0, n as int)),
        decreases n,
    {
        assert(prefix@.subrange(0, n - 1) =~= prefix@.subrange(0, n as int).drop_last());
        n = n - 1;
    }
    assert(prefix@.subrange(0, 0) =~= Seq::<u8>::empty());
    if n == 0 {
        return Ok(None);
    }
    assert(prefix@.subrange(0, n as int).last() == prefix@[n - 1]);
    let j = n - 1;
    let mut end: Vec<u8> = Vec::with_capacity(n);
    let mut i: usize = 0;
    while i < j
        invariant
            i <= j,
            j < prefix@.len(),
            end@ == prefix@.subrange(0, i as int),
        decreases j - i,
    {
        end.push(prefix[i]);
        i = i + 1;
        assert(end@ =~= prefix@.subrange(0, i as int));
    }
    end.push(prefix[j] + 1);
    Ok(Some(end))
}

/// `prefix` starts `key`.
pub fn has_prefix(prefix: &[u8], key: &[u8]) -> (r: bool)
    ensures
        r == is_prefix(prefix@, key@),
{
    if prefix.len() > key.len() {
        return false;
    }
    let mut i: usize = 0;
    while i < prefix.len()
        invariant
            i <= prefix@.len(),
            prefix@.len() <= key@.len(),
            forall|t: int| 0 <= t < i ==> key@[t] == prefix@[t],
        decreases prefix@.len() - i,
    {
        if key[i] != prefix[i] {
            assert(key@.subrange(0, prefix@.len() as int)[i as int] != prefix@[i as int]);
            return false;
        }
        i = i + 1;
    }
    assert(key@.subrange(0, prefix@.len() as int) =~= prefix@);
    true
}

} // verus!
