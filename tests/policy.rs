use arcon_state::merge::{
    make_aggregator_merge, make_reducer_merge, CountAggregator, MaxReducer, ACCUMULATOR_MARKER,
    VALUE_MARKER,
};
use arcon_state::policy::{CacheBundle, CachePolicy, Hybrid, LfuPolicy, LruPolicy, PlainBounded};
use arcon_state::state::encode_i64;
use arcon_state::store::{Backend, InMemory};

fn seeded() -> InMemory {
    let mut s = InMemory::new();
    for k in [b"A", b"B", b"C", b"D"] {
        s.put(k, &[k[0] + 32]).unwrap();
    }
    s
}

enum Step {
    Get(&'static [u8]),
    Put(&'static [u8], &'static [u8]),
}

fn run<P: CachePolicy>(p: &mut P, trace: &[Step]) -> Vec<Option<(Vec<u8>, bool)>> {
    let mut out = Vec::new();
    for step in trace {
        match step {
            Step::Get(k) => out.push(p.get(k).unwrap()),
            Step::Put(k, v) => p.insert(k, v).unwrap(),
        }
    }
    out
}

fn trace() -> Vec<Step> {
    vec![
        Step::Get(b"A"),
        Step::Get(b"B"),
        Step::Get(b"A"),
        Step::Get(b"C"),
        Step::Put(b"A", b"new"),
        Step::Get(b"A"),
        Step::Get(b"D"),
        Step::Get(b"missing"),
        Step::Put(b"E", b"e"),
        Step::Get(b"E"),
        Step::Get(b"B"),
    ]
}

fn values(r: &[Option<(Vec<u8>, bool)>]) -> Vec<Option<Vec<u8>>> {
    r.iter().map(|x| x.as_ref().map(|p| p.0.clone())).collect()
}

#[test]
fn policies_agree_on_values_first_misses_and_final_state() {
    let mut plain = PlainBounded::new(seeded(), 2);
    let mut lru = LruPolicy::new(seeded(), 2);
    let mut lfu = LfuPolicy::new(seeded(), 2);
    let mut hybrid = Hybrid::new(seeded(), 2);
    let t = trace();
    let rp = run(&mut plain, &t);
    let rl = run(&mut lru, &t);
    let rf = run(&mut lfu, &t);
    let rh = run(&mut hybrid, &t);
    assert_eq!(values(&rp), values(&rl));
    assert_eq!(values(&rp), values(&rf));
    assert_eq!(values(&rp), values(&rh));
    assert_eq!(values(&rp)[4], Some(b"new".to_vec()));
    assert_eq!(values(&rp)[6], None);
    // the first read of A, B, C and D misses under every policy
    for r in [&rp, &rl, &rf, &rh] {
        for i in [0usize, 1, 3, 5] {
            assert!(!r[i].as_ref().unwrap().1);
        }
    }
    plain.flush().unwrap();
    lru.flush().unwrap();
    lfu.flush().unwrap();
    hybrid.flush().unwrap();
    for k in [&b"A"[..], b"B", b"C", b"D", b"E", b"missing"] {
        let v = plain.store().get(k).unwrap();
        assert_eq!(v, lru.store().get(k).unwrap());
        assert_eq!(v, lfu.store().get(k).unwrap());
        assert_eq!(v, hybrid.store().get(k).unwrap());
    }
    assert_eq!(hybrid.store().get(b"E").unwrap(), Some(b"e".to_vec()));
}

#[test]
fn lru_and_hybrid_promote_on_read() {
    let mut lru = LruPolicy::new(seeded(), 2);
    assert_eq!(lru.get(b"A").unwrap(), Some((b"a".to_vec(), false)));
    assert_eq!(lru.get(b"A").unwrap(), Some((b"a".to_vec(), true)));
    let mut hybrid = Hybrid::new(seeded(), 2);
    assert_eq!(hybrid.get(b"A").unwrap(), Some((b"a".to_vec(), false)));
    assert_eq!(hybrid.get(b"A").unwrap(), Some((b"a".to_vec(), true)));
}

#[test]
fn lru_evicts_least_recently_used() {
    let mut lru = LruPolicy::new(seeded(), 2);
    lru.get(b"A").unwrap();
    lru.get(b"B").unwrap();
    lru.get(b"A").unwrap();
    lru.get(b"C").unwrap(); // evicts B
    assert_eq!(lru.get(b"A").unwrap(), Some((b"a".to_vec(), true)));
    assert_eq!(lru.get(b"B").unwrap(), Some((b"b".to_vec(), false)));
}

#[test]
fn hybrid_holds_writes_until_evicted_or_flushed() {
    let mut hybrid = Hybrid::new(InMemory::new(), 2);
    hybrid.insert(b"x", b"1").unwrap();
    hybrid.insert(b"y", b"2").unwrap();
    assert_eq!(hybrid.store().get(b"x").unwrap(), None);
    assert_eq!(hybrid.get(b"x").unwrap(), Some((b"1".to_vec(), true)));
    // a third key finds the cache full: the least recently used entry, y, is written back
    hybrid.insert(b"z", b"3").unwrap();
    assert_eq!(hybrid.store().get(b"y").unwrap(), Some(b"2".to_vec()));
    assert_eq!(hybrid.store().get(b"x").unwrap(), None);
    assert_eq!(hybrid.store().get(b"z").unwrap(), None);
    assert_eq!(hybrid.get(b"x").unwrap(), Some((b"1".to_vec(), true)));
    assert_eq!(hybrid.get(b"y").unwrap(), Some((b"2".to_vec(), false)));
    // updating a cached key needs no eviction
    hybrid.insert(b"y", b"22").unwrap();
    assert_eq!(hybrid.get(b"y").unwrap(), Some((b"22".to_vec(), true)));
    hybrid.flush().unwrap();
    assert_eq!(hybrid.store().get(b"x").unwrap(), Some(b"1".to_vec()));
    assert_eq!(hybrid.store().get(b"y").unwrap(), Some(b"22".to_vec()));
    assert_eq!(hybrid.store().get(b"z").unwrap(), Some(b"3".to_vec()));
}

#[test]
fn plain_bounded_empties_when_full() {
    let mut plain = PlainBounded::new(seeded(), 2);
    plain.get(b"A").unwrap();
    plain.get(b"B").unwrap();
    assert_eq!(plain.get(b"B").unwrap(), Some((b"b".to_vec(), true)));
    plain.get(b"C").unwrap(); // full: emptied, then C comes in
    assert_eq!(plain.get(b"A").unwrap(), Some((b"a".to_vec(), false)));
    assert_eq!(plain.get(b"C").unwrap(), Some((b"c".to_vec(), true)));
}

#[test]
fn writes_go_through_and_invalidate() {
    let mut plain = PlainBounded::new(seeded(), 2);
    plain.get(b"A").unwrap();
    plain.insert(b"A", b"z").unwrap();
    assert_eq!(plain.store().get(b"A").unwrap(), Some(b"z".to_vec()));
    assert_eq!(plain.get(b"A").unwrap(), Some((b"z".to_vec(), false)));
    let mut lfu = LfuPolicy::new(seeded(), 2);
    assert_eq!(lfu.get(b"A").unwrap(), Some((b"a".to_vec(), false)));
    assert_eq!(lfu.get(b"A").unwrap(), Some((b"a".to_vec(), true)));
    lfu.insert(b"A", b"q").unwrap();
    assert_eq!(lfu.store().get(b"A").unwrap(), Some(b"q".to_vec()));
    assert_eq!(lfu.get(b"A").unwrap(), Some((b"q".to_vec(), false)));
}

#[test]
fn absent_key_is_none_for_every_policy() {
    let mut bundle = CacheBundle::new(3, seeded(), seeded(), seeded(), seeded());
    assert_eq!(bundle.size, 3);
    assert_eq!(bundle.plain.get(b"nope").unwrap(), None);
    assert_eq!(bundle.lru.get(b"nope").unwrap(), None);
    assert_eq!(bundle.lfu.get(b"nope").unwrap(), None);
    assert_eq!(bundle.hybrid.get(b"nope").unwrap(), None);
}

#[test]
fn reducer_merge_folds_operands() {
    let merge = make_reducer_merge(MaxReducer);
    let first = encode_i64(3);
    let ops = vec![encode_i64(7), encode_i64(-2), encode_i64(5)];
    assert_eq!(merge.merge(Some(first.as_slice()), &ops), Some(encode_i64(7)));
    assert_eq!(merge.merge(None, &vec![encode_i64(-4)]), Some(encode_i64(-4)));
    assert_eq!(merge.merge(None, &vec![]), None);
    assert_eq!(merge.merge(Some(&b"bad"[..]), &ops), None);
    assert_eq!(merge.merge(Some(first.as_slice()), &vec![b"bad".to_vec()]), None);
}

#[test]
fn aggregator_merge_counts_inputs_and_merges_accumulators() {
    let merge = make_aggregator_merge(CountAggregator);
    let mut value = vec![VALUE_MARKER];
    value.extend(encode_i64(99));
    let mut acc = vec![ACCUMULATOR_MARKER];
    acc.extend(encode_i64(4));
    let out = merge.merge(None, &vec![value.clone(), value.clone(), acc.clone()]).unwrap();
    let mut expected = vec![ACCUMULATOR_MARKER];
    expected.extend(encode_i64(6));
    assert_eq!(out, expected);
    let out2 = merge.merge(Some(acc.as_slice()), &vec![value.clone()]).unwrap();
    let mut expected2 = vec![ACCUMULATOR_MARKER];
    expected2.extend(encode_i64(5));
    assert_eq!(out2, expected2);
    assert_eq!(merge.merge(Some(value.as_slice()), &vec![]), None);
    assert_eq!(merge.merge(None, &vec![vec![1, 2]]), None);
}
