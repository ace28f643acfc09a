use arcon_state::error::StateError;
use arcon_state::state::Handle;
use arcon_state::store::{Backend, InMemory};
use arcon_state::tiered::Tiered;

fn new_db(capacity: usize) -> Tiered<InMemory, InMemory> {
    Tiered::create(InMemory::new(), InMemory::new(), "testDB".to_string(), capacity).unwrap()
}

#[test]
fn simple_rocksdb_test() {
    let mut db = new_db(10_000);

    let key = "key";
    let value = "test";
    let column_family = "default";

    db.put(column_family, key.as_bytes(), value.as_bytes())
        .expect("put");

    {
        let v = db.get(column_family, key.as_bytes()).unwrap().unwrap();
        assert_eq!(value, String::from_utf8_lossy(&v));
    }

    db.remove(column_family, key.as_bytes()).expect("remove");
    let v = db.get(column_family, key.as_bytes()).unwrap();
    assert!(v.is_none());
}

#[test]
fn checkpoint_rocksdb_raw_test() {
    let mut db = new_db(10_000);

    let key: &[u8] = b"key";
    let initial_value: &[u8] = b"value";
    let new_value: &[u8] = b"new value";
    let column_family = "default";

    db.put(column_family, key, initial_value).expect("put failed");
    let checkpoint = db.checkpoint().expect("checkpoint failed");
    db.put(column_family, key, new_value)
        .expect("second put failed");

    let mut db_from_checkpoint =
        Tiered::restore(checkpoint, InMemory::new(), "testDB".to_string(), 10_000)
            .expect("Could not open checkpointed db");

    assert_eq!(
        new_value,
        db.get(column_family, key)
            .expect("Could not get from the live db")
            .unwrap()
            .as_slice()
    );
    assert_eq!(
        initial_value,
        db_from_checkpoint
            .get(column_family, key)
            .expect("Could not get from the checkpoint")
            .unwrap()
            .as_slice()
    );
}

#[test]
fn checkpoint_restore_state_test() {
    let mut live = new_db(10_000);
    let mut a_handle = Handle::value("a");
    live.register_handle(&mut a_handle);

    let checkpoint = {
        live.value_set(&a_handle, 420).unwrap();

        let checkpoint = live.checkpoint().unwrap();
        assert_eq!(live.value_get(&a_handle).unwrap().unwrap(), 420);
        live.value_set(&a_handle, 69).unwrap();
        assert_eq!(live.value_get(&a_handle).unwrap().unwrap(), 69);
        checkpoint
    };

    let mut restored =
        Tiered::restore(checkpoint, InMemory::new(), "testDB".to_string(), 10_000).unwrap();
    assert!(restored.was_restored());

    {
        let mut a_handle = Handle::value("a");
        restored.register_handle(&mut a_handle);
        assert_eq!(restored.value_get(&a_handle).unwrap().unwrap(), 420);

        restored.value_set(&a_handle, 1337).unwrap();
        assert_eq!(restored.value_get(&a_handle).unwrap().unwrap(), 1337);
    }
}

#[test]
fn zero_capacity_is_rejected() {
    let r = Tiered::create(InMemory::new(), InMemory::new(), "db".to_string(), 0);
    assert!(matches!(r, Err(StateError::InvalidArgument)));
}

#[test]
fn one_put_past_capacity_freezes_once() {
    let cap = 3;
    let mut db = new_db(cap);
    for i in 0..=cap {
        let k = vec![i as u8];
        db.put("default", &k, b"v").unwrap();
    }
    assert_eq!(db.frozen_len(), 1);
    assert_eq!(db.active_len(), 1);
}

#[test]
fn capacity_two_scenario_reads_frozen_snapshot() {
    let mut db = new_db(2);
    db.put("default", b"A", b"a").unwrap();
    db.put("default", b"B", b"b").unwrap();
    assert_eq!(db.frozen_len(), 0);
    assert_eq!(db.active_len(), 2);
    db.put("default", b"C", b"c").unwrap();
    assert_eq!(db.frozen_len(), 1);
    assert_eq!(db.active_len(), 1);

    let before = db.layer_hits();
    assert_eq!(db.get("default", b"A").unwrap().unwrap(), b"a".to_vec());
    let after = db.layer_hits();
    assert_eq!(after.frozen, before.frozen + 1);
    assert_eq!(after.active, before.active);

    assert_eq!(db.get("default", b"C").unwrap().unwrap(), b"c".to_vec());
    assert_eq!(db.layer_hits().active, before.active + 1);
}

#[test]
fn read_after_write_in_every_layer() {
    let mut db = new_db(2);
    db.put("default", b"k1", b"v1").unwrap();
    assert_eq!(db.get("default", b"k1").unwrap().unwrap(), b"v1".to_vec());
    db.put("default", b"k2", b"v2").unwrap();
    db.put("default", b"k3", b"v3").unwrap();
    // k1 now sits in a frozen cache
    assert_eq!(db.get("default", b"k1").unwrap().unwrap(), b"v1".to_vec());
    assert!(db.write_back().unwrap());
    assert!(!db.write_back().unwrap());
    // k1 now sits in the local and remote stores only
    assert_eq!(db.get("default", b"k1").unwrap().unwrap(), b"v1".to_vec());
    assert_eq!(db.layer_hits().local, 1);
    assert_eq!(db.local().get(b"k1").unwrap().unwrap(), b"v1".to_vec());
    assert_eq!(db.remote().get(b"k2").unwrap().unwrap(), b"v2".to_vec());
    // a newer write shadows the written-back one
    db.put("default", b"k1", b"v1b").unwrap();
    assert_eq!(db.get("default", b"k1").unwrap().unwrap(), b"v1b".to_vec());
}

#[test]
fn newest_frozen_snapshot_wins() {
    let mut db = new_db(1);
    db.put("default", b"k", b"old").unwrap();
    db.put("default", b"x", b"1").unwrap();
    db.put("default", b"k", b"new").unwrap();
    db.put("default", b"y", b"2").unwrap();
    assert_eq!(db.frozen_len(), 3);
    assert_eq!(db.get("default", b"k").unwrap().unwrap(), b"new".to_vec());
}

#[test]
fn flush_writes_everything_back() {
    let mut db = new_db(2);
    for i in 0..5u8 {
        db.put("default", &[i], &[i + 10]).unwrap();
    }
    db.flush().unwrap();
    assert_eq!(db.frozen_len(), 0);
    assert_eq!(db.active_len(), 0);
    for i in 0..5u8 {
        assert_eq!(db.local().get(&[i]).unwrap().unwrap(), vec![i + 10]);
        assert_eq!(db.remote().get(&[i]).unwrap().unwrap(), vec![i + 10]);
    }
}

#[test]
fn remote_answers_last() {
    let mut remote = InMemory::new();
    remote.put(b"r", b"remote").unwrap();
    let mut db = Tiered::create(InMemory::new(), remote, "db".to_string(), 4).unwrap();
    assert_eq!(db.get("default", b"r").unwrap().unwrap(), b"remote".to_vec());
    assert_eq!(db.layer_hits().remote, 1);
    assert!(db.get("default", b"missing").unwrap().is_none());
    // a read that finds nothing counts for no layer
    assert_eq!(db.layer_hits().remote, 1);
    assert_eq!(db.layer_hits().local, 0);
    assert!(db.contains("default", b"r").unwrap());
    assert!(!db.contains("default", b"missing").unwrap());
}

#[test]
fn remove_reaches_every_layer() {
    let mut db = new_db(1);
    db.put("default", b"k", b"a").unwrap();
    db.put("default", b"j", b"b").unwrap();
    db.write_back().unwrap();
    db.put("default", b"k", b"c").unwrap();
    db.put("default", b"i", b"d").unwrap();
    db.remove("default", b"k").unwrap();
    assert!(db.get("default", b"k").unwrap().is_none());
    assert_eq!(db.get("default", b"j").unwrap().unwrap(), b"b".to_vec());
}

#[test]
fn remove_prefix_deletes_exactly_the_prefix() {
    let mut db = new_db(2);
    db.put("default", b"ab1", b"1").unwrap();
    db.put("default", b"ab2", b"2").unwrap();
    db.put("default", b"ac", b"3").unwrap();
    db.put("default", b"a", b"4").unwrap();
    db.put("default", b"abz", b"5").unwrap();
    db.write_back().unwrap();
    db.remove_prefix("default", b"ab").unwrap();
    assert!(db.get("default", b"ab1").unwrap().is_none());
    assert!(db.get("default", b"ab2").unwrap().is_none());
    assert!(db.get("default", b"abz").unwrap().is_none());
    assert_eq!(db.get("default", b"ac").unwrap().unwrap(), b"3".to_vec());
    assert_eq!(db.get("default", b"a").unwrap().unwrap(), b"4".to_vec());
}

#[test]
fn remove_prefix_rejects_empty_prefix() {
    let mut db = new_db(2);
    db.put("default", b"k", b"v").unwrap();
    assert_eq!(db.remove_prefix("default", b""), Err(StateError::InvalidArgument));
    assert_eq!(db.get("default", b"k").unwrap().unwrap(), b"v".to_vec());
}

#[test]
fn registering_twice_keeps_data() {
    let mut db = new_db(4);
    let mut h = Handle::value("a").with_item_key(7).with_namespace(9);
    db.register_handle(&mut h);
    db.value_fast_set(&h, 5).unwrap();
    db.register_handle(&mut h);
    assert!(h.registered);
    assert_eq!(db.value_get(&h).unwrap(), Some(5));
}

#[test]
fn unregistered_handle_is_refused() {
    let mut db = new_db(4);
    let h = Handle::value("a");
    assert_eq!(db.value_get(&h), Err(StateError::HandleNotRegistered));
    assert_eq!(db.value_fast_set(&h, 1), Err(StateError::HandleNotRegistered));
    assert_eq!(db.value_set(&h, 1), Err(StateError::HandleNotRegistered));
    assert_eq!(db.value_clear(&h), Err(StateError::HandleNotRegistered));
}

#[test]
fn value_set_returns_previous_and_clear_removes() {
    let mut db = new_db(4);
    let mut h = Handle::value("v");
    db.register_handle(&mut h);
    assert_eq!(db.value_set(&h, -3).unwrap(), None);
    assert_eq!(db.value_set(&h, 8).unwrap(), Some(-3));
    db.value_clear(&h).unwrap();
    assert_eq!(db.value_get(&h).unwrap(), None);
}

#[test]
fn undecodable_value_is_a_deserialization_error() {
    let mut db = new_db(4);
    let mut h = Handle::value("v");
    db.register_handle(&mut h);
    let key = h.serialize_metakeys();
    db.put("default", &key, b"abc").unwrap();
    assert_eq!(db.value_get(&h), Err(StateError::Deserialization));
}

#[test]
fn handles_are_scoped_by_metakeys() {
    let mut db = new_db(4);
    let mut h1 = Handle::value("v").with_item_key(1);
    let mut h2 = Handle::value("v").with_item_key(2);
    db.register_handle(&mut h1);
    db.register_handle(&mut h2);
    db.value_fast_set(&h1, 10).unwrap();
    db.value_fast_set(&h2, 20).unwrap();
    assert_eq!(db.value_get(&h1).unwrap(), Some(10));
    assert_eq!(db.value_get(&h2).unwrap(), Some(20));
}

#[test]
fn name_is_kept() {
    let db = new_db(4);
    assert_eq!(db.name(), "testDB");
    assert!(!db.was_restored());
}
