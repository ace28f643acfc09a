use arcon_state::error::StateError;
use arcon_state::remote::Tikv;
use arcon_state::state::Handle;
use arcon_state::store::InMemory;

#[test]
fn simple_tikv_test() {
    let db = &mut Tikv::create(InMemory::new(), "testDB".to_string());

    let key = "key";
    let value = "test";
    let column_family = "default";

    db.put(column_family, key.as_bytes(), value.as_bytes())
        .expect("put");

    {
        let v = db.get(column_family, key.as_bytes()).unwrap().unwrap();
        assert_eq!(value, String::from_utf8_lossy(&v));
    }

    db.remove(column_family, key.as_bytes()).expect("remove");
    let v = db.get(column_family, key.as_bytes()).unwrap();
    assert!(v.is_none());
}

fn map_handle(db: &Tikv<InMemory>, item_key: u64) -> Handle {
    let mut h = Handle::map("map").with_item_key(item_key).with_namespace(0);
    db.register_handle(&mut h);
    h
}

#[test]
fn map_insert_get_remove() {
    let mut db = Tikv::create(InMemory::new(), "db".to_string());
    let h = map_handle(&db, 1);
    assert_eq!(db.map_get(&h, b"k").unwrap(), None);
    assert_eq!(db.map_insert(&h, b"k", 5).unwrap(), None);
    assert_eq!(db.map_insert(&h, b"k", 6).unwrap(), Some(5));
    assert_eq!(db.map_get(&h, b"k").unwrap(), Some(6));
    assert!(db.map_contains(&h, b"k").unwrap());
    assert_eq!(db.map_remove(&h, b"k").unwrap(), Some(6));
    assert!(!db.map_contains(&h, b"k").unwrap());
    db.map_fast_insert(&h, b"j", -1).unwrap();
    db.map_fast_remove(&h, b"j").unwrap();
    assert_eq!(db.map_get(&h, b"j").unwrap(), None);
}

#[test]
fn map_insert_all_later_pairs_win() {
    let mut db = Tikv::create(InMemory::new(), "db".to_string());
    let h = map_handle(&db, 1);
    let pairs = vec![(b"a".to_vec(), 1), (b"b".to_vec(), 2), (b"a".to_vec(), 3)];
    db.map_insert_all(&h, &pairs).unwrap();
    assert_eq!(db.map_get(&h, b"a").unwrap(), Some(3));
    assert_eq!(db.map_get(&h, b"b").unwrap(), Some(2));
}

#[test]
fn map_clear_spares_other_metakeys() {
    let mut db = Tikv::create(InMemory::new(), "db".to_string());
    let h1 = map_handle(&db, 1);
    let h2 = map_handle(&db, 2);
    db.map_fast_insert(&h1, b"x", 1).unwrap();
    db.map_fast_insert(&h1, b"y", 2).unwrap();
    db.map_fast_insert(&h2, b"x", 3).unwrap();
    db.map_clear(&h1).unwrap();
    assert_eq!(db.map_get(&h1, b"x").unwrap(), None);
    assert_eq!(db.map_get(&h1, b"y").unwrap(), None);
    assert_eq!(db.map_get(&h2, b"x").unwrap(), Some(3));
}

#[test]
fn map_ops_need_registration() {
    let mut db = Tikv::create(InMemory::new(), "db".to_string());
    let h = Handle::map("map");
    assert_eq!(db.map_get(&h, b"k"), Err(StateError::HandleNotRegistered));
    assert_eq!(db.map_fast_insert(&h, b"k", 1), Err(StateError::HandleNotRegistered));
    assert_eq!(db.map_clear(&h), Err(StateError::HandleNotRegistered));
    assert!(!db.was_restored());
    assert_eq!(db.name(), "db");
}

#[test]
fn map_value_of_wrong_width_fails_to_decode() {
    let mut db = Tikv::create(InMemory::new(), "db".to_string());
    let h = map_handle(&db, 1);
    let k = h.serialize_metakeys_and_key(b"k");
    db.put("default", &k, b"xyz").unwrap();
    assert_eq!(db.map_get(&h, b"k"), Err(StateError::Deserialization));
    assert_eq!(db.remove_prefix("default", b""), Err(StateError::InvalidArgument));
    assert!(db.contains("default", &k).unwrap());
    db.batch_put("default", &[(b"p".to_vec(), b"q".to_vec())]).unwrap();
    assert_eq!(db.get("default", b"p").unwrap(), Some(b"q".to_vec()));
}
