use arcon_state::codec::{encode_key, encode_metakeys, has_prefix, lex_less, make_key, prefix_range};
use arcon_state::error::StateError;
use arcon_state::state::{decode_i64, encode_i64};
use arcon_state::store::{bytes_eq, Backend, InMemory};

#[test]
fn make_key_repeats_little_endian_bytes() {
    let k = make_key(0x0102, 10);
    assert_eq!(k, vec![0x02, 0x01, 0, 0, 0, 0, 0, 0, 0x02, 0x01]);
    assert_eq!(make_key(5, 3), vec![5, 0, 0]);
    assert!(make_key(5, 0).is_empty());
}

#[test]
fn metakeys_are_big_endian_and_fixed_width() {
    let m = encode_metakeys(1, 0x0203);
    assert_eq!(m, vec![0, 0, 0, 0, 0, 0, 0, 1, 0, 0, 0, 0, 0, 0, 2, 3]);
    let k = encode_key(1, 0x0203, b"xy");
    assert_eq!(k.len(), 18);
    assert_eq!(&k[..16], m.as_slice());
    assert_eq!(&k[16..], b"xy");
}

#[test]
fn metakey_order_follows_numbers() {
    assert!(lex_less(&encode_metakeys(1, 0), &encode_metakeys(256, 0)));
    assert!(!lex_less(&encode_metakeys(256, 0), &encode_metakeys(1, 0)));
}

#[test]
fn lex_order_of_bytes() {
    assert!(lex_less(b"a", b"b"));
    assert!(lex_less(b"a", b"ab"));
    assert!(!lex_less(b"ab", b"a"));
    assert!(!lex_less(b"ab", b"ab"));
    assert!(lex_less(b"", b"a"));
}

#[test]
fn prefix_range_increments_last_byte() {
    assert_eq!(prefix_range(b"ab").unwrap(), Some(b"ac".to_vec()));
    assert_eq!(prefix_range(&[1, 0xFF, 0xFF]).unwrap(), Some(vec![2]));
    assert_eq!(prefix_range(&[0xFF, 0xFF]).unwrap(), None);
    assert_eq!(prefix_range(b""), Err(StateError::InvalidArgument));
}

#[test]
fn prefix_test() {
    assert!(has_prefix(b"ab", b"abc"));
    assert!(has_prefix(b"", b"abc"));
    assert!(!has_prefix(b"abcd", b"abc"));
    assert!(!has_prefix(b"ac", b"abc"));
    assert!(bytes_eq(b"ab", b"ab"));
    assert!(!bytes_eq(b"ab", b"abc"));
}

#[test]
fn in_memory_remove_prefix_with_max_bytes() {
    let mut s = InMemory::new();
    s.put(&[1, 0xFF], b"a").unwrap();
    s.put(&[1, 0xFF, 7], b"b").unwrap();
    s.put(&[2], b"c").unwrap();
    s.put(&[0xFF, 0xFF, 0], b"d").unwrap();
    s.put(&[0xFF, 0xFE], b"e").unwrap();
    s.remove_prefix(&[1, 0xFF]).unwrap();
    assert!(!s.contains(&[1, 0xFF]).unwrap());
    assert!(!s.contains(&[1, 0xFF, 7]).unwrap());
    assert!(s.contains(&[2]).unwrap());
    s.remove_prefix(&[0xFF, 0xFF]).unwrap();
    assert!(!s.contains(&[0xFF, 0xFF, 0]).unwrap());
    assert!(s.contains(&[0xFF, 0xFE]).unwrap());
    assert_eq!(s.remove_prefix(b""), Err(StateError::InvalidArgument));
}

#[test]
fn in_memory_latest_write_wins() {
    let mut s = InMemory::new();
    s.put(b"k", b"1").unwrap();
    s.put(b"k", b"2").unwrap();
    assert_eq!(s.get(b"k").unwrap(), Some(b"2".to_vec()));
    s.remove(b"k").unwrap();
    assert_eq!(s.get(b"k").unwrap(), None);
    s.put_all(&[(b"a".to_vec(), b"x".to_vec()), (b"a".to_vec(), b"y".to_vec())])
        .unwrap();
    assert_eq!(s.get(b"a").unwrap(), Some(b"y".to_vec()));
    let copy = s.checkpoint().unwrap();
    s.put(b"a", b"z").unwrap();
    assert_eq!(copy.get(b"a").unwrap(), Some(b"y".to_vec()));
}

#[test]
fn i64_round_trip() {
    assert_eq!(encode_i64(1), vec![1, 0, 0, 0, 0, 0, 0, 0]);
    assert_eq!(encode_i64(-1), vec![0xFF; 8]);
    for x in [0i64, 420, -69, i64::MAX, i64::MIN] {
        assert_eq!(decode_i64(&encode_i64(x)).unwrap(), x);
    }
    assert_eq!(decode_i64(b"short"), Err(StateError::Deserialization));
}

#[test]
fn error_messages() {
    assert_eq!(StateError::InvalidArgument.message(), "invalid argument");
    assert_eq!(StateError::Storage.message(), "storage error");
}
