use kvs::codec::{decode, encode, CodecError, Record};
use kvs::{KvStore, KvsError};

fn fresh() -> KvStore {
    KvStore::open(Vec::new()).unwrap()
}

fn s(x: &str) -> String {
    x.to_string()
}

#[test]
fn encode_write_frame_bytes() {
    let b = encode(&Record::Write(s("a"), s("1"))).unwrap();
    assert_eq!(b, vec![1, 1, 0, 0, 1, 0, 0, 0, b'a', b'1']);
}

#[test]
fn encode_tombstone_frame_bytes() {
    let b = encode(&Record::Tombstone(s("key"))).unwrap();
    assert_eq!(b, vec![2, 3, 0, 0, 0, 0, 0, 0, b'k', b'e', b'y']);
}

#[test]
fn encode_lengths_little_endian() {
    let key = "k".repeat(0x0102);
    let value = "v".repeat(0x010203);
    let b = encode(&Record::Write(key, value)).unwrap();
    assert_eq!(&b[..8], &[1, 0x02, 0x01, 0x00, 0x03, 0x02, 0x01, 0x00]);
    assert_eq!(b.len(), 8 + 0x0102 + 0x010203);
}

#[test]
fn round_trip_write() {
    let b = encode(&Record::Write(s("héllo"), s("wörld"))).unwrap();
    match decode(&b, 0) {
        Ok((Record::Write(k, v), n)) => {
            assert_eq!(k, "héllo");
            assert_eq!(v, "wörld");
            assert_eq!(n, b.len());
        }
        other => panic!("unexpected {:?}", other),
    }
}

#[test]
fn round_trip_tombstone() {
    let b = encode(&Record::Tombstone(s("gone"))).unwrap();
    match decode(&b, 0) {
        Ok((Record::Tombstone(k), n)) => {
            assert_eq!(k, "gone");
            assert_eq!(n, b.len());
        }
        other => panic!("unexpected {:?}", other),
    }
}

#[test]
fn round_trip_empty_key_and_value() {
    let b = encode(&Record::Write(s(""), s(""))).unwrap();
    assert_eq!(b.len(), 8);
    assert!(matches!(decode(&b, 0), Ok((Record::Write(_, _), 8))));
}

#[test]
fn decode_at_offset() {
    let mut b = encode(&Record::Write(s("a"), s("1"))).unwrap();
    b.extend(encode(&Record::Write(s("b"), s("22"))).unwrap());
    match decode(&b, 10) {
        Ok((Record::Write(k, v), n)) => {
            assert_eq!(k, "b");
            assert_eq!(v, "22");
            assert_eq!(n, 21);
        }
        other => panic!("unexpected {:?}", other),
    }
}

#[test]
fn decode_short_header_is_truncated() {
    assert!(matches!(decode(&[1, 1, 0], 0), Err(CodecError::Truncated)));
    assert!(matches!(decode(&[], 0), Err(CodecError::Truncated)));
}

#[test]
fn decode_short_body_is_truncated() {
    let b = encode(&Record::Write(s("abc"), s("def"))).unwrap();
    assert!(matches!(decode(&b[..b.len() - 1], 0), Err(CodecError::Truncated)));
}

#[test]
fn decode_bad_tag() {
    let b = vec![3, 1, 0, 0, 1, 0, 0, 0, b'a', b'1'];
    assert!(matches!(decode(&b, 0), Err(CodecError::InvalidTag)));
}

#[test]
fn decode_tombstone_with_value_is_bad() {
    let b = vec![2, 1, 0, 0, 1, 0, 0, 0, b'a', b'1'];
    assert!(matches!(decode(&b, 0), Err(CodecError::InvalidTag)));
}

#[test]
fn decode_bad_utf8() {
    let b = vec![1, 1, 0, 0, 1, 0, 0, 0, 0xff, b'1'];
    assert!(matches!(decode(&b, 0), Err(CodecError::InvalidUtf8)));
    let c = vec![1, 1, 0, 0, 1, 0, 0, 0, b'a', 0xc3];
    assert!(matches!(decode(&c, 0), Err(CodecError::InvalidUtf8)));
}

#[test]
fn encode_key_too_large() {
    let key = "k".repeat(1 << 24);
    assert!(matches!(encode(&Record::Write(key.clone(), s("v"))), Err(CodecError::KeyTooLarge)));
    let mut st = fresh();
    assert_eq!(st.set(key, s("v")), Err(KvsError::Codec(CodecError::KeyTooLarge)));
    assert!(st.journal().is_empty());
}

#[test]
fn encode_largest_key() {
    let key = "k".repeat((1 << 24) - 1);
    let b = encode(&Record::Tombstone(key)).unwrap();
    assert_eq!(&b[..4], &[2, 0xff, 0xff, 0xff]);
}

#[test]
fn set_then_get() {
    let mut st = fresh();
    st.set(s("k"), s("v")).unwrap();
    assert_eq!(st.get(s("k")), Ok(Some(s("v"))));
    assert_eq!(st.get(s("other")), Ok(None));
}

#[test]
fn overwrite_keeps_both_frames() {
    let mut st = fresh();
    st.set(s("k"), s("v1")).unwrap();
    st.set(s("k"), s("v2")).unwrap();
    assert_eq!(st.get(s("k")), Ok(Some(s("v2"))));
    let j = st.journal();
    assert_eq!(j.len(), 22);
    assert!(matches!(decode(j, 0), Ok((Record::Write(_, _), 11))));
    match decode(j, 11) {
        Ok((Record::Write(k, v), 22)) => {
            assert_eq!(k, "k");
            assert_eq!(v, "v2");
        }
        other => panic!("unexpected {:?}", other),
    }
    assert_eq!(st.dead_count(), 11);
}

#[test]
fn delete_then_remove_again() {
    let mut st = fresh();
    st.set(s("k"), s("v")).unwrap();
    assert_eq!(st.remove(s("k")), Ok(()));
    assert_eq!(st.get(s("k")), Ok(None));
    assert_eq!(st.remove(s("k")), Err(KvsError::KeyNotFound));
}

#[test]
fn remove_absent_writes_nothing() {
    let mut st = fresh();
    assert_eq!(st.remove(s("k")), Err(KvsError::KeyNotFound));
    assert!(st.journal().is_empty());
}

#[test]
fn reopen_gives_same_contents() {
    let mut st = fresh();
    st.set(s("a"), s("1")).unwrap();
    st.set(s("b"), s("2")).unwrap();
    st.set(s("a"), s("3")).unwrap();
    st.remove(s("b")).unwrap();
    st.set(s("c"), s("4")).unwrap();
    let again = KvStore::open(st.journal().to_vec()).unwrap();
    for k in ["a", "b", "c", "d"] {
        assert_eq!(again.get(s(k)), st.get(s(k)));
    }
    assert_eq!(again.journal(), st.journal());
}

#[test]
fn cut_short_last_frame_heals() {
    let mut st = fresh();
    st.set(s("a"), s("1")).unwrap();
    st.set(s("b"), s("2")).unwrap();
    let before = st.journal().to_vec();
    st.set(s("c"), s("333")).unwrap();
    let mut bytes = st.journal().to_vec();
    bytes.truncate(bytes.len() - 3);
    let healed = KvStore::open(bytes).unwrap();
    assert_eq!(healed.journal(), &before[..]);
    assert_eq!(healed.get(s("a")), Ok(Some(s("1"))));
    assert_eq!(healed.get(s("b")), Ok(Some(s("2"))));
    assert_eq!(healed.get(s("c")), Ok(None));
}

#[test]
fn cut_inside_header_heals() {
    let mut st = fresh();
    st.set(s("a"), s("1")).unwrap();
    let mut bytes = st.journal().to_vec();
    bytes.extend_from_slice(&[1, 5, 0]);
    let healed = KvStore::open(bytes).unwrap();
    assert_eq!(healed.journal().len(), 10);
}

#[test]
fn corrupt_interior_frame_fails() {
    let mut st = fresh();
    st.set(s("a"), s("1")).unwrap();
    st.set(s("b"), s("2")).unwrap();
    let mut bytes = st.journal().to_vec();
    bytes[0] = 9;
    assert!(matches!(KvStore::open(bytes), Err(KvsError::Corruption)));
    let mut other = st.journal().to_vec();
    other[8] = 0xff;
    assert!(matches!(KvStore::open(other), Err(KvsError::Corruption)));
}

#[test]
fn compaction_after_many_overwrites() {
    let mut st = fresh();
    st.set(s("keep"), s("x")).unwrap();
    let big = "v".repeat(100_000);
    let start = st.generation_count();
    let mut n = 0;
    while st.generation_count() == start {
        st.set(s("hot"), big.clone()).unwrap();
        n += 1;
        assert!(n < 100);
    }
    assert!(n > 10);
    assert_eq!(st.dead_count(), 0);
    assert_eq!(st.get(s("keep")), Ok(Some(s("x"))));
    assert_eq!(st.get(s("hot")), Ok(Some(big.clone())));
    let live = 8 + 4 + 1 + 8 + 3 + 100_000;
    assert_eq!(st.journal().len(), live);
    let again = KvStore::open(st.journal().to_vec()).unwrap();
    assert_eq!(again.get(s("hot")), Ok(Some(big)));
}

#[test]
fn compaction_drops_tombstones() {
    let mut st = fresh();
    let big = "v".repeat(300_000);
    let start = st.generation_count();
    let mut i = 0;
    while st.generation_count() == start {
        let k = format!("k{}", i);
        st.set(k.clone(), big.clone()).unwrap();
        st.remove(k).unwrap();
        i += 1;
        assert!(i < 100);
    }
    assert!(st.journal().is_empty());
}

#[test]
fn concrete_scenario() {
    let mut st = fresh();
    st.set(s("a"), s("1")).unwrap();
    assert_eq!(st.get(s("a")), Ok(Some(s("1"))));
    st.set(s("a"), s("2")).unwrap();
    assert_eq!(st.get(s("a")), Ok(Some(s("2"))));
    st.remove(s("a")).unwrap();
    assert_eq!(st.get(s("a")), Ok(None));
    assert_eq!(st.remove(s("a")), Err(KvsError::KeyNotFound));
}

#[test]
fn record_key_of_each_kind() {
    assert_eq!(Record::Write(s("k1"), s("v")).key(), "k1");
    assert_eq!(Record::Tombstone(s("k2")).key(), "k2");
}
