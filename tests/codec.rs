use mvcc::codec::{append_timestamp, decode_timestamp, is_same_user_key, truncate_timestamp, CodecError};

#[test]
fn round_trip() {
    for ts in [0u64, 1, 5, 1 << 40, u64::MAX] {
        let enc = append_timestamp(&b"key".to_vec(), ts);
        assert_eq!(enc.len(), 11);
        assert_eq!(decode_timestamp(&enc), Ok(ts));
        assert_eq!(truncate_timestamp(&enc).unwrap(), b"key".to_vec());
    }
}

#[test]
fn encoding_is_inverted_big_endian() {
    let enc = append_timestamp(&b"k".to_vec(), 1);
    assert_eq!(enc, vec![b'k', 0xff, 0xff, 0xff, 0xff, 0xff, 0xff, 0xff, 0xfe]);
    // A higher timestamp sorts first for one raw key.
    assert!(append_timestamp(&b"k".to_vec(), 9) < append_timestamp(&b"k".to_vec(), 8));
}

#[test]
fn short_keys_are_rejected() {
    assert_eq!(decode_timestamp(&vec![1, 2, 3]), Err(CodecError::KeyLength));
    assert_eq!(truncate_timestamp(&vec![]).unwrap_err(), CodecError::KeyLength);
}

#[test]
fn same_user_key() {
    let a = append_timestamp(&b"abc".to_vec(), 3);
    let b = append_timestamp(&b"abc".to_vec(), 9);
    let c = append_timestamp(&b"abd".to_vec(), 3);
    assert!(is_same_user_key(&a, &b));
    assert!(!is_same_user_key(&a, &c));
}
