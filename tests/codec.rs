use kvs::codec::{decode, encode, Command, DecodeError};

#[test]
fn test_basic_encode_decode() {
    let mut value = b"42".to_vec();
    for chunk in vec![vec![7u8; 3]; 2] {
        value.extend_from_slice(&chunk);
    }
    let msg = Command::Put {
        key: b"the answer".to_vec(),
        value,
    };
    let mut buf = vec![];
    encode(&msg, &mut buf).unwrap();
    let (msg1, used) = decode(&buf).unwrap();
    assert_eq!(msg, msg1);
    assert_eq!(used, buf.len());
}

#[test]
fn put_record_bytes() {
    let mut buf = vec![];
    encode(&Command::set(b"a".to_vec(), b"1".to_vec()), &mut buf).unwrap();
    assert_eq!(buf, vec![1, 0, 0, 0, 1, b'a', 0, 0, 0, 1, b'1']);
}

#[test]
fn remove_record_bytes() {
    let mut buf = vec![9];
    encode(&Command::remove(b"key".to_vec()), &mut buf).unwrap();
    assert_eq!(buf, vec![9, 2, 0, 0, 0, 3, b'k', b'e', b'y']);
}

#[test]
fn decode_takes_one_record_of_a_stream() {
    let mut buf = vec![];
    encode(&Command::remove(b"x".to_vec()), &mut buf).unwrap();
    encode(&Command::set(b"y".to_vec(), b"".to_vec()), &mut buf).unwrap();
    let (first, used) = decode(&buf).unwrap();
    assert_eq!(first, Command::Remove { key: b"x".to_vec() });
    assert_eq!(used, 6);
    let (second, used2) = decode(&buf[used..]).unwrap();
    assert_eq!(second, Command::Put { key: b"y".to_vec(), value: vec![] });
    assert_eq!(used + used2, buf.len());
}

#[test]
fn empty_input_is_truncated() {
    assert_eq!(decode(&[]), Err(DecodeError::Truncated));
}

#[test]
fn unknown_tag_is_an_error() {
    assert_eq!(decode(&[3, 0, 0, 0, 0]), Err(DecodeError::UnknownTag(3)));
}

#[test]
fn torn_record_is_truncated() {
    let mut buf = vec![];
    encode(&Command::set(b"key".to_vec(), b"value".to_vec()), &mut buf).unwrap();
    for cut in 0..buf.len() {
        assert_eq!(decode(&buf[..cut]), Err(DecodeError::Truncated));
    }
}
