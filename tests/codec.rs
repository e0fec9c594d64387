use kvs::codec::{decode_at, encode, Command};

#[test]
fn put_record_bytes() {
    let c = Command::Put { key: "k".to_owned(), val: "v".to_owned() };
    assert_eq!(encode(&c), br#"{"Set":{"key":"k","val":"v"}}"#.to_vec());
}

#[test]
fn remove_record_bytes() {
    let c = Command::Remove { key: "k".to_owned() };
    assert_eq!(encode(&c), br#"{"Remove":{"key":"k"}}"#.to_vec());
}

#[test]
fn quotes_and_backslashes_are_escaped() {
    let c = Command::Put { key: "a\"b".to_owned(), val: "c\\d".to_owned() };
    assert_eq!(encode(&c), br#"{"Set":{"key":"a\"b","val":"c\\d"}}"#.to_vec());
}

#[test]
fn decode_reports_each_end() {
    let mut bytes = encode(&Command::Put { key: "é".to_owned(), val: "\"".to_owned() });
    let first = bytes.len();
    bytes.extend(encode(&Command::Remove { key: "é".to_owned() }));
    match decode_at(&bytes, 0) {
        Some((Command::Put { key, val }, e)) => {
            assert_eq!(key, "é");
            assert_eq!(val, "\"");
            assert_eq!(e, first);
        }
        other => panic!("unexpected {:?}", other),
    }
    match decode_at(&bytes, first) {
        Some((Command::Remove { key }, e)) => {
            assert_eq!(key, "é");
            assert_eq!(e, bytes.len());
        }
        other => panic!("unexpected {:?}", other),
    }
    assert!(decode_at(&bytes, bytes.len()).is_none());
}

#[test]
fn torn_or_foreign_bytes_do_not_decode() {
    let bytes = encode(&Command::Put { key: "k".to_owned(), val: "v".to_owned() });
    assert!(decode_at(&bytes[..bytes.len() - 1], 0).is_none());
    assert!(decode_at(b"{\"Set\":{\"key\":\"k\\x\",\"val\":\"v\"}}", 0).is_none());
    assert!(decode_at(b"hello", 0).is_none());
    assert!(decode_at(b"{\"Set\":{\"key\":\"\xff\",\"val\":\"v\"}}", 0).is_none());
}
