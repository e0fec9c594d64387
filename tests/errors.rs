use kvs::{ErrorKind, KvsEngine, SledKvsEngine};

#[test]
fn outside_errors_convert() {
    let io = std::io::Error::new(std::io::ErrorKind::Other, "disk");
    assert!(matches!(ErrorKind::from(io), ErrorKind::Io(_)));
    let json = serde_json::from_str::<String>("not json").unwrap_err();
    assert!(matches!(ErrorKind::from(json), ErrorKind::Serde(_)));
    let db = sled::Error::Unsupported("nope".to_owned());
    assert!(matches!(ErrorKind::from(db), ErrorKind::Sled(_)));
    let bad = vec![0xffu8];
    let utf8 = std::str::from_utf8(&bad).unwrap_err();
    assert!(matches!(ErrorKind::from(utf8), ErrorKind::Str(_)));
    let owned = String::from_utf8(bad).unwrap_err();
    assert!(matches!(ErrorKind::from(owned), ErrorKind::String(_)));
}

#[test]
fn sled_engine_set_get_remove() {
    let dir = "/tmp/kvs-sled-engine-test".to_owned();
    let engine = SledKvsEngine::open(&dir).unwrap();
    engine.set("k".to_owned(), "v".to_owned()).unwrap();
    assert_eq!(engine.get("k".to_owned()).unwrap(), Some("v".to_owned()));
    engine.set("k".to_owned(), "w".to_owned()).unwrap();
    assert_eq!(engine.get("k".to_owned()).unwrap(), Some("w".to_owned()));
    engine.remove("k".to_owned()).unwrap();
    assert_eq!(engine.get("k".to_owned()).unwrap(), None);
    assert!(matches!(engine.remove("k".to_owned()), Err(ErrorKind::KeyNotFound)));
}
