use kvs::generation::{generation_of_name, log_generations};
use kvs::{get_reply, remove_reply, removal_outcome, value_from_bytes, ErrorKind};

#[test]
fn segment_names() {
    assert_eq!(generation_of_name("12.log"), Some(12));
    assert_eq!(generation_of_name("0.log"), Some(0));
    assert_eq!(generation_of_name("18446744073709551615.log"), Some(u64::MAX));
    assert_eq!(generation_of_name("18446744073709551616.log"), None);
    assert_eq!(generation_of_name(".log"), None);
    assert_eq!(generation_of_name("x1.log"), None);
    assert_eq!(generation_of_name("1.txt"), None);
    assert_eq!(generation_of_name("engine.log"), None);
    assert_eq!(generation_of_name("1.log.log"), None);
}

#[test]
fn generations_sorted_once_each() {
    let names: Vec<String> = ["10.log", "2.log", "engine.log", "02.log", "sled-db", "1.log"]
        .iter()
        .map(|s| s.to_string())
        .collect();
    assert_eq!(log_generations(&names), vec![1, 2, 10]);
    assert_eq!(log_generations(&Vec::new()), Vec::<u64>::new());
}

#[test]
fn replies() {
    assert_eq!(get_reply(Some("v".to_owned())), "v");
    assert_eq!(get_reply(None), "Key not found");
    assert_eq!(remove_reply(Ok(())).unwrap(), "");
    assert_eq!(remove_reply(Err(ErrorKind::KeyNotFound)).unwrap(), "Key not found");
    assert!(matches!(remove_reply(Err(ErrorKind::ReadFail)), Err(ErrorKind::ReadFail)));
}

#[test]
fn stored_bytes_to_values() {
    assert_eq!(value_from_bytes(None).unwrap(), None);
    assert_eq!(value_from_bytes(Some("vä".as_bytes().to_vec())).unwrap(), Some("vä".to_owned()));
    assert!(matches!(value_from_bytes(Some(vec![0xff, 0xfe])), Err(ErrorKind::String(_))));
    assert!(removal_outcome(Some(vec![1])).is_ok());
    assert!(matches!(removal_outcome(None), Err(ErrorKind::KeyNotFound)));
}
