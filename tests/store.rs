use kvs::{ErrorKind, KvStore, Segment, SegmentOp, COMPACTION_THRESHOLD};
use std::collections::BTreeMap;

type Disk = BTreeMap<u64, Vec<u8>>;

fn apply(disk: &mut Disk, ops: Vec<SegmentOp>) {
    for op in ops {
        match op {
            SegmentOp::Append { gen, bytes } => disk.entry(gen).or_default().extend(bytes),
            SegmentOp::Delete { gen } => {
                disk.remove(&gen);
            }
        }
    }
}

fn open(disk: &mut Disk) -> KvStore {
    let segments = disk
        .iter()
        .map(|(g, d)| Segment { gen: *g, data: d.clone() })
        .collect();
    let store = KvStore::open(segments).unwrap();
    disk.insert(store.active_generation(), Vec::new());
    store
}

fn same_as_disk(store: &KvStore, disk: &Disk) -> bool {
    let images: Disk = store
        .segment_images()
        .iter()
        .map(|s| (s.gen, s.data.clone()))
        .collect();
    images == *disk
}

fn set(store: &mut KvStore, disk: &mut Disk, k: &str, v: &str) {
    let ops = store.set(k.to_owned(), v.to_owned());
    apply(disk, ops);
}

fn get(store: &KvStore, k: &str) -> Option<String> {
    store.get(k.to_owned()).unwrap()
}

#[test]
fn set_then_get_two_keys() {
    let mut disk = Disk::new();
    let mut store = open(&mut disk);
    set(&mut store, &mut disk, "k1", "v1");
    set(&mut store, &mut disk, "k2", "v2");
    assert_eq!(get(&store, "k1"), Some("v1".to_owned()));
    assert_eq!(get(&store, "k2"), Some("v2".to_owned()));
    assert_eq!(get(&store, "k3"), None);
}

#[test]
fn overwrites_survive_reopen() {
    let mut disk = Disk::new();
    let mut store = open(&mut disk);
    set(&mut store, &mut disk, "k", "a");
    set(&mut store, &mut disk, "k", "b");
    set(&mut store, &mut disk, "k", "c");
    assert_eq!(get(&store, "k"), Some("c".to_owned()));
    drop(store);
    let store = open(&mut disk);
    assert_eq!(get(&store, "k"), Some("c".to_owned()));
}

#[test]
fn remove_twice() {
    let mut disk = Disk::new();
    let mut store = open(&mut disk);
    set(&mut store, &mut disk, "k", "v");
    let ops = store.remove("k".to_owned()).unwrap();
    apply(&mut disk, ops);
    assert!(matches!(store.remove("k".to_owned()), Err(ErrorKind::KeyNotFound)));
    assert_eq!(get(&store, "k"), None);
    let store = open(&mut disk);
    assert_eq!(get(&store, "k"), None);
}

#[test]
fn many_writes_compact_and_stay_readable() {
    let mut disk = Disk::new();
    let mut store = open(&mut disk);
    let first = store.active_generation();
    let filler = "x".repeat(160);
    for i in 0..10_000u32 {
        let k = format!("key{}", i % 1000);
        let v = format!("{}-{}", filler, i);
        set(&mut store, &mut disk, &k, &v);
    }
    assert!(store.active_generation() > first);
    assert!(same_as_disk(&store, &disk));
    let live: usize = (9_000..10_000u32)
        .map(|i| format!("{{\"Set\":{{\"key\":\"key{}\",\"val\":\"{}-{}\"}}}}", i % 1000, filler, i).len())
        .sum();
    let active = disk[&store.active_generation()].len();
    let total: usize = disk.values().map(|d| d.len()).sum();
    assert!(total <= live + active);
    for i in 9_000..10_000u32 {
        let k = format!("key{}", i % 1000);
        assert_eq!(get(&store, &k), Some(format!("{}-{}", filler, i)));
    }
    let store = open(&mut disk);
    for i in 9_000..10_000u32 {
        let k = format!("key{}", i % 1000);
        assert_eq!(get(&store, &k), Some(format!("{}-{}", filler, i)));
    }
}

#[test]
fn torn_tail_is_skipped() {
    let mut disk = Disk::new();
    let mut store = open(&mut disk);
    set(&mut store, &mut disk, "k", "v");
    let active = store.active_generation();
    drop(store);
    disk.get_mut(&active).unwrap().pop();
    let store = open(&mut disk);
    let got = store.get("k".to_owned()).unwrap();
    assert!(got.is_none() || got == Some("v".to_owned()));
    assert_eq!(got, None);
}

#[test]
fn torn_tail_keeps_earlier_records() {
    let mut disk = Disk::new();
    let mut store = open(&mut disk);
    set(&mut store, &mut disk, "a", "1");
    set(&mut store, &mut disk, "b", "2");
    let active = store.active_generation();
    drop(store);
    disk.get_mut(&active).unwrap().pop();
    let store = open(&mut disk);
    assert_eq!(get(&store, "a"), Some("1".to_owned()));
    assert_eq!(get(&store, "b"), None);
}

#[test]
fn reopen_reproduces_mapping() {
    let mut disk = Disk::new();
    let mut store = open(&mut disk);
    set(&mut store, &mut disk, "a", "1");
    set(&mut store, &mut disk, "b", "2");
    set(&mut store, &mut disk, "a", "3");
    apply(&mut disk, store.remove("b".to_owned()).unwrap());
    set(&mut store, &mut disk, "c", "4");
    assert!(same_as_disk(&store, &disk));
    let again = open(&mut disk);
    for k in ["a", "b", "c", "d"] {
        assert_eq!(get(&again, k), get(&store, k));
    }
    assert_eq!(get(&again, "a"), Some("3".to_owned()));
}

#[test]
fn compaction_moves_every_pointer_and_clears_waste() {
    let mut disk = Disk::new();
    let mut store = open(&mut disk);
    set(&mut store, &mut disk, "a", "1");
    set(&mut store, &mut disk, "a", "2");
    set(&mut store, &mut disk, "b", "3");
    assert!(store.stale_bytes() > 0);
    let a = store.active_generation();
    let ops = store.compact();
    apply(&mut disk, ops);
    assert_eq!(store.stale_bytes(), 0);
    assert_eq!(store.active_generation(), a + 2);
    let gens: Vec<u64> = disk.keys().copied().collect();
    assert_eq!(gens, vec![a + 1, a + 2]);
    assert!(same_as_disk(&store, &disk));
    assert_eq!(disk[&(a + 2)].len(), 0);
    let compacted = String::from_utf8(disk[&(a + 1)].clone()).unwrap();
    assert_eq!(compacted.len(), 2 * r#"{"Set":{"key":"a","val":"2"}}"#.len());
    assert_eq!(get(&store, "a"), Some("2".to_owned()));
    assert_eq!(get(&store, "b"), Some("3".to_owned()));
    let store = open(&mut disk);
    assert_eq!(get(&store, "a"), Some("2".to_owned()));
}

#[test]
fn remove_of_absent_key_writes_nothing() {
    let mut disk = Disk::new();
    let mut store = open(&mut disk);
    set(&mut store, &mut disk, "a", "1");
    let before: Vec<usize> = store.segment_images().iter().map(|s| s.data.len()).collect();
    let waste = store.stale_bytes();
    assert!(matches!(store.remove("zz".to_owned()), Err(ErrorKind::KeyNotFound)));
    let after: Vec<usize> = store.segment_images().iter().map(|s| s.data.len()).collect();
    assert_eq!(before, after);
    assert_eq!(store.stale_bytes(), waste);
}

#[test]
fn waste_counts_replaced_and_removed_records() {
    let mut disk = Disk::new();
    let mut store = open(&mut disk);
    set(&mut store, &mut disk, "k", "v");
    assert_eq!(store.stale_bytes(), 0);
    set(&mut store, &mut disk, "k", "w");
    let put = r#"{"Set":{"key":"k","val":"v"}}"#.len() as u64;
    assert_eq!(store.stale_bytes(), put);
    apply(&mut disk, store.remove("k".to_owned()).unwrap());
    let rm = r#"{"Remove":{"key":"k"}}"#.len() as u64;
    assert_eq!(store.stale_bytes(), 2 * put + rm);
}

#[test]
fn replay_counts_waste_like_the_live_store() {
    let mut disk = Disk::new();
    let mut store = open(&mut disk);
    set(&mut store, &mut disk, "k", "v");
    set(&mut store, &mut disk, "k", "w");
    apply(&mut disk, store.remove("k".to_owned()).unwrap());
    let again = open(&mut disk);
    assert_eq!(again.stale_bytes(), store.stale_bytes());
}

#[test]
fn set_that_reaches_threshold_compacts() {
    let mut disk = Disk::new();
    let mut store = open(&mut disk);
    let big = "y".repeat(COMPACTION_THRESHOLD as usize);
    set(&mut store, &mut disk, "k", &big);
    let a = store.active_generation();
    set(&mut store, &mut disk, "k", "small");
    assert_eq!(store.active_generation(), a + 2);
    assert_eq!(store.stale_bytes(), 0);
    assert!(same_as_disk(&store, &disk));
    assert_eq!(get(&store, "k"), Some("small".to_owned()));
}

#[test]
fn open_starts_above_newest_generation() {
    let store = KvStore::open(vec![
        Segment { gen: 3, data: Vec::new() },
        Segment { gen: 7, data: Vec::new() },
    ])
    .unwrap();
    assert_eq!(store.active_generation(), 8);
    let empty = KvStore::open(Vec::new()).unwrap();
    assert_eq!(empty.active_generation(), 1);
}

#[test]
fn open_refuses_unordered_generations() {
    let r = KvStore::open(vec![
        Segment { gen: 7, data: Vec::new() },
        Segment { gen: 3, data: Vec::new() },
    ]);
    assert!(matches!(r, Err(ErrorKind::Other(_))));
    let r = KvStore::open(vec![Segment { gen: u64::MAX, data: Vec::new() }]);
    assert!(matches!(r, Err(ErrorKind::Other(_))));
}

#[test]
fn unicode_and_quotes_round_trip() {
    let mut disk = Disk::new();
    let mut store = open(&mut disk);
    let k = "clé \"quoted\" \\ back";
    let v = "värde ✓ \n \"x\" \\\\";
    set(&mut store, &mut disk, k, v);
    assert_eq!(get(&store, k), Some(v.to_owned()));
    let store = open(&mut disk);
    assert_eq!(get(&store, k), Some(v.to_owned()));
}

#[test]
fn empty_key_and_value() {
    let mut disk = Disk::new();
    let mut store = open(&mut disk);
    set(&mut store, &mut disk, "", "");
    assert_eq!(get(&store, ""), Some(String::new()));
}

#[test]
fn new_store_is_empty() {
    let mut store = KvStore::new();
    assert_eq!(store.active_generation(), 1);
    assert_eq!(store.stale_bytes(), 0);
    assert_eq!(get(&store, "k"), None);
    let mut disk = Disk::new();
    disk.insert(1, Vec::new());
    set(&mut store, &mut disk, "k", "v");
    assert_eq!(get(&store, "k"), Some("v".to_owned()));
    assert!(same_as_disk(&store, &disk));
}

#[test]
fn compaction_writes_before_it_deletes() {
    let mut disk = Disk::new();
    let mut store = open(&mut disk);
    set(&mut store, &mut disk, "a", "1");
    set(&mut store, &mut disk, "a", "2");
    let a = store.active_generation();
    let ops = store.compact();
    assert!(ops.len() >= 3);
    assert!(matches!(&ops[0], SegmentOp::Append { gen, .. } if *gen == a + 1));
    assert!(matches!(&ops[1], SegmentOp::Append { gen, bytes } if *gen == a + 2 && bytes.is_empty()));
    for op in &ops[2..] {
        assert!(matches!(op, SegmentOp::Delete { gen } if *gen <= a));
    }
    let first = ops.iter().filter(|op| matches!(op, SegmentOp::Delete { gen } if *gen == 1)).count();
    assert_eq!(first, 1);
    apply(&mut disk, ops);
    assert!(!disk.contains_key(&1));
}
