use kvs::error::IoErrorKind;
use kvs::fs::File;
use kvs::kv::{Store, StoreRep, StoreReq};
use kvs::plan::{disk_length, sync_plan, DiskOp, OnDisk};
use kvs::segments::{segments_of, sort_segments, DirEntry};
use kvs::xchg::{Command, StreamReader};
use kvs::{KvStore, KvsError};

fn segment(id: u64, commands: Vec<Command>) -> File {
    let mut file = File::new(id, Vec::new());
    for command in commands {
        command.to_file(&mut file).unwrap();
    }
    file
}

fn write(key: &str, value: &str) -> Command {
    Command::Write { key: key.into(), value: value.into(), timestamp: 1 }
}

fn delete(key: &str) -> Command {
    Command::Delete { key: key.into(), timestamp: 2 }
}

fn ids(segments: &Vec<File>) -> Vec<u64> {
    segments.iter().map(|s| s.id()).collect()
}

#[test]
fn new_engine_has_segment_zero() {
    let store = Store::new();
    assert_eq!(store.active_fid(), 0);
    assert_eq!(store.get("x".into()), Ok(None));
    let segments = store.into_segments();
    assert_eq!(ids(&segments), vec![0]);
    assert_eq!(segments[0].pos(), 0);
}

#[test]
fn open_adds_an_active_segment_after_the_greatest() {
    let store = Store::open(Vec::new()).unwrap();
    assert_eq!(store.active_fid(), 0);

    let store = Store::open(vec![segment(7, vec![]), segment(3, vec![])]).unwrap();
    assert_eq!(store.active_fid(), 8);
    assert_eq!(ids(&store.into_segments()), vec![3, 7, 8]);
}

#[test]
fn later_segments_override_earlier_ones_whatever_the_listing_order() {
    let listed = vec![
        segment(5, vec![write("a", "new"), delete("b")]),
        segment(2, vec![write("a", "old"), write("b", "gone"), write("c", "kept")]),
    ];
    let store = Store::open(listed).unwrap();
    assert_eq!(store.get("a".into()), Ok(Some("new".into())));
    assert_eq!(store.get("b".into()), Ok(None));
    assert_eq!(store.get("c".into()), Ok(Some("kept".into())));
}

#[test]
fn within_a_segment_the_last_record_of_a_key_stands() {
    let store = Store::open(vec![segment(
        0,
        vec![write("k", "1"), delete("k"), write("k", "3"), write("j", "x"), delete("j")],
    )])
    .unwrap();
    assert_eq!(store.get("k".into()), Ok(Some("3".into())));
    assert_eq!(store.get("j".into()), Ok(None));
}

#[test]
fn of_two_segments_with_one_id_the_first_listed_stands() {
    let listed = vec![segment(1, vec![write("k", "first")]), segment(1, vec![write("k", "second")])];
    let sorted = sort_segments(&listed);
    assert_eq!(ids(&sorted), vec![1]);
    let store = Store::open(listed).unwrap();
    assert_eq!(store.get("k".into()), Ok(Some("first".into())));
    assert_eq!(ids(&store.into_segments()), vec![1, 2]);
}

#[test]
fn sort_segments_orders_by_id() {
    let listed = vec![
        segment(9, vec![write("a", "9")]),
        segment(0, vec![]),
        segment(u64::MAX, vec![]),
        segment(4, vec![write("a", "4")]),
    ];
    let sorted = sort_segments(&listed);
    assert_eq!(ids(&sorted), vec![0, 4, 9, u64::MAX]);
    assert_eq!(sorted[1].bytes(), listed[3].bytes());
    assert_eq!(sorted[2].bytes(), listed[0].bytes());
}

#[test]
fn open_fails_when_no_id_is_left() {
    let opened = Store::open(vec![segment(u64::MAX, vec![write("k", "v")])]);
    assert!(matches!(opened, Err(KvsError::Io(IoErrorKind::StorageFull))));
}

#[test]
fn open_fails_on_a_corrupt_record() {
    let mut file = segment(0, vec![write("k1", "v1"), write("k2", "v2")]);
    let mut bytes = file.bytes().to_vec();
    let last = bytes.len() - 1;
    bytes[last] ^= 0x10;
    file = File::new(0, bytes);
    assert!(matches!(Store::open(vec![file]), Err(KvsError::Corrupt)));
    // a corrupt record in an early segment counts even with a full id range
    let bad = File::new(0, vec![0xff; 40]);
    let opened = Store::open(vec![segment(u64::MAX, vec![]), bad]);
    assert!(matches!(opened, Err(KvsError::Corrupt)));
}

#[test]
fn truncated_record_at_the_end_loses_nothing() {
    let whole = segment(0, vec![write("k1", "v1"), write("k2", "v2")]);
    let torn = segment(0, vec![write("k3", "v3")]);
    for cut in 0..torn.pos() {
        let mut bytes = whole.bytes().to_vec();
        bytes.extend_from_slice(&torn.bytes()[..cut]);
        let opened = Store::open(vec![File::new(0, bytes)]);
        if cut < 21 {
            let store = opened.unwrap();
            assert_eq!(store.get("k1".into()), Ok(Some("v1".into())));
            assert_eq!(store.get("k2".into()), Ok(Some("v2".into())));
            assert_eq!(store.get("k3".into()), Ok(None));
            assert_eq!(store.active_fid(), 1);
        } else {
            assert!(matches!(opened, Err(KvsError::Corrupt)), "cut at {}", cut);
        }
    }
}

#[test]
fn set_at_appends_one_record_to_the_active_segment() {
    let mut store = Store::open(vec![segment(4, vec![write("old", "1")])]).unwrap();
    assert_eq!(store.set_at("key".into(), "value".into(), 123), Ok(()));
    assert_eq!(store.get("key".into()), Ok(Some("value".into())));
    assert_eq!(store.get("old".into()), Ok(Some("1".into())));

    let segments = store.into_segments();
    assert_eq!(ids(&segments), vec![4, 5]);
    assert_eq!(segments[1].pos(), 29 + 3 + 5);
    let mut reader: StreamReader<Command> = StreamReader::new(&segments[1]);
    match reader.read_entry() {
        Ok(Some(Command::Write { key, value, timestamp })) => {
            assert_eq!((key, value, timestamp), (b"key".to_vec(), b"value".to_vec(), 123));
        }
        other => panic!("unexpected entry: {:?}", other),
    }
    assert!(matches!(reader.read_entry(), Ok(None)));
}

#[test]
fn remove_at_appends_a_deletion_and_fails_for_an_absent_key() {
    let mut store = Store::new();
    assert_eq!(store.remove_at("k".into(), 5), Err(KvsError::KeyNotFound));
    assert_eq!(store.set_at("k".into(), "v".into(), 6), Ok(()));
    assert_eq!(store.remove_at("k".into(), 7), Ok(()));
    assert_eq!(store.get("k".into()), Ok(None));
    assert_eq!(store.remove_at("k".into(), 8), Err(KvsError::KeyNotFound));

    let segments = store.into_segments();
    assert_eq!(segments[0].pos(), (29 + 1 + 1) + (21 + 1));
    let mut reader: StreamReader<Command> = StreamReader::at(&segments[0], 31);
    match reader.read_entry() {
        Ok(Some(Command::Delete { key, timestamp })) => {
            assert_eq!((key, timestamp), (b"k".to_vec(), 7));
        }
        other => panic!("unexpected entry: {:?}", other),
    }
}

#[test]
fn set_stamps_the_record_with_the_clock() {
    let before = chrono::Utc::now().timestamp_nanos_opt().unwrap();
    let mut store = Store::new();
    store.set("k".into(), "v".into()).unwrap();
    store.remove("k".into()).unwrap();
    let after = chrono::Utc::now().timestamp_nanos_opt().unwrap();

    let segments = store.into_segments();
    let mut reader: StreamReader<Command> = StreamReader::new(&segments[0]);
    match reader.read_entry() {
        Ok(Some(Command::Write { timestamp, .. })) => {
            assert!(before <= timestamp && timestamp <= after);
        }
        other => panic!("unexpected entry: {:?}", other),
    }
    match reader.read_entry() {
        Ok(Some(Command::Delete { timestamp, .. })) => {
            assert!(before <= timestamp && timestamp <= after);
        }
        other => panic!("unexpected entry: {:?}", other),
    }
}

#[test]
fn set_twice_holds_what_set_once_holds() {
    let mut once = Store::new();
    once.set_at("k".into(), "v".into(), 1).unwrap();
    let mut twice = Store::new();
    twice.set_at("k".into(), "v".into(), 1).unwrap();
    twice.set_at("k".into(), "v".into(), 2).unwrap();
    assert_eq!(once.get("k".into()), Ok(Some("v".into())));
    assert_eq!(twice.get("k".into()), Ok(Some("v".into())));
    assert_eq!(twice.get("other".into()), once.get("other".into()));
    let twice = Store::open(twice.into_segments()).unwrap();
    assert_eq!(twice.get("k".into()), Ok(Some("v".into())));
}

#[test]
fn compact_keeps_the_live_records_only() {
    let mut store = Store::open(vec![
        segment(0, vec![write("a", "stale"), write("b", "bee"), write("gone", "x")]),
        segment(1, vec![write("a", "live"), delete("gone")]),
    ])
    .unwrap();
    store.set_at("c".into(), "sea".into(), 9).unwrap();
    assert_eq!(store.active_fid(), 2);

    assert_eq!(store.compact(), Ok(()));
    assert_eq!(store.active_fid(), 3);
    assert_eq!(store.get("a".into()), Ok(Some("live".into())));
    assert_eq!(store.get("b".into()), Ok(Some("bee".into())));
    assert_eq!(store.get("c".into()), Ok(Some("sea".into())));
    assert_eq!(store.get("gone".into()), Ok(None));

    // writes after a compaction go to the merged segment
    store.set_at("a".into(), "newer".into(), 10).unwrap();
    store.remove_at("b".into(), 11).unwrap();

    let segments = store.into_segments();
    assert_eq!(ids(&segments), vec![3]);
    // three live records in ascending order of key, then the two new records
    let lens = (29 + 1 + 4) + (29 + 1 + 3) + (29 + 1 + 3) + (29 + 1 + 5) + (21 + 1);
    assert_eq!(segments[0].pos(), lens);
    let mut reader: StreamReader<Command> = StreamReader::new(&segments[0]);
    let mut keys = Vec::new();
    while let Ok(Some(command)) = reader.read_entry() {
        match command {
            Command::Write { key, timestamp, .. } => keys.push((key, timestamp)),
            Command::Delete { key, timestamp } => keys.push((key, timestamp)),
        }
    }
    assert_eq!(
        keys,
        vec![
            (b"a".to_vec(), 1),
            (b"b".to_vec(), 1),
            (b"c".to_vec(), 9),
            (b"a".to_vec(), 10),
            (b"b".to_vec(), 11),
        ]
    );

    let store = Store::open(segments).unwrap();
    assert_eq!(store.get("a".into()), Ok(Some("newer".into())));
    assert_eq!(store.get("b".into()), Ok(None));
    assert_eq!(store.get("c".into()), Ok(Some("sea".into())));
}

#[test]
fn compact_of_an_empty_engine_leaves_one_empty_segment() {
    let mut store = Store::new();
    assert_eq!(store.compact(), Ok(()));
    assert_eq!(store.active_fid(), 1);
    let segments = store.into_segments();
    assert_eq!(ids(&segments), vec![1]);
    assert_eq!(segments[0].pos(), 0);
}

#[test]
fn compact_does_not_grow_the_segments() {
    let mut store = Store::new();
    for round in 0..5 {
        for key in 0..20 {
            store.set_at(format!("key{}", key).into(), format!("{}", round).into(), round).unwrap();
        }
    }
    let before: usize = store.into_segments().iter().map(|s| s.pos()).sum();
    let mut store = Store::new();
    for round in 0..5 {
        for key in 0..20 {
            store.set_at(format!("key{}", key).into(), format!("{}", round).into(), round).unwrap();
        }
    }
    store.compact().unwrap();
    let after: usize = store.into_segments().iter().map(|s| s.pos()).sum();
    assert_eq!(before, 5 * after);
}

#[test]
fn serve_replies_in_kind() {
    let mut store = Store::new();
    let rep = store.serve_at(StoreReq::Put { key: "k".into(), value: "v".into() }, 1);
    assert!(matches!(rep, StoreRep::Put(Ok(()))));
    let rep = store.serve(StoreReq::Get { key: "k".into() });
    match rep {
        StoreRep::Get(found) => assert_eq!(found, Ok(Some("v".into()))),
        other => panic!("unexpected reply: {:?}", other),
    }
    let rep = store.serve_at(StoreReq::Del { key: "k".into() }, 2);
    assert!(matches!(rep, StoreRep::Del(Ok(()))));
    let rep = store.serve(StoreReq::Del { key: "k".into() });
    assert!(matches!(rep, StoreRep::Del(Err(KvsError::KeyNotFound))));
    let rep = store.serve_at(StoreReq::Get { key: "k".into() }, 3);
    assert!(matches!(rep, StoreRep::Get(Ok(None))));
    let rep = store.serve(StoreReq::Put { key: "k".into(), value: "w".into() });
    assert!(matches!(rep, StoreRep::Put(Ok(()))));
    assert_eq!(store.get("k".into()), Ok(Some("w".into())));
}

#[test]
fn load_replays_in_the_order_of_the_list() {
    let first = segment(8, vec![write("k", "from 8")]);
    let second = segment(1, vec![write("k", "from 1")]);
    let listed = vec![first, second];
    assert!(Store::load(&listed).is_ok());
    let bad = vec![File::new(0, vec![7; 30])];
    assert!(matches!(Store::load(&bad), Err(KvsError::Corrupt)));
}

#[test]
fn handle_survives_many_reopens() {
    let mut store = KvStore::open(Vec::new()).unwrap();
    for round in 0..10u8 {
        store.set(vec![round], vec![round, round]).unwrap();
        if round % 3 == 0 {
            store.compact().unwrap();
        }
        store = KvStore::open(store.cancel()).unwrap();
        for earlier in 0..=round {
            assert_eq!(store.get(vec![earlier]), Ok(Some(vec![earlier, earlier])));
        }
    }
}

#[test]
fn compact_fails_when_no_id_is_left() {
    let mut store = Store::open(vec![segment(u64::MAX - 1, vec![write("k", "v")])]).unwrap();
    assert_eq!(store.active_fid(), u64::MAX);
    assert_eq!(store.compact(), Err(KvsError::Io(IoErrorKind::StorageFull)));
    assert_eq!(store.active_fid(), u64::MAX);
    assert_eq!(store.get("k".into()), Ok(Some("v".into())));
    // nor can its segments be opened again: the greatest id is taken
    let segments = store.into_segments();
    assert_eq!(ids(&segments), vec![u64::MAX - 1, u64::MAX]);
    assert!(matches!(Store::open(segments), Err(KvsError::Io(IoErrorKind::StorageFull))));
}

#[test]
fn other_keys_keep_their_values() {
    let mut store = Store::new();
    store.set_at("k".into(), "v".into(), 1).unwrap();
    store.set_at("a".into(), "1".into(), 2).unwrap();
    store.set_at("a".into(), "2".into(), 3).unwrap();
    store.remove_at("a".into(), 4).unwrap();
    store.set_at("kk".into(), "vv".into(), 5).unwrap();
    assert_eq!(store.remove_at("absent".into(), 6), Err(KvsError::KeyNotFound));
    store.compact().unwrap();
    store.set_at("b".into(), "3".into(), 7).unwrap();
    assert_eq!(store.get("k".into()), Ok(Some("v".into())));
    let store = Store::open(store.into_segments()).unwrap();
    assert_eq!(store.get("k".into()), Ok(Some("v".into())));
    assert_eq!(store.get("a".into()), Ok(None));
}

#[test]
fn segments_are_reachable_by_id() {
    let mut store = Store::open(vec![segment(2, vec![write("a", "b")])]).unwrap();
    store.set_at("c".into(), "d".into(), 1).unwrap();
    assert_eq!(store.segment_ids(), vec![2, 3]);
    assert_eq!(store.segment(2).map(|s| s.pos()), Some(31));
    assert_eq!(store.segment(3).map(|s| s.pos()), Some(31));
    assert_eq!(store.segment(2).map(|s| s.id()), Some(2));
    assert!(store.segment(4).is_none());
}

#[test]
fn binary_keys_and_values_are_kept_as_they_are() {
    let key: Vec<u8> = vec![0, 255, 10, 13, 0];
    let value: Vec<u8> = (0..=255u8).collect();
    let mut store = Store::new();
    store.set_at(key.clone(), value.clone(), i64::MIN).unwrap();
    store.set_at(Vec::new(), Vec::new(), i64::MAX).unwrap();
    assert_eq!(store.get(key.clone()), Ok(Some(value.clone())));
    assert_eq!(store.get(Vec::new()), Ok(Some(Vec::new())));
    let store = Store::open(store.into_segments()).unwrap();
    assert_eq!(store.get(key), Ok(Some(value)));
    assert_eq!(store.get(Vec::new()), Ok(Some(Vec::new())));
    assert_eq!(store.get(vec![0]), Ok(None));
}

#[test]
fn merge_keeps_the_active_segment_and_moves_the_rest() {
    let mut store = Store::open(vec![
        segment(0, vec![write("a", "stale"), write("b", "bee"), write("gone", "x")]),
        segment(1, vec![write("a", "live"), delete("gone"), write("d", "dee")]),
    ])
    .unwrap();
    store.set_at("c".into(), "sea".into(), 9).unwrap();
    store.set_at("d".into(), "new".into(), 10).unwrap();
    assert_eq!(store.active_fid(), 2);
    let active_before = store.segment(2).unwrap().bytes().to_vec();

    assert_eq!(store.merge(), Ok(()));
    assert_eq!(store.active_fid(), 3);
    assert_eq!(store.segment_ids(), vec![2, 3]);
    assert_eq!(store.segment(2).unwrap().bytes(), &active_before[..]);
    // the live records of the sealed segments: a -> live, b -> bee
    assert_eq!(store.segment(3).unwrap().pos(), (29 + 1 + 4) + (29 + 1 + 3));
    assert_eq!(store.get("a".into()), Ok(Some("live".into())));
    assert_eq!(store.get("b".into()), Ok(Some("bee".into())));
    assert_eq!(store.get("c".into()), Ok(Some("sea".into())));
    assert_eq!(store.get("d".into()), Ok(Some("new".into())));
    assert_eq!(store.get("gone".into()), Ok(None));

    store.set_at("b".into(), "after".into(), 11).unwrap();
    store.remove_at("c".into(), 12).unwrap();
    let store = Store::open(store.into_segments()).unwrap();
    assert_eq!(store.active_fid(), 4);
    assert_eq!(store.get("a".into()), Ok(Some("live".into())));
    assert_eq!(store.get("b".into()), Ok(Some("after".into())));
    assert_eq!(store.get("c".into()), Ok(None));
    assert_eq!(store.get("d".into()), Ok(Some("new".into())));
    assert_eq!(store.get("gone".into()), Ok(None));
}

#[test]
fn merge_with_nothing_sealed_seals_the_active_segment() {
    let mut store = Store::new();
    store.set_at("k".into(), "v".into(), 1).unwrap();
    assert_eq!(store.merge(), Ok(()));
    assert_eq!(store.segment_ids(), vec![0, 1]);
    assert_eq!(store.segment(0).map(|s| s.pos()), Some(31));
    assert_eq!(store.segment(1).map(|s| s.pos()), Some(0));
    assert_eq!(store.get("k".into()), Ok(Some("v".into())));
    assert_eq!(store.merge(), Ok(()));
    assert_eq!(store.segment_ids(), vec![1, 2]);
    assert_eq!(store.segment(1).map(|s| s.pos()), Some(0));
    assert_eq!(store.segment(2).map(|s| s.pos()), Some(31));
    assert_eq!(store.get("k".into()), Ok(Some("v".into())));
}

#[test]
fn merge_fails_when_no_id_is_left() {
    let mut store = Store::open(vec![segment(u64::MAX - 1, vec![write("k", "v")])]).unwrap();
    assert_eq!(store.merge(), Err(KvsError::Io(IoErrorKind::StorageFull)));
    assert_eq!(store.segment_ids(), vec![u64::MAX - 1, u64::MAX]);
    assert_eq!(store.get("k".into()), Ok(Some("v".into())));
}

fn record_bytes(command: Command) -> Vec<u8> {
    let mut file = File::new(0, Vec::new());
    command.to_file(&mut file).unwrap();
    file.into_bytes()
}

fn stamped(key: &str, value: &str, timestamp: i64) -> Command {
    Command::Write { key: key.into(), value: value.into(), timestamp }
}

#[test]
fn compact_copies_the_records_byte_for_byte() {
    let mut store = Store::open(vec![
        segment(0, vec![stamped("b", "bee", 77), stamped("a", "old", 5)]),
        segment(1, vec![stamped("a", "new", -9)]),
    ])
    .unwrap();
    store.set_at("c".into(), "sea".into(), i64::MAX).unwrap();
    store.compact().unwrap();
    let segments = store.into_segments();
    let mut expected = record_bytes(stamped("a", "new", -9));
    expected.extend(record_bytes(stamped("b", "bee", 77)));
    expected.extend(record_bytes(stamped("c", "sea", i64::MAX)));
    assert_eq!(ids(&segments), vec![3]);
    assert_eq!(segments[0].bytes(), &expected[..]);
}

#[test]
fn merge_copies_the_records_byte_for_byte() {
    let mut store = Store::open(vec![
        segment(0, vec![stamped("b", "bee", 77), stamped("a", "old", 5)]),
        segment(1, vec![stamped("a", "new", -9)]),
    ])
    .unwrap();
    store.set_at("c".into(), "sea".into(), 3).unwrap();
    store.merge().unwrap();
    let mut expected = record_bytes(stamped("a", "new", -9));
    expected.extend(record_bytes(stamped("b", "bee", 77)));
    assert_eq!(store.segment_ids(), vec![2, 3]);
    assert_eq!(store.segment(3).unwrap().bytes(), &expected[..]);
    assert_eq!(store.segment(2).unwrap().bytes(), &record_bytes(stamped("c", "sea", 3))[..]);
}

#[test]
fn merge_segments_moves_the_chosen_and_leaves_the_rest() {
    let mut store = Store::open(vec![
        segment(0, vec![stamped("a", "a0", 1), stamped("b", "b0", 2), stamped("x", "x0", 3)]),
        segment(1, vec![stamped("a", "a1", 4), delete("x")]),
        segment(5, vec![stamped("c", "c5", 6), stamped("b", "b5", 7)]),
    ])
    .unwrap();
    store.set_at("d".into(), "d6".into(), 8).unwrap();
    let five = store.segment(5).unwrap().bytes().to_vec();
    let six = store.segment(6).unwrap().bytes().to_vec();

    // the oldest segment alone: nothing of it is live but nothing is lost
    assert_eq!(store.merge_segments(&vec![0]), Ok(()));
    assert_eq!(store.active_fid(), 7);
    assert_eq!(store.segment_ids(), vec![1, 5, 6, 7]);
    assert_eq!(store.segment(7).unwrap().pos(), 0);
    assert_eq!(store.segment(5).unwrap().bytes(), &five[..]);
    assert_eq!(store.segment(6).unwrap().bytes(), &six[..]);

    // the next one: its live record moves, byte for byte
    assert_eq!(store.merge_segments(&vec![1]), Ok(()));
    assert_eq!(store.active_fid(), 8);
    assert_eq!(store.segment_ids(), vec![5, 6, 7, 8]);
    assert_eq!(store.segment(8).unwrap().bytes(), &record_bytes(stamped("a", "a1", 4))[..]);
    assert_eq!(store.segment(5).unwrap().bytes(), &five[..]);

    for (key, value) in [("a", "a1"), ("b", "b5"), ("c", "c5"), ("d", "d6")] {
        assert_eq!(store.get(key.into()), Ok(Some(value.into())));
    }
    assert_eq!(store.get("x".into()), Ok(None));
    let store = Store::open(store.into_segments()).unwrap();
    for (key, value) in [("a", "a1"), ("b", "b5"), ("c", "c5"), ("d", "d6")] {
        assert_eq!(store.get(key.into()), Ok(Some(value.into())));
    }
    assert_eq!(store.get("x".into()), Ok(None));
}

#[test]
fn merge_segments_takes_several_at_once_in_any_order() {
    let mut store = Store::open(vec![
        segment(0, vec![stamped("a", "a0", 1)]),
        segment(1, vec![stamped("b", "b1", 2)]),
        segment(2, vec![stamped("c", "c2", 3)]),
    ])
    .unwrap();
    assert_eq!(store.merge_segments(&vec![1, 0, 1]), Ok(()));
    assert_eq!(store.segment_ids(), vec![2, 3, 4]);
    let mut expected = record_bytes(stamped("a", "a0", 1));
    expected.extend(record_bytes(stamped("b", "b1", 2)));
    assert_eq!(store.segment(4).unwrap().bytes(), &expected[..]);
    assert_eq!(store.merge_segments(&Vec::new()), Ok(()));
    assert_eq!(store.segment_ids(), vec![2, 3, 4, 5]);
    assert_eq!(store.get("c".into()), Ok(Some("c2".into())));
}

#[test]
fn merge_segments_refuses_what_cannot_be_merged() {
    let mut store = Store::open(vec![
        segment(0, vec![stamped("k", "v", 1)]),
        segment(1, vec![delete("k")]),
    ])
    .unwrap();
    let invalid = Err(KvsError::Io(IoErrorKind::InvalidInput));
    // an older segment would be left out: its write would come back
    assert_eq!(store.merge_segments(&vec![1]), invalid);
    // the active segment is not sealed
    assert_eq!(store.merge_segments(&vec![0, 1, 2]), invalid);
    // no such segment
    assert_eq!(store.merge_segments(&vec![0, 9]), invalid);
    assert_eq!(store.segment_ids(), vec![0, 1, 2]);
    assert_eq!(store.get("k".into()), Ok(None));
    assert_eq!(store.merge_segments(&vec![0, 1]), Ok(()));
    assert_eq!(store.segment_ids(), vec![2, 3]);
    assert_eq!(store.get("k".into()), Ok(None));
    let store = Store::open(store.into_segments()).unwrap();
    assert_eq!(store.get("k".into()), Ok(None));
}

#[test]
fn open_dir_ignores_files_that_are_not_segments() {
    let entry = |name: &str, data: Vec<u8>| DirEntry { name: name.into(), data };
    let entries = vec![
        entry("notes.txt", vec![1, 2, 3]),
        entry("1.log", record_bytes(stamped("k", "one", 1))),
        entry("abc.log", vec![0xff; 64]),
        entry("1.log.bak", record_bytes(stamped("k", "backup", 9))),
        entry("0.log", record_bytes(stamped("k", "zero", 0))),
        entry("07.log", record_bytes(stamped("k", "seven", 7))),
        entry("99999999999999999999.log", vec![0xff; 64]),
    ];
    let store = Store::open_dir(&entries).unwrap();
    assert_eq!(store.active_fid(), 2);
    assert_eq!(store.segment_ids(), vec![0, 1, 2]);
    assert_eq!(store.get("k".into()), Ok(Some("one".into())));
    assert_eq!(ids(&segments_of(&entries)), vec![1, 0]);

    let store = Store::open_dir(&Vec::new()).unwrap();
    assert_eq!(store.segment_ids(), vec![0]);
}

#[test]
fn sync_plan_writes_what_is_new_then_deletes_what_is_dropped() {
    let mut store = Store::open(vec![
        segment(0, vec![stamped("a", "1", 1)]),
        segment(3, vec![stamped("b", "2", 2)]),
    ])
    .unwrap();
    let mut on_disk = vec![OnDisk { id: 0, len: 31 }, OnDisk { id: 3, len: 31 }];
    assert_eq!(sync_plan(&store, &on_disk), vec![DiskOp::Append { id: 4, from: 0 }]);
    on_disk.push(OnDisk { id: 4, len: 0 });
    assert_eq!(sync_plan(&store, &on_disk), vec![]);

    store.set_at("c".into(), "3".into(), 3).unwrap();
    assert_eq!(sync_plan(&store, &on_disk), vec![DiskOp::Append { id: 4, from: 0 }]);
    on_disk[2] = OnDisk { id: 4, len: 31 };
    store.set_at("d".into(), "4".into(), 4).unwrap();
    assert_eq!(sync_plan(&store, &on_disk), vec![DiskOp::Append { id: 4, from: 31 }]);
    assert_eq!(disk_length(&on_disk, 4), Some(31));
    assert_eq!(disk_length(&on_disk, 5), None);
    // a shorter copy of an old segment is completed, a longer one left alone
    on_disk[0] = OnDisk { id: 0, len: 10 };
    on_disk[1] = OnDisk { id: 3, len: 40 };
    assert_eq!(
        sync_plan(&store, &on_disk),
        vec![DiskOp::Append { id: 0, from: 10 }, DiskOp::Append { id: 4, from: 31 }]
    );

    store.compact().unwrap();
    assert_eq!(
        sync_plan(&store, &on_disk),
        vec![
            DiskOp::Append { id: 5, from: 0 },
            DiskOp::Remove { id: 0 },
            DiskOp::Remove { id: 3 },
            DiskOp::Remove { id: 4 },
        ]
    );
}
