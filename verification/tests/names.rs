use kvs::util::{
    segment_id, segment_name, thread_among, thread_of, thread_of_hash, worker_threads, ParseId,
};

#[test]
fn segment_names_are_decimal_ids_with_the_log_ending() {
    assert_eq!(segment_name(0), b"0.log".to_vec());
    assert_eq!(segment_name(7), b"7.log".to_vec());
    assert_eq!(segment_name(10), b"10.log".to_vec());
    assert_eq!(segment_name(1234567890), b"1234567890.log".to_vec());
    assert_eq!(segment_name(u64::MAX), b"18446744073709551615.log".to_vec());
}

#[test]
fn segment_ids_are_read_from_names() {
    assert_eq!(segment_id(b"0.log"), Some(0));
    assert_eq!(segment_id(b"42.log"), Some(42));
    assert_eq!(segment_id(b"18446744073709551615.log"), Some(u64::MAX));
}

#[test]
fn other_names_are_ignored() {
    assert_eq!(segment_id(b""), None);
    assert_eq!(segment_id(b".log"), None);
    assert_eq!(segment_id(b"1.lo"), None);
    assert_eq!(segment_id(b"1.logs"), None);
    assert_eq!(segment_id(b"1.LOG"), None);
    assert_eq!(segment_id(b"1log"), None);
    assert_eq!(segment_id(b"a.log"), None);
    assert_eq!(segment_id(b"1a.log"), None);
    assert_eq!(segment_id(b"-1.log"), None);
    assert_eq!(segment_id(b"+1.log"), None);
    assert_eq!(segment_id(b" 1.log"), None);
    assert_eq!(segment_id(b"01.log"), None);
    assert_eq!(segment_id(b"00.log"), None);
    assert_eq!(segment_id(b"18446744073709551616.log"), None);
    assert_eq!(segment_id(b"99999999999999999999.log"), None);
    assert_eq!(segment_id(b"184467440737095516150.log"), None);
    assert_eq!(segment_id(b"1.txt"), None);
}

#[test]
fn names_round_trip() {
    for id in [0u64, 1, 9, 10, 99, 100, 65535, 1 << 32, u64::MAX - 1, u64::MAX] {
        assert_eq!(segment_id(&segment_name(id)), Some(id));
        assert_eq!(segment_name(id).as_slice().parse_id(), id);
    }
}

#[test]
fn worker_threads_leave_one_core_free() {
    assert_eq!(worker_threads(0), 1);
    assert_eq!(worker_threads(1), 1);
    assert_eq!(worker_threads(2), 1);
    assert_eq!(worker_threads(3), 2);
    assert_eq!(worker_threads(64), 63);
}

#[test]
fn thread_of_hash_is_the_remainder() {
    assert_eq!(thread_of_hash(0, 1), 0);
    assert_eq!(thread_of_hash(17, 1), 0);
    assert_eq!(thread_of_hash(17, 5), 2);
    assert_eq!(thread_of_hash(u64::MAX, 7), u64::MAX % 7);
}

#[test]
fn thread_of_stays_below_the_number_of_workers() {
    let workers = worker_threads(num_cpus::get_physical()) as u64;
    for key in [&b""[..], b"a", b"key1", b"another key"] {
        assert!(thread_of(key) < workers);
        assert_eq!(thread_of(key), thread_of(key));
    }
}

#[test]
fn thread_among_stays_below_the_number_given() {
    for threads in [1usize, 2, 3, 64] {
        for key in [&b""[..], b"a", b"key1"] {
            assert!(thread_among(key, threads) < threads as u64);
        }
    }
    let workers = worker_threads(num_cpus::get_physical());
    assert_eq!(thread_among(b"key1", workers), thread_of(b"key1"));
}
