use kvs::error::IoErrorKind;
use kvs::fs::File;
use kvs::xchg::{Command, StreamReader};
use kvs::KvsError;
use std::cmp::Ordering;

const WRITE_K1_V1: [u8; 33] = [
    199, 241, 33, 205, 0, 1, 0, 0, 0, 0, 0, 0, 0, 2, 0, 0, 0, 0, 0, 0, 0, 2, 0, 0, 0, 0, 0, 0, 0,
    107, 49, 118, 49,
];

const DELETE_K1: [u8; 23] = [
    55, 43, 58, 135, 1, 254, 255, 255, 255, 255, 255, 255, 255, 2, 0, 0, 0, 0, 0, 0, 0, 107, 49,
];

const EMPTY_WRITE: [u8; 29] = [
    10, 186, 96, 221, 0, 8, 7, 6, 5, 4, 3, 2, 1, 0, 0, 0, 0, 0, 0, 0, 0, 0, 0, 0, 0, 0, 0, 0, 0,
];

fn write(key: &str, value: &str, timestamp: i64) -> Command {
    Command::Write { key: key.into(), value: value.into(), timestamp }
}

#[test]
fn write_record_has_the_documented_bytes() {
    let mut file = File::new(0, Vec::new());
    let written = write("k1", "v1", 1).to_file(&mut file);
    assert_eq!(written, Ok(33));
    assert_eq!(file.bytes(), &WRITE_K1_V1[..]);
    assert_eq!(file.pos(), 33);
}

#[test]
fn delete_record_has_the_documented_bytes() {
    let mut file = File::new(0, Vec::new());
    let cmd = Command::Delete { key: "k1".into(), timestamp: -2 };
    assert_eq!(cmd.to_file(&mut file), Ok(23));
    assert_eq!(file.bytes(), &DELETE_K1[..]);
}

#[test]
fn empty_key_and_value_are_legal() {
    let mut file = File::new(0, Vec::new());
    assert_eq!(write("", "", 0x0102030405060708).to_file(&mut file), Ok(29));
    assert_eq!(file.bytes(), &EMPTY_WRITE[..]);

    let mut reader: StreamReader<Command> = StreamReader::new(&file);
    match reader.read_entry() {
        Ok(Some(Command::Write { key, value, timestamp })) => {
            assert_eq!(key, Vec::<u8>::new());
            assert_eq!(value, Vec::<u8>::new());
            assert_eq!(timestamp, 0x0102030405060708);
        }
        other => panic!("unexpected entry: {:?}", other),
    }
    assert_eq!(reader.cursor(), 29);
}

#[test]
fn checksum_is_crc32_of_the_body() {
    let mut file = File::new(0, Vec::new());
    write("some key", "some value", 77).to_file(&mut file).unwrap();
    let bytes = file.bytes();
    let stored = u32::from_le_bytes([bytes[0], bytes[1], bytes[2], bytes[3]]);
    assert_eq!(stored, crc32fast::hash(&bytes[4..]));
}

#[test]
fn records_read_back_in_order() {
    let mut file = File::new(3, Vec::new());
    write("a", "1", 10).to_file(&mut file).unwrap();
    Command::Delete { key: "a".into(), timestamp: 11 }.to_file(&mut file).unwrap();
    write("bb", "22", -5).to_file(&mut file).unwrap();

    let mut reader: StreamReader<Command> = StreamReader::new(&file);
    assert_eq!(reader.cursor(), 0);
    match reader.read_entry() {
        Ok(Some(Command::Write { key, value, timestamp })) => {
            assert_eq!((key, value, timestamp), (b"a".to_vec(), b"1".to_vec(), 10));
        }
        other => panic!("unexpected entry: {:?}", other),
    }
    assert_eq!(reader.cursor(), 31);
    match reader.read_entry() {
        Ok(Some(Command::Delete { key, timestamp })) => {
            assert_eq!((key, timestamp), (b"a".to_vec(), 11));
        }
        other => panic!("unexpected entry: {:?}", other),
    }
    assert_eq!(reader.cursor(), 53);
    match reader.read_entry() {
        Ok(Some(Command::Write { key, value, timestamp })) => {
            assert_eq!((key, value, timestamp), (b"bb".to_vec(), b"22".to_vec(), -5));
        }
        other => panic!("unexpected entry: {:?}", other),
    }
    assert_eq!(reader.cursor(), 86);
    assert!(matches!(reader.read_entry(), Ok(None)));
    assert_eq!(reader.cursor(), 86);
}

#[test]
fn documented_bytes_decode_to_their_record() {
    let file = File::new(0, DELETE_K1.to_vec());
    let mut reader: StreamReader<Command> = StreamReader::new(&file);
    match reader.read_entry() {
        Ok(Some(Command::Delete { key, timestamp })) => {
            assert_eq!(key, b"k1".to_vec());
            assert_eq!(timestamp, -2);
        }
        other => panic!("unexpected entry: {:?}", other),
    }
}

#[test]
fn every_single_bit_flip_is_found_corrupt() {
    for byte in 0..WRITE_K1_V1.len() {
        for bit in 0..8 {
            let mut bytes = WRITE_K1_V1.to_vec();
            bytes[byte] ^= 1 << bit;
            let file = File::new(0, bytes);
            let mut reader: StreamReader<Command> = StreamReader::new(&file);
            match reader.read_entry() {
                Err(KvsError::Corrupt) => {}
                other => panic!("flip of bit {} of byte {} gave {:?}", bit, byte, other),
            }
            assert_eq!(reader.cursor(), 0);
        }
    }
}

#[test]
fn unknown_kind_is_corrupt() {
    let mut bytes = WRITE_K1_V1.to_vec();
    bytes[4] = 2;
    let body = bytes[4..].to_vec();
    bytes[..4].copy_from_slice(&crc32fast::hash(&body).to_le_bytes());
    let file = File::new(0, bytes);
    let mut reader: StreamReader<Command> = StreamReader::new(&file);
    assert!(matches!(reader.read_entry(), Err(KvsError::Corrupt)));
}

#[test]
fn short_tail_is_the_end_and_cut_record_is_corrupt() {
    for cut in 0..WRITE_K1_V1.len() {
        let file = File::new(0, WRITE_K1_V1[..cut].to_vec());
        let mut reader: StreamReader<Command> = StreamReader::new(&file);
        let entry = reader.read_entry();
        if cut < 21 {
            assert!(matches!(entry, Ok(None)), "cut at {}", cut);
        } else {
            assert!(matches!(entry, Err(KvsError::Corrupt)), "cut at {}", cut);
        }
    }
}

#[test]
fn reader_beyond_the_end_finds_nothing() {
    let file = File::new(0, WRITE_K1_V1.to_vec());
    let mut reader: StreamReader<Command> = StreamReader::at(&file, 1000);
    assert!(matches!(reader.read_entry(), Ok(None)));
    assert_eq!(reader.cursor(), 1000);
}

#[test]
fn append_gathers_the_buffers() {
    let mut file = File::new(9, vec![1, 2]);
    assert_eq!(file.id(), 9);
    let written = file.append(&vec![vec![3], vec![], vec![4, 5, 6]]);
    assert_eq!(written, Ok(4));
    assert_eq!(file.bytes(), &[1, 2, 3, 4, 5, 6][..]);
    assert_eq!(file.pos(), 6);
    assert_eq!(file.append(&Vec::new()), Ok(0));
    assert_eq!(file.into_bytes(), vec![1, 2, 3, 4, 5, 6]);
}

#[test]
fn pread_exact_fills_or_reports_eof() {
    let file = File::new(0, vec![10, 11, 12, 13, 14]);
    assert_eq!(file.pread_exact(2, 1), Ok(vec![11, 12]));
    assert_eq!(file.pread_exact(5, 0), Ok(vec![10, 11, 12, 13, 14]));
    assert_eq!(file.pread_exact(0, 5), Ok(vec![]));
    assert_eq!(file.pread_exact(1, 5), Err(KvsError::Io(IoErrorKind::UnexpectedEof)));
    assert_eq!(file.pread_exact(6, 0), Err(KvsError::Io(IoErrorKind::UnexpectedEof)));
    assert_eq!(file.pread_exact(0, 6), Err(KvsError::Io(IoErrorKind::UnexpectedEof)));
    assert_eq!(
        file.pread_exact(usize::MAX, u64::MAX),
        Err(KvsError::Io(IoErrorKind::UnexpectedEof))
    );
}

#[test]
fn preadv_exact_scatters_or_reports_eof() {
    let file = File::new(0, vec![10, 11, 12, 13, 14]);
    assert_eq!(
        file.preadv_exact(&vec![1, 0, 3], 1),
        Ok(vec![vec![11], vec![], vec![12, 13, 14]])
    );
    assert_eq!(file.preadv_exact(&Vec::new(), 5), Ok(Vec::new()));
    assert_eq!(
        file.preadv_exact(&vec![2, 3], 1),
        Err(KvsError::Io(IoErrorKind::UnexpectedEof))
    );
    assert_eq!(
        file.preadv_exact(&vec![usize::MAX, usize::MAX], 0),
        Err(KvsError::Io(IoErrorKind::UnexpectedEof))
    );
    assert_eq!(
        file.preadv_exact(&Vec::new(), 6),
        Err(KvsError::Io(IoErrorKind::UnexpectedEof))
    );
}

#[test]
fn errors_have_their_words() {
    assert_eq!(KvsError::KeyNotFound.message(), "key not found");
    assert_eq!(KvsError::Io(IoErrorKind::UnexpectedEof).message(), "IO error");
    assert_eq!(KvsError::Corrupt.message(), "corrupt record");
    assert_eq!(KvsError::Parsing.message(), "bytes to utf8");
    assert_eq!(KvsError::SerdeError("x".to_string()).message(), "error de/serializing");
    assert_eq!(KvsError::FlumeError("x".to_string()).message(), "flume error");
    assert_eq!(KvsError::Whatever("anything".to_string()).message(), "anything");
}

#[test]
fn index_entry_is_written_as_four_integers() {
    let entry = kvs::xchg::Index { file_id: 1, pos: 0x0203, len: 4, timestamp: -1 };
    let mut file = File::new(0, vec![9]);
    assert_eq!(entry.to_writer(&mut file), Ok(32));
    let mut expected = vec![9u8];
    expected.extend_from_slice(&1u64.to_le_bytes());
    expected.extend_from_slice(&0x0203u64.to_le_bytes());
    expected.extend_from_slice(&4u64.to_le_bytes());
    expected.extend_from_slice(&[255; 8]);
    assert_eq!(file.bytes(), &expected[..]);
}

#[test]
fn entries_of_one_kind_are_alike_and_ordered_by_key() {
    let delete = |key: &str| Command::Delete { key: key.into(), timestamp: 0 };

    assert!(write("a", "1", 1) == write("b", "2", 2));
    assert!(delete("a") == delete("b"));
    assert!(write("a", "1", 1) != delete("a"));
    assert!(delete("a") != write("a", "1", 1));

    assert_eq!(write("a", "", 0).partial_cmp(&write("b", "", 0)), Some(Ordering::Less));
    assert_eq!(write("b", "", 0).partial_cmp(&write("a", "", 0)), Some(Ordering::Greater));
    assert_eq!(write("ab", "x", 0).partial_cmp(&write("ab", "y", 9)), Some(Ordering::Equal));
    assert_eq!(write("", "", 0).partial_cmp(&write("", "", 0)), Some(Ordering::Equal));
    assert_eq!(write("", "", 0).partial_cmp(&write("a", "", 0)), Some(Ordering::Less));
    assert_eq!(write("ab", "", 0).partial_cmp(&write("a", "", 0)), Some(Ordering::Greater));
    assert_eq!(write("a", "", 0).partial_cmp(&write("ab", "", 0)), Some(Ordering::Less));
    assert_eq!(delete("aZ").partial_cmp(&delete("aa")), Some(Ordering::Less));
    assert_eq!(delete("\u{ff}").partial_cmp(&delete("a")), Some(Ordering::Greater));
    assert_eq!(write("a", "", 0).partial_cmp(&delete("b")), None);
    assert_eq!(delete("a").partial_cmp(&write("b", "", 0)), None);

    assert!(write("a", "", 0) <= write("b", "", 0));
    assert!(!(write("b", "", 0) <= write("a", "", 0)));
    assert!(!(write("a", "", 0) <= delete("b")));
    assert_eq!(kvs::order::key_order(b"abc", b"abd"), Ordering::Less);
    assert_eq!(kvs::order::key_order(&[200], &[100, 1]), Ordering::Greater);
}
