//! The record format, and reading and writing records on a segment.
//!
//! A record is a checksum followed by a body. The body of a write is
//! `kind(1) ts(8) ksize(8) vsize(8) key value`, that of a deletion
//! `kind(1) ts(8) ksize(8) key`; every integer is little-endian and the
//! checksum covers the whole body.

use crate::crc::{checksum, crc32};
use crate::error::KvsError;
use crate::fs::{offset_of, parts_of, tail_from, File};
use crate::wire::{
    get_i64_le, get_u32_le, get_u64_le, lemma_le_round_trip, spec_i64_from_le_bytes,
    spec_i64_to_le_bytes,
};
use core::marker::PhantomData;
use vstd::bytes::{
    spec_u32_from_le_bytes, spec_u32_to_le_bytes, spec_u64_from_le_bytes, spec_u64_to_le_bytes,
    u32_to_le_bytes, u64_to_le_bytes,
};
use vstd::prelude::*;

verus! {

/// The bytes before the key of a deletion, and before `vsize` of a write.
pub const HEADER_LEN: usize = 21;

/// The bytes before the key of a write.
pub const WRITE_HEADER_LEN: usize = 29;

/// The kind byte of a write.
pub const KIND_WRITE: u8 = 0;

/// The kind byte of a deletion.
pub const KIND_DELETE: u8 = 1;

/// A log entry.
#[derive(Debug)]
pub enum Command {
    Write { key: Vec<u8>, value: Vec<u8>, timestamp: i64 },
    Delete { key: Vec<u8>, timestamp: i64 },
}

/// What a log entry says, as mathematics.
pub enum Record {
    Write { key: Seq<u8>, value: Seq<u8>, timestamp: i64 },
    Delete { key: Seq<u8>, timestamp: i64 },
}

/// Where the live record of a key lies.
#[derive(Clone, Copy, Debug, PartialEq, Eq, Structural)]
pub struct Index {
    pub file_id: u64,
    pub pos: u64,
    pub len: u64,
    pub timestamp: i64,
}

/// What stands at the start of a byte string.
pub enum Decoded {
    /// Fewer bytes than a header: the clean end of a segment.
    Eof,
    /// A header whose record is cut short, has an unknown kind or fails its
    /// checksum.
    Corrupt,
    /// A record, and the number of bytes that it takes.
    Entry { record: Record, len: nat },
}

impl Record {
    pub open spec fn key(self) -> Seq<u8> {
        match self {
            Record::Write { key, .. } => key,
            Record::Delete { key, .. } => key,
        }
    }

    pub open spec fn timestamp(self) -> i64 {
        match self {
            Record::Write { timestamp, .. } => timestamp,
            Record::Delete { timestamp, .. } => timestamp,
        }
    }

    /// Both lengths fit the 64-bit length fields.
    pub open spec fn encodable(self) -> bool {
        match self {
            Record::Write { key, value, .. } => key.len() <= u64::MAX && value.len() <= u64::MAX,
            Record::Delete { key, .. } => key.len() <= u64::MAX,
        }
    }

    /// Every byte of the record after its checksum.
    pub open spec fn body(self) -> Seq<u8> {
        match self {
            Record::Write { key, value, timestamp } => seq![KIND_WRITE] + spec_i64_to_le_bytes(
                timestamp,
            ) + spec_u64_to_le_bytes(key.len() as u64) + spec_u64_to_le_bytes(value.len() as u64)
                + key + value,
            Record::Delete { key, timestamp } => seq![KIND_DELETE] + spec_i64_to_le_bytes(
                timestamp,
            ) + spec_u64_to_le_bytes(key.len() as u64) + key,
        }
    }

    /// The record as it lies in a segment.
    pub open spec fn encode(self) -> Seq<u8> {
        spec_u32_to_le_bytes(crc32(self.body())) + self.body()
    }

    /// The number of bytes that the record takes in a segment.
    pub open spec fn encoded_len(self) -> nat {
        match self {
            Record::Write { key, value, .. } => WRITE_HEADER_LEN as nat + key.len() + value.len(),
            Record::Delete { key, .. } => HEADER_LEN as nat + key.len(),
        }
    }
}

/// Reads what stands at the start of `s`.
pub open spec fn decode(s: Seq<u8>) -> Decoded {
    if s.len() < HEADER_LEN {
        Decoded::Eof
    } else {
        let stored = spec_u32_from_le_bytes(s.subrange(0, 4));
        let kind = s[4];
        let timestamp = spec_i64_from_le_bytes(s.subrange(5, 13));
        let ksize = spec_u64_from_le_bytes(s.subrange(13, 21)) as int;
        if kind == KIND_WRITE {
            if s.len() < WRITE_HEADER_LEN {
                Decoded::Corrupt
            } else {
                let vsize = spec_u64_from_le_bytes(s.subrange(21, 29)) as int;
                let end = WRITE_HEADER_LEN + ksize + vsize;
                if s.len() < end {
                    Decoded::Corrupt
                } else if crc32(s.subrange(4, end)) != stored {
                    Decoded::Corrupt
                } else {
                    Decoded::Entry {
                        record: Record::Write {
                            key: s.subrange(29, 29 + ksize),
                            value: s.subrange(29 + ksize, end),
                            timestamp,
                        },
                        len: end as nat,
                    }
                }
            }
        } else if kind == KIND_DELETE {
            let end = HEADER_LEN + ksize;
            if s.len() < end {
                Decoded::Corrupt
            } else if crc32(s.subrange(4, end)) != stored {
                Decoded::Corrupt
            } else {
                Decoded::Entry {
                    record: Record::Delete { key: s.subrange(21, end), timestamp },
                    len: end as nat,
                }
            }
        } else {
            Decoded::Corrupt
        }
    }
}

/// An encoded record has the length that its sizes give.
pub proof fn lemma_encode_len(r: Record)
    ensures
        r.body().len() + 4 == r.encoded_len(),
        r.encode().len() == r.encoded_len(),
        r.encoded_len() >= HEADER_LEN,
{
    lemma_le_round_trip();
}

/// Decoding an encoded record gives the record back, whatever follows it.
pub proof fn lemma_decode_encode(r: Record, rest: Seq<u8>)
    requires
        r.encodable(),
    ensures
        decode(r.encode() + rest) == (Decoded::Entry { record: r, len: r.encoded_len() }),
{
    lemma_le_round_trip();
    lemma_encode_len(r);
    let s = r.encode() + rest;
    let crc = spec_u32_to_le_bytes(crc32(r.body()));
    let ts = spec_i64_to_le_bytes(r.timestamp());
    let ks = spec_u64_to_le_bytes(r.key().len() as u64);
    assert(s.subrange(0, 4) =~= crc);
    assert(s.subrange(5, 13) =~= ts);
    assert(s.subrange(13, 21) =~= ks);
    match r {
        Record::Write { key, value, timestamp } => {
            let vs = spec_u64_to_le_bytes(value.len() as u64);
            let end: int = 29 + key.len() as int + value.len() as int;
            assert(s[4] == KIND_WRITE);
            assert(s.subrange(21, 29) =~= vs);
            assert(s.subrange(4, end) =~= r.body());
            assert(s.subrange(29, 29 + key.len() as int) =~= key);
            assert(s.subrange(29 + key.len() as int, end) =~= value);
        },
        Record::Delete { key, timestamp } => {
            let end: int = 21 + key.len() as int;
            assert(s[4] == KIND_DELETE);
            assert(s.subrange(4, end) =~= r.body());
            assert(s.subrange(21, end) =~= key);
        },
    }
}

/// A record that decodes from `s` decodes from every extension of `s`.
pub proof fn lemma_decode_prefix(s: Seq<u8>, t: Seq<u8>)
    requires
        decode(s) is Entry,
    ensures
        decode(s + t) == decode(s),
{
    let u = s + t;
    let n = decode(s)->len as int;
    assert(u.subrange(0, 4) =~= s.subrange(0, 4));
    assert(u.subrange(5, 13) =~= s.subrange(5, 13));
    assert(u.subrange(13, 21) =~= s.subrange(13, 21));
    assert(u[4] == s[4]);
    let ksize = spec_u64_from_le_bytes(s.subrange(13, 21)) as int;
    if s[4] == KIND_WRITE {
        assert(u.subrange(21, 29) =~= s.subrange(21, 29));
        assert(u.subrange(4, n) =~= s.subrange(4, n));
        assert(u.subrange(29, 29 + ksize) =~= s.subrange(29, 29 + ksize));
        assert(u.subrange(29 + ksize, n) =~= s.subrange(29 + ksize, n));
    } else {
        assert(u.subrange(4, n) =~= s.subrange(4, n));
        assert(u.subrange(21, n) =~= s.subrange(21, n));
    }
}

/// The bytes from which a record decodes are its encoding.
pub proof fn lemma_decode_is_encoding(s: Seq<u8>)
    requires
        decode(s) is Entry,
    ensures
        decode(s)->len <= s.len(),
        decode(s)->len == decode(s)->record.encoded_len(),
        decode(s)->record.encodable(),
        s.subrange(0, decode(s)->len as int) == decode(s)->record.encode(),
{
    lemma_le_round_trip();
    let n = decode(s)->len as int;
    let r = decode(s)->record;
    let ksize = spec_u64_from_le_bytes(s.subrange(13, 21)) as int;
    assert(spec_u32_to_le_bytes(spec_u32_from_le_bytes(s.subrange(0, 4))) == s.subrange(0, 4));
    assert(spec_i64_to_le_bytes(spec_i64_from_le_bytes(s.subrange(5, 13))) == s.subrange(5, 13));
    assert(spec_u64_to_le_bytes(spec_u64_from_le_bytes(s.subrange(13, 21))) == s.subrange(13, 21));
    if s[4] == KIND_WRITE {
        let vsize = spec_u64_from_le_bytes(s.subrange(21, 29)) as int;
        assert(spec_u64_to_le_bytes(spec_u64_from_le_bytes(s.subrange(21, 29))) == s.subrange(
            21,
            29,
        ));
        assert(r.key().len() == ksize);
        assert(r.body() =~= s.subrange(4, n));
        assert(s.subrange(0, n) =~= s.subrange(0, 4) + s.subrange(4, n));
    } else {
        assert(r.key().len() == ksize);
        assert(r.body() =~= s.subrange(4, n));
        assert(s.subrange(0, n) =~= s.subrange(0, 4) + s.subrange(4, n));
    }
}

impl View for Command {
    type V = Record;

    open spec fn view(&self) -> Record {
        match self {
            Command::Write { key, value, timestamp } => Record::Write {
                key: key@,
                value: value@,
                timestamp: *timestamp,
            },
            Command::Delete { key, timestamp } => Record::Delete {
                key: key@,
                timestamp: *timestamp,
            },
        }
    }
}

/// Appends the bytes of `src` to `dst`.
pub fn extend(dst: &mut Vec<u8>, src: &[u8])
    ensures
        final(dst)@ == old(dst)@ + src@,
{
    let mut k: usize = 0;
    while k < src.len()
        invariant
            0 <= k <= src.len(),
            dst@ == old(dst)@ + src@.take(k as int),
        decreases src.len() - k,
    {
        dst.push(src[k]);
        proof {
            assert(src@.take(k as int + 1) =~= src@.take(k as int).push(src@[k as int]));
        }
        k = k + 1;
    }
    proof {
        assert(src@.take(src@.len() as int) =~= src@);
    }
}

proof fn lemma_flatten_pair(a: Seq<u8>, b: Seq<u8>)
    ensures
        seq![a, b].flatten() == a + b,
{
    let none = Seq::<Seq<u8>>::empty();
    assert(none.flatten() =~= Seq::<u8>::empty());
    none.lemma_flatten_push(a);
    none.push(a).lemma_flatten_push(b);
    assert(seq![a, b] =~= none.push(a).push(b));
    assert(Seq::<u8>::empty() + a =~= a);
}

impl Command {
    /// The bytes of the entry after its checksum.
    fn body(&self) -> (body: Vec<u8>)
        ensures
            body@ == self@.body(),
    {
        let mut body: Vec<u8> = Vec::new();
        match self {
            Command::Write { key, value, timestamp } => {
                body.push(KIND_WRITE);
                let ts = u64_to_le_bytes(*timestamp as u64);
                let ks = u64_to_le_bytes(key.len() as u64);
                let vs = u64_to_le_bytes(value.len() as u64);
                extend(&mut body, ts.as_slice());
                extend(&mut body, ks.as_slice());
                extend(&mut body, vs.as_slice());
                extend(&mut body, key.as_slice());
                extend(&mut body, value.as_slice());
                proof {
                    assert(Seq::<u8>::empty().push(KIND_WRITE) =~= seq![KIND_WRITE]);
                }
            },
            Command::Delete { key, timestamp } => {
                body.push(KIND_DELETE);
                let ts = u64_to_le_bytes(*timestamp as u64);
                let ks = u64_to_le_bytes(key.len() as u64);
                extend(&mut body, ts.as_slice());
                extend(&mut body, ks.as_slice());
                extend(&mut body, key.as_slice());
                proof {
                    assert(Seq::<u8>::empty().push(KIND_DELETE) =~= seq![KIND_DELETE]);
                }
            },
        }
        body
    }

    /// Appends the entry to `file` as one record: the checksum of the body,
    /// then the body. Returns the number of bytes written, or leaves the
    /// segment as it was where it cannot take them.
    pub fn to_file(self, file: &mut File) -> (written: Result<usize, KvsError>)
        ensures
            final(file).spec_id() == old(file).spec_id(),
            old(file)@.len() + self@.encoded_len() <= usize::MAX ==> written == Ok::<
                usize,
                KvsError,
            >(self@.encoded_len() as usize) && final(file)@ == old(file)@ + self@.encode(),
            old(file)@.len() + self@.encoded_len() > usize::MAX ==> written == Err::<
                usize,
                KvsError,
            >(KvsError::Io(crate::error::IoErrorKind::FileTooLarge)) && final(file)@ == old(file)@,
    {
        let body = self.body();
        let crc = u32_to_le_bytes(checksum(body.as_slice()));
        proof {
            lemma_encode_len(self@);
            lemma_flatten_pair(crc@, body@);
        }
        let mut iovec: Vec<Vec<u8>> = Vec::new();
        iovec.push(crc);
        iovec.push(body);
        proof {
            assert(parts_of(iovec@) =~= seq![crc@, body@]);
        }
        file.append(&iovec)
    }
}

impl Index {
    /// The entry as it is written: segment id, offset, length and timestamp,
    /// each in eight little-endian bytes.
    pub open spec fn encode(self) -> Seq<u8> {
        spec_u64_to_le_bytes(self.file_id) + spec_u64_to_le_bytes(self.pos) + spec_u64_to_le_bytes(
            self.len,
        ) + spec_i64_to_le_bytes(self.timestamp)
    }

    /// Appends the entry to `writer` as four buffers. Returns the number of
    /// bytes written, or leaves the segment as it was where it cannot take
    /// them.
    pub fn to_writer(&self, writer: &mut File) -> (written: Result<usize, KvsError>)
        ensures
            final(writer).spec_id() == old(writer).spec_id(),
            old(writer)@.len() + 32 <= usize::MAX ==> written == Ok::<usize, KvsError>(32)
                && final(writer)@ == old(writer)@ + self.encode(),
            old(writer)@.len() + 32 > usize::MAX ==> written == Err::<usize, KvsError>(
                KvsError::Io(crate::error::IoErrorKind::FileTooLarge),
            ) && final(writer)@ == old(writer)@,
    {
        let file_id = u64_to_le_bytes(self.file_id);
        let pos = u64_to_le_bytes(self.pos);
        let len = u64_to_le_bytes(self.len);
        let timestamp = u64_to_le_bytes(self.timestamp as u64);
        proof {
            let none = Seq::<Seq<u8>>::empty();
            assert(none.flatten() =~= Seq::<u8>::empty());
            none.lemma_flatten_push(file_id@);
            none.push(file_id@).lemma_flatten_push(pos@);
            none.push(file_id@).push(pos@).lemma_flatten_push(len@);
            none.push(file_id@).push(pos@).push(len@).lemma_flatten_push(timestamp@);
            assert(Seq::<u8>::empty() + file_id@ =~= file_id@);
        }
        let mut iovec: Vec<Vec<u8>> = Vec::new();
        iovec.push(file_id);
        iovec.push(pos);
        iovec.push(len);
        iovec.push(timestamp);
        proof {
            assert(parts_of(iovec@) =~= Seq::<Seq<u8>>::empty().push(iovec@[0]@).push(
                iovec@[1]@,
            ).push(iovec@[2]@).push(iovec@[3]@));
        }
        writer.append(&iovec)
    }
}

/// Reads the records of a segment one after another.
pub struct StreamReader<'a, T> {
    cursor: u64,
    file: &'a File,
    __phony: PhantomData<T>,
}

impl<'a, T> StreamReader<'a, T> {
    /// The segment that is read.
    pub closed spec fn spec_file(&self) -> &'a File {
        self.file
    }

    /// The offset of the next record.
    pub closed spec fn spec_cursor(&self) -> u64 {
        self.cursor
    }

    /// A reader at the start of `file`.
    pub fn new(file: &'a File) -> (reader: Self)
        ensures
            reader.spec_cursor() == 0,
            reader.spec_file() == file,
    {
        Self { cursor: 0, file, __phony: PhantomData }
    }

    /// A reader at offset `cursor` of `file`.
    pub fn at(file: &'a File, cursor: u64) -> (reader: Self)
        ensures
            reader.spec_cursor() == cursor,
            reader.spec_file() == file,
    {
        Self { cursor, file, __phony: PhantomData }
    }

    /// The offset of the next record.
    pub fn cursor(&self) -> (cursor: u64)
        ensures
            cursor == self.spec_cursor(),
    {
        self.cursor
    }
}

impl<'a> StreamReader<'a, Command> {
    /// Reads the record at the cursor and moves the cursor past it. Where
    /// fewer bytes than a header are left, the segment is at its end and
    /// `None` is returned; where the record is cut short, has an unknown kind
    /// or fails its checksum, the error is `Corrupt`. The cursor moves only
    /// when a record is returned.
    pub fn read_entry(&mut self) -> (entry: Result<Option<Command>, KvsError>)
        ensures
            final(self).spec_file() == old(self).spec_file(),
            (match decode(tail_from(old(self).spec_file()@, old(self).spec_cursor() as int)) {
                Decoded::Eof => entry == Ok::<Option<Command>, KvsError>(None)
                    && final(self).spec_cursor() == old(self).spec_cursor(),
                Decoded::Corrupt => entry == Err::<Option<Command>, KvsError>(KvsError::Corrupt)
                    && final(self).spec_cursor() == old(self).spec_cursor(),
                Decoded::Entry { record, len } => entry.is_ok() && entry.unwrap().is_some()
                    && entry.unwrap().unwrap()@ == record
                    && final(self).spec_cursor() == old(self).spec_cursor() + len,
            }),
    {
        let pos: u64 = self.cursor;
        let ghost data = self.file@;
        let ghost s = tail_from(data, pos as int);
        let mut lens: Vec<usize> = Vec::new();
        lens.push(4);
        lens.push(1);
        lens.push(8);
        lens.push(8);
        proof {
            reveal_with_fuel(offset_of, 5);
            assert(offset_of(lens@, 4) == 21);
        }
        let header = match self.file.preadv_exact(&lens, pos) {
            Ok(header) => header,
            Err(_) => {
                return Ok(None);
            },
        };
        proof {
            assert(s.subrange(0, 4) =~= data.subrange(pos as int, pos + 4));
            assert(s.subrange(5, 13) =~= data.subrange(pos + 5, pos + 13));
            assert(s.subrange(13, 21) =~= data.subrange(pos + 13, pos + 21));
            assert(header@[0]@ == data.subrange(pos + offset_of(lens@, 0), pos + offset_of(lens@, 1)));
            assert(header@[1]@ == data.subrange(pos + offset_of(lens@, 1), pos + offset_of(lens@, 2)));
            assert(header@[2]@ == data.subrange(pos + offset_of(lens@, 2), pos + offset_of(lens@, 3)));
            assert(header@[3]@ == data.subrange(pos + offset_of(lens@, 3), pos + offset_of(lens@, 4)));
            assert(header@[0]@.subrange(0, 4) =~= header@[0]@);
            assert(header@[2]@.subrange(0, 8) =~= header@[2]@);
            assert(header@[3]@.subrange(0, 8) =~= header@[3]@);
        }
        let stored: u32 = get_u32_le(header[0].as_slice());
        let kind: u8 = header[1][0];
        let timestamp: i64 = get_i64_le(header[2].as_slice());
        let ksize: u64 = get_u64_le(header[3].as_slice());
        let left: u64 = self.file.pos() as u64 - pos;
        if kind == KIND_WRITE {
            if left < WRITE_HEADER_LEN as u64 {
                return Err(KvsError::Corrupt);
            }
            let vbuf = match self.file.pread_exact(8, pos + HEADER_LEN as u64) {
                Ok(vbuf) => vbuf,
                Err(_) => {
                    return Err(KvsError::Corrupt);
                },
            };
            proof {
                assert(s.subrange(21, 29) =~= data.subrange(pos + 21, pos + 29));
                assert(vbuf@.subrange(0, 8) =~= vbuf@);
            }
            let vsize: u64 = get_u64_le(vbuf.as_slice());
            if ksize > left - WRITE_HEADER_LEN as u64 {
                return Err(KvsError::Corrupt);
            }
            if vsize > left - WRITE_HEADER_LEN as u64 - ksize {
                return Err(KvsError::Corrupt);
            }
            let ghost end: int = 29 + ksize + vsize;
            let body = match self.file.pread_exact(
                25 + ksize as usize + vsize as usize,
                pos + 4,
            ) {
                Ok(body) => body,
                Err(_) => {
                    return Err(KvsError::Corrupt);
                },
            };
            proof {
                assert(s.subrange(4, end) =~= data.subrange(pos + 4, pos + end));
            }
            if checksum(body.as_slice()) != stored {
                return Err(KvsError::Corrupt);
            }
            let mut sizes: Vec<usize> = Vec::new();
            sizes.push(ksize as usize);
            sizes.push(vsize as usize);
            proof {
                reveal_with_fuel(offset_of, 3);
                assert(offset_of(sizes@, 2) == ksize + vsize);
            }
            let mut payload = match self.file.preadv_exact(&sizes, pos + WRITE_HEADER_LEN as u64) {
                Ok(payload) => payload,
                Err(_) => {
                    return Err(KvsError::Corrupt);
                },
            };
            proof {
                assert(payload@[0]@ == data.subrange(
                    pos + 29 + offset_of(sizes@, 0),
                    pos + 29 + offset_of(sizes@, 1),
                ));
                assert(payload@[1]@ == data.subrange(
                    pos + 29 + offset_of(sizes@, 1),
                    pos + 29 + offset_of(sizes@, 2),
                ));
                assert(s.subrange(29, 29 + ksize) =~= data.subrange(pos + 29, pos + 29 + ksize));
                assert(s.subrange(29 + ksize, end) =~= data.subrange(pos + 29 + ksize, pos + end));
            }
            let value = payload.pop().unwrap();
            let key = payload.pop().unwrap();
            self.cursor = pos + WRITE_HEADER_LEN as u64 + ksize + vsize;
            Ok(Some(Command::Write { key, value, timestamp }))
        } else if kind == KIND_DELETE {
            if ksize > left - HEADER_LEN as u64 {
                return Err(KvsError::Corrupt);
            }
            let ghost end: int = 21 + ksize;
            let body = match self.file.pread_exact(17 + ksize as usize, pos + 4) {
                Ok(body) => body,
                Err(_) => {
                    return Err(KvsError::Corrupt);
                },
            };
            proof {
                assert(s.subrange(4, end) =~= data.subrange(pos + 4, pos + end));
            }
            if checksum(body.as_slice()) != stored {
                return Err(KvsError::Corrupt);
            }
            let key = match self.file.pread_exact(ksize as usize, pos + HEADER_LEN as u64) {
                Ok(key) => key,
                Err(_) => {
                    return Err(KvsError::Corrupt);
                },
            };
            proof {
                assert(s.subrange(21, end) =~= data.subrange(pos + 21, pos + end));
            }
            self.cursor = pos + HEADER_LEN as u64 + ksize;
            Ok(Some(Command::Delete { key, timestamp }))
        } else {
            Err(KvsError::Corrupt)
        }
    }
}

} // verus!
