//! One numbered log segment, held as bytes.

use crate::error::{IoErrorKind, KvsError};
use vstd::prelude::*;
use vstd::slice::slice_subrange;

verus! {

/// A log segment: its id and every byte appended to it so far.
#[derive(Debug)]
pub struct File {
    id: u64,
    data: Vec<u8>,
}

/// The byte strings that a list of buffers holds, in order.
pub open spec fn parts_of(iovec: Seq<Vec<u8>>) -> Seq<Seq<u8>> {
    Seq::new(iovec.len(), |i: int| iovec[i]@)
}

/// The sum of the first `n` lengths.
pub open spec fn offset_of(lens: Seq<usize>, n: int) -> int
    decreases n,
{
    if n <= 0 {
        0
    } else {
        offset_of(lens, n - 1) + lens[n - 1]
    }
}

/// `data` from `pos` on, or nothing where `pos` lies beyond its end.
pub open spec fn tail_from(data: Seq<u8>, pos: int) -> Seq<u8> {
    if 0 <= pos <= data.len() {
        data.subrange(pos, data.len() as int)
    } else {
        Seq::empty()
    }
}

pub proof fn lemma_offset_monotonic(lens: Seq<usize>, i: int, j: int)
    requires
        0 <= i <= j,
    ensures
        0 <= offset_of(lens, i) <= offset_of(lens, j),
    decreases j,
{
    if i < j {
        lemma_offset_monotonic(lens, i, j - 1);
    } else if j > 0 {
        lemma_offset_monotonic(lens, i - 1, j - 1);
    }
}

proof fn lemma_parts_push(iovec: Seq<Vec<u8>>, i: int)
    requires
        0 <= i < iovec.len(),
    ensures
        parts_of(iovec.take(i + 1)).flatten() == parts_of(iovec.take(i)).flatten() + iovec[i]@,
{
    assert(parts_of(iovec.take(i + 1)) =~= parts_of(iovec.take(i)).push(iovec[i]@));
    parts_of(iovec.take(i)).lemma_flatten_push(iovec[i]@);
}

impl View for File {
    type V = Seq<u8>;

    closed spec fn view(&self) -> Seq<u8> {
        self.data@
    }
}

impl File {
    /// The segment's id.
    pub closed spec fn spec_id(&self) -> u64 {
        self.id
    }

    /// A segment is no longer than the machine can address.
    pub proof fn lemma_len_fits(&self)
        ensures
            self@.len() <= usize::MAX,
    {
        assert(self.data.len() <= usize::MAX);
    }

    /// A segment with the given id and contents.
    pub fn new(id: u64, data: Vec<u8>) -> (file: File)
        ensures
            file@ == data@,
            file.spec_id() == id,
    {
        File { id, data }
    }

    /// The segment's id.
    pub fn id(&self) -> (id: u64)
        ensures
            id == self.spec_id(),
    {
        self.id
    }

    /// The append position: the number of bytes written so far.
    pub fn pos(&self) -> (pos: usize)
        ensures
            pos == self@.len(),
    {
        self.data.len()
    }

    /// The segment's bytes.
    pub fn bytes(&self) -> (bytes: &[u8])
        ensures
            bytes@ == self@,
    {
        self.data.as_slice()
    }

    /// Gives the segment's bytes away.
    pub fn into_bytes(self) -> (bytes: Vec<u8>)
        ensures
            bytes@ == self@,
    {
        self.data
    }

    /// Appends the buffers, in order, as one record. Either every byte is
    /// appended and their number returned, or the segment is left as it was:
    /// the latter exactly when it would grow beyond what the machine addresses.
    pub fn append(&mut self, iovec: &Vec<Vec<u8>>) -> (written: Result<usize, KvsError>)
        ensures
            final(self).spec_id() == old(self).spec_id(),
            old(self)@.len() + parts_of(iovec@).flatten().len() <= usize::MAX ==> written == Ok::<
                usize,
                KvsError,
            >(parts_of(iovec@).flatten().len() as usize) && final(self)@ == old(self)@ + parts_of(
                iovec@,
            ).flatten(),
            old(self)@.len() + parts_of(iovec@).flatten().len() > usize::MAX ==> written == Err::<
                usize,
                KvsError,
            >(KvsError::Io(IoErrorKind::FileTooLarge)) && final(self)@ == old(self)@,
    {
        let size: usize = self.data.len();
        let mut total: usize = 0;
        let mut i: usize = 0;
        proof {
            assert(parts_of(iovec@.take(0)) =~= Seq::<Seq<u8>>::empty());
            assert(Seq::<Seq<u8>>::empty().flatten() =~= Seq::<u8>::empty());
        }
        while i < iovec.len()
            invariant
                0 <= i <= iovec.len(),
                total == parts_of(iovec@.take(i as int)).flatten().len(),
                size == self.data@.len(),
                size + total <= usize::MAX,
                *self == *old(self),
            decreases iovec.len() - i,
        {
            proof {
                lemma_parts_push(iovec@, i as int);
                lemma_flatten_grows(iovec@, i as int + 1, iovec@.len() as int);
                assert(iovec@.take(iovec@.len() as int) =~= iovec@);
            }
            let n: usize = iovec[i].len();
            if n > usize::MAX - size - total {
                return Err(KvsError::Io(IoErrorKind::FileTooLarge));
            }
            total = total + n;
            i = i + 1;
        }
        proof {
            assert(iovec@.take(iovec@.len() as int) =~= iovec@);
            assert(parts_of(iovec@.take(0)) =~= Seq::<Seq<u8>>::empty());
            assert(Seq::<Seq<u8>>::empty().flatten() =~= Seq::<u8>::empty());
        }
        let mut j: usize = 0;
        while j < iovec.len()
            invariant
                0 <= j <= iovec.len(),
                self.id == old(self).id,
                self.data@ == old(self).data@ + parts_of(iovec@.take(j as int)).flatten(),
            decreases iovec.len() - j,
        {
            proof {
                lemma_parts_push(iovec@, j as int);
            }
            let ghost before = self.data@;
            let buf: &Vec<u8> = &iovec[j];
            let mut k: usize = 0;
            while k < buf.len()
                invariant
                    0 <= k <= buf.len(),
                    self.id == old(self).id,
                    self.data@ == before + buf@.take(k as int),
                decreases buf.len() - k,
            {
                self.data.push(buf[k]);
                proof {
                    assert(buf@.take(k as int + 1) =~= buf@.take(k as int).push(buf@[k as int]));
                }
                k = k + 1;
            }
            proof {
                assert(buf@.take(buf@.len() as int) =~= buf@);
            }
            j = j + 1;
        }
        proof {
            assert(iovec@.take(iovec@.len() as int) =~= iovec@);
        }
        Ok(total)
    }

    /// Reads exactly `len` bytes from offset `pos`, or fails with
    /// `UnexpectedEof` where the segment ends before them.
    pub fn pread_exact(&self, len: usize, pos: u64) -> (read: Result<Vec<u8>, KvsError>)
        ensures
            pos + len <= self@.len() ==> read.is_ok() && read.unwrap()@ == self@.subrange(
                pos as int,
                pos + len,
            ),
            pos + len > self@.len() ==> read == Err::<Vec<u8>, KvsError>(
                KvsError::Io(IoErrorKind::UnexpectedEof),
            ),
    {
        let size: usize = self.data.len();
        if pos > size as u64 || len > size - pos as usize {
            return Err(KvsError::Io(IoErrorKind::UnexpectedEof));
        }
        let start: usize = pos as usize;
        let piece = slice_subrange(self.data.as_slice(), start, start + len);
        Ok(copy_of(piece))
    }

    /// Scatter read: fills one buffer per length, from consecutive ranges that
    /// start at `pos`, or fails with `UnexpectedEof` where the segment ends
    /// before the last of them is full.
    pub fn preadv_exact(&self, lens: &Vec<usize>, pos: u64) -> (read: Result<
        Vec<Vec<u8>>,
        KvsError,
    >)
        ensures
            pos + offset_of(lens@, lens@.len() as int) <= self@.len() ==> read.is_ok()
                && read.unwrap()@.len() == lens@.len() && forall|i: int|
                0 <= i < lens@.len() ==> (#[trigger] read.unwrap()@[i])@ == self@.subrange(
                    pos + offset_of(lens@, i),
                    pos + offset_of(lens@, i + 1),
                ),
            pos + offset_of(lens@, lens@.len() as int) > self@.len() ==> read == Err::<
                Vec<Vec<u8>>,
                KvsError,
            >(KvsError::Io(IoErrorKind::UnexpectedEof)),
    {
        let size: usize = self.data.len();
        if pos > size as u64 {
            proof {
                lemma_offset_monotonic(lens@, 0, lens@.len() as int);
            }
            return Err(KvsError::Io(IoErrorKind::UnexpectedEof));
        }
        let mut bufs: Vec<Vec<u8>> = Vec::new();
        let mut at: usize = pos as usize;
        let mut i: usize = 0;
        while i < lens.len()
            invariant
                0 <= i <= lens.len(),
                size == self.data@.len(),
                at == pos + offset_of(lens@, i as int),
                at <= size,
                bufs@.len() == i,
                forall|j: int|
                    0 <= j < i ==> (#[trigger] bufs@[j])@ == self@.subrange(
                        pos + offset_of(lens@, j),
                        pos + offset_of(lens@, j + 1),
                    ),
            decreases lens.len() - i,
        {
            let n: usize = lens[i];
            if n > size - at {
                proof {
                    lemma_offset_monotonic(lens@, i as int + 1, lens@.len() as int);
                }
                return Err(KvsError::Io(IoErrorKind::UnexpectedEof));
            }
            let piece = slice_subrange(self.data.as_slice(), at, at + n);
            bufs.push(copy_of(piece));
            at = at + n;
            i = i + 1;
        }
        Ok(bufs)
    }
}

proof fn lemma_flatten_grows(iovec: Seq<Vec<u8>>, i: int, j: int)
    requires
        0 <= i <= j <= iovec.len(),
    ensures
        parts_of(iovec.take(i)).flatten().len() <= parts_of(iovec.take(j)).flatten().len(),
    decreases j - i,
{
    if i < j {
        lemma_parts_push(iovec, j - 1);
        lemma_flatten_grows(iovec, i, j - 1);
    }
}

/// A fresh buffer with the bytes of `piece`.
pub fn copy_of(piece: &[u8]) -> (buf: Vec<u8>)
    ensures
        buf@ == piece@,
{
    let mut buf: Vec<u8> = Vec::with_capacity(piece.len());
    let mut k: usize = 0;
    while k < piece.len()
        invariant
            0 <= k <= piece.len(),
            buf@ == piece@.take(k as int),
        decreases piece.len() - k,
    {
        buf.push(piece[k]);
        proof {
            assert(piece@.take(k as int + 1) =~= piece@.take(k as int).push(piece@[k as int]));
        }
        k = k + 1;
    }
    proof {
        assert(piece@.take(piece@.len() as int) =~= piece@);
    }
    buf
}

} // verus!
