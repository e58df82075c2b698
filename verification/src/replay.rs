//! What a segment means: the index that reading its records in order gives.

use crate::fs::tail_from;
use crate::xchg::{
    decode, lemma_decode_encode, lemma_decode_is_encoding, lemma_decode_prefix, lemma_encode_len,
    Decoded, HEADER_LEN, Index, Record,
};
use vstd::prelude::*;

verus! {

/// The index after one more record, which lies at `pos` in segment `fid`.
pub open spec fn apply(
    index: Map<Seq<u8>, Index>,
    fid: u64,
    pos: nat,
    record: Record,
) -> Map<Seq<u8>, Index> {
    match record {
        Record::Write { key, value, timestamp } => index.insert(
            key,
            Index { file_id: fid, pos: pos as u64, len: record.encoded_len() as u64, timestamp },
        ),
        Record::Delete { key, .. } => index.remove(key),
    }
}

/// Where the records of `data` end, reading from `pos`: the offset at which
/// fewer bytes than a header are left. `None` where a record is corrupt.
pub open spec fn log_end(data: Seq<u8>, pos: nat) -> Option<nat>
    decreases data.len() - pos,
{
    match decode(tail_from(data, pos as int)) {
        Decoded::Eof => Some(pos),
        Decoded::Corrupt => None,
        Decoded::Entry { record, len } => if HEADER_LEN <= len && pos + len <= data.len() {
            log_end(data, pos + len)
        } else {
            None
        },
    }
}

/// The index after every record of `data` from `pos` on, read in order.
/// `None` where a record is corrupt.
pub open spec fn replay_segment(
    index: Map<Seq<u8>, Index>,
    fid: u64,
    data: Seq<u8>,
    pos: nat,
) -> Option<Map<Seq<u8>, Index>>
    decreases data.len() - pos,
{
    match decode(tail_from(data, pos as int)) {
        Decoded::Eof => Some(index),
        Decoded::Corrupt => None,
        Decoded::Entry { record, len } => if HEADER_LEN <= len && pos + len <= data.len() {
            replay_segment(apply(index, fid, pos, record), fid, data, pos + len)
        } else {
            None
        },
    }
}

/// The index after every segment with an id below `bound`, in ascending
/// order of id. `None` where a record is corrupt.
pub open spec fn replay_files(files: Map<u64, Seq<u8>>, bound: nat) -> Option<
    Map<Seq<u8>, Index>,
>
    decreases bound,
{
    if bound == 0 {
        Some(Map::empty())
    } else {
        let id = (bound - 1) as u64;
        match replay_files(files, (bound - 1) as nat) {
            None => None,
            Some(index) => if files.contains_key(id) {
                replay_segment(index, id, files[id], 0)
            } else {
                Some(index)
            },
        }
    }
}

/// The index after the first `n` of the listed segments, in the order of the
/// list. `None` where a record is corrupt.
pub open spec fn replay_list(segs: Seq<(u64, Seq<u8>)>, n: nat) -> Option<Map<Seq<u8>, Index>>
    decreases n,
{
    if n == 0 {
        Some(Map::empty())
    } else {
        match replay_list(segs, (n - 1) as nat) {
            None => None,
            Some(index) => replay_segment(index, segs[n - 1].0, segs[n - 1].1, 0),
        }
    }
}

/// The entry `e` of key `k` names a write of `k` that lies whole in its
/// segment, with the entry's length and timestamp.
pub open spec fn points_to(files: Map<u64, Seq<u8>>, k: Seq<u8>, e: Index) -> bool {
    &&& files.contains_key(e.file_id)
    &&& match decode(tail_from(files[e.file_id], e.pos as int)) {
        Decoded::Entry { record: Record::Write { key, value, timestamp }, len } => key == k
            && timestamp == e.timestamp && len == e.len,
        _ => false,
    }
}

/// The record that `e` names.
pub open spec fn record_at(files: Map<u64, Seq<u8>>, e: Index) -> Record {
    decode(tail_from(files[e.file_id], e.pos as int))->record
}

/// The bytes that `e` names: `e.len` bytes from `e.pos` on in its segment.
pub open spec fn bytes_at(files: Map<u64, Seq<u8>>, e: Index) -> Seq<u8> {
    files[e.file_id].subrange(e.pos as int, e.pos + e.len)
}

/// Two entries of one key that name the same record name the same bytes,
/// with one length and one timestamp.
pub proof fn lemma_same_record(
    a: Map<u64, Seq<u8>>,
    e: Index,
    b: Map<u64, Seq<u8>>,
    f: Index,
    k: Seq<u8>,
)
    requires
        points_to(a, k, e),
        points_to(b, k, f),
        record_at(a, e) == record_at(b, f),
    ensures
        e.len == f.len,
        e.timestamp == f.timestamp,
        bytes_at(a, e) == bytes_at(b, f),
        value_at(a, e) == value_at(b, f),
{
    let s = tail_from(a[e.file_id], e.pos as int);
    let t = tail_from(b[f.file_id], f.pos as int);
    lemma_decode_is_encoding(s);
    lemma_decode_is_encoding(t);
    assert(s.subrange(0, e.len as int) =~= bytes_at(a, e));
    assert(t.subrange(0, f.len as int) =~= bytes_at(b, f));
}

/// The value of the record that `e` names.
pub open spec fn value_at(files: Map<u64, Seq<u8>>, e: Index) -> Seq<u8> {
    match decode(tail_from(files[e.file_id], e.pos as int)) {
        Decoded::Entry { record: Record::Write { key, value, timestamp }, len } => value,
        _ => Seq::empty(),
    }
}

/// The tail of an extended segment is the extended tail.
pub proof fn lemma_tail_append(data: Seq<u8>, more: Seq<u8>, pos: nat)
    requires
        pos <= data.len(),
    ensures
        tail_from(data + more, pos as int) == tail_from(data, pos as int) + more,
{
    assert(tail_from(data + more, pos as int) =~= tail_from(data, pos as int) + more);
}

/// A segment that ends on a record boundary still does after one more record.
pub proof fn lemma_log_end_append(data: Seq<u8>, pos: nat, record: Record)
    requires
        pos <= data.len(),
        log_end(data, pos) == Some(data.len()),
        record.encodable(),
    ensures
        log_end(data + record.encode(), pos) == Some(data.len() + record.encoded_len()),
    decreases data.len() - pos,
{
    let more = record.encode();
    let all = data + more;
    lemma_encode_len(record);
    lemma_tail_append(data, more, pos);
    match decode(tail_from(data, pos as int)) {
        Decoded::Eof => {
            assert(pos == data.len());
            assert(tail_from(data, pos as int) + more =~= more + Seq::<u8>::empty());
            lemma_decode_encode(record, Seq::empty());
            let next = pos + record.encoded_len();
            assert(tail_from(all, next as int) =~= Seq::<u8>::empty());
            assert(log_end(all, next) == Some(next));
        },
        Decoded::Corrupt => {},
        Decoded::Entry { record: r, len } => {
            lemma_decode_prefix(tail_from(data, pos as int), more);
            lemma_log_end_append(data, pos + len, record);
        },
    }
}

/// Replaying a segment with one more record at its end applies that record
/// last.
pub proof fn lemma_replay_append(
    index: Map<Seq<u8>, Index>,
    fid: u64,
    data: Seq<u8>,
    pos: nat,
    record: Record,
)
    requires
        pos <= data.len(),
        log_end(data, pos) == Some(data.len()),
        record.encodable(),
    ensures
        replay_segment(index, fid, data, pos) is Some,
        replay_segment(index, fid, data + record.encode(), pos) == Some(
            apply(replay_segment(index, fid, data, pos).unwrap(), fid, data.len(), record),
        ),
    decreases data.len() - pos,
{
    let more = record.encode();
    let all = data + more;
    lemma_encode_len(record);
    lemma_tail_append(data, more, pos);
    match decode(tail_from(data, pos as int)) {
        Decoded::Eof => {
            assert(pos == data.len());
            assert(tail_from(data, pos as int) + more =~= more + Seq::<u8>::empty());
            lemma_decode_encode(record, Seq::empty());
            let next = pos + record.encoded_len();
            assert(tail_from(all, next as int) =~= Seq::<u8>::empty());
            assert(replay_segment(apply(index, fid, pos, record), fid, all, next) == Some(
                apply(index, fid, pos, record),
            ));
        },
        Decoded::Corrupt => {},
        Decoded::Entry { record: r, len } => {
            lemma_decode_prefix(tail_from(data, pos as int), more);
            lemma_replay_append(apply(index, fid, pos, r), fid, data, pos + len, record);
        },
    }
}

/// An entry that names a record still names it after its segment has grown.
pub proof fn lemma_points_to_append(
    files: Map<u64, Seq<u8>>,
    fid: u64,
    more: Seq<u8>,
    k: Seq<u8>,
    e: Index,
)
    requires
        files.contains_key(fid),
        points_to(files, k, e),
    ensures
        points_to(files.insert(fid, files[fid] + more), k, e),
        value_at(files.insert(fid, files[fid] + more), e) == value_at(files, e),
        record_at(files.insert(fid, files[fid] + more), e) == record_at(files, e),
{
    if e.file_id == fid {
        let data = files[fid];
        if e.pos <= data.len() {
            lemma_tail_append(data, more, e.pos as nat);
            lemma_decode_prefix(tail_from(data, e.pos as int), more);
        }
    }
}

/// Segments with ids at or above `bound` do not matter to the replay below
/// `bound`.
pub proof fn lemma_replay_files_frame(a: Map<u64, Seq<u8>>, b: Map<u64, Seq<u8>>, bound: nat)
    requires
        bound <= u64::MAX + 1,
        forall|id: u64| id < bound ==> a.contains_key(id) == b.contains_key(id),
        forall|id: u64| id < bound && a.contains_key(id) ==> a[id] == b[id],
    ensures
        replay_files(a, bound) == replay_files(b, bound),
    decreases bound,
{
    if bound > 0 {
        lemma_replay_files_frame(a, b, (bound - 1) as nat);
    }
}

/// Where no segment has an id from `lo` up to `hi`, replaying below `hi` is
/// replaying below `lo`.
pub proof fn lemma_replay_files_gap(files: Map<u64, Seq<u8>>, lo: nat, hi: nat)
    requires
        lo <= hi <= u64::MAX + 1,
        forall|id: u64| lo <= id < hi ==> !files.contains_key(id),
    ensures
        replay_files(files, hi) == replay_files(files, lo),
    decreases hi - lo,
{
    if lo < hi {
        lemma_replay_files_gap(files, lo, (hi - 1) as nat);
    }
}

/// Once a segment is corrupt, so is every replay up to a greater bound.
pub proof fn lemma_replay_files_none(files: Map<u64, Seq<u8>>, lo: nat, hi: nat)
    requires
        lo <= hi,
        replay_files(files, lo) is None,
    ensures
        replay_files(files, hi) is None,
    decreases hi - lo,
{
    if lo < hi {
        lemma_replay_files_none(files, lo, (hi - 1) as nat);
    }
}

/// Once a listed segment is corrupt, so is every longer replay of the listing.
pub proof fn lemma_replay_list_none(segs: Seq<(u64, Seq<u8>)>, i: nat, n: nat)
    requires
        i <= n,
        replay_list(segs, i) is None,
    ensures
        replay_list(segs, n) is None,
    decreases n - i,
{
    if i < n {
        lemma_replay_list_none(segs, i, (n - 1) as nat);
    }
}

/// Every entry that replaying a segment leaves names a record of its key,
/// where every entry before did.
pub proof fn lemma_replay_segment_points(
    index: Map<Seq<u8>, Index>,
    fid: u64,
    pos: nat,
    files: Map<u64, Seq<u8>>,
)
    requires
        files.contains_key(fid),
        files[fid].len() <= usize::MAX,
        pos <= files[fid].len(),
        replay_segment(index, fid, files[fid], pos) is Some,
        forall|k: Seq<u8>| #[trigger] index.contains_key(k) ==> points_to(files, k, index[k]),
    ensures
        forall|k: Seq<u8>| #[trigger]
            replay_segment(index, fid, files[fid], pos).unwrap().contains_key(k) ==> points_to(
                files,
                k,
                replay_segment(index, fid, files[fid], pos).unwrap()[k],
            ),
    decreases files[fid].len() - pos,
{
    let data = files[fid];
    match decode(tail_from(data, pos as int)) {
        Decoded::Entry { record, len } => {
            lemma_decode_is_encoding(tail_from(data, pos as int));
            let next = apply(index, fid, pos, record);
            assert forall|k: Seq<u8>| #[trigger] next.contains_key(k) implies points_to(
                files,
                k,
                next[k],
            ) by {
                if k != record.key() {
                    assert(index.contains_key(k));
                }
            }
            lemma_replay_segment_points(next, fid, pos + len, files);
        },
        _ => {},
    }
}

/// Every entry that replaying the segments leaves names a record of its key.
pub proof fn lemma_replay_files_points(files: Map<u64, Seq<u8>>, bound: nat)
    requires
        bound <= u64::MAX + 1,
        forall|id: u64| #[trigger] files.contains_key(id) ==> files[id].len() <= usize::MAX,
        replay_files(files, bound) is Some,
    ensures
        forall|k: Seq<u8>| #[trigger]
            replay_files(files, bound).unwrap().contains_key(k) ==> points_to(
                files,
                k,
                replay_files(files, bound).unwrap()[k],
            ),
    decreases bound,
{
    if bound > 0 {
        lemma_replay_files_points(files, (bound - 1) as nat);
        let id = (bound - 1) as u64;
        if files.contains_key(id) {
            lemma_replay_segment_points(
                replay_files(files, (bound - 1) as nat).unwrap(),
                id,
                0,
                files,
            );
        }
    }
}

/// Replaying a segment into a finite index leaves a finite index.
pub proof fn lemma_replay_segment_finite(
    index: Map<Seq<u8>, Index>,
    fid: u64,
    data: Seq<u8>,
    pos: nat,
)
    requires
        index.dom().finite(),
        replay_segment(index, fid, data, pos) is Some,
    ensures
        replay_segment(index, fid, data, pos).unwrap().dom().finite(),
    decreases data.len() - pos,
{
    match decode(tail_from(data, pos as int)) {
        Decoded::Entry { record, len } => {
            lemma_replay_segment_finite(apply(index, fid, pos, record), fid, data, pos + len);
        },
        _ => {},
    }
}

/// Replaying segments leaves a finite index.
pub proof fn lemma_replay_files_finite(files: Map<u64, Seq<u8>>, bound: nat)
    requires
        replay_files(files, bound) is Some,
    ensures
        replay_files(files, bound).unwrap().dom().finite(),
    decreases bound,
{
    if bound > 0 {
        lemma_replay_files_finite(files, (bound - 1) as nat);
        let id = (bound - 1) as u64;
        if files.contains_key(id) {
            lemma_replay_segment_finite(
                replay_files(files, (bound - 1) as nat).unwrap(),
                id,
                files[id],
                0,
            );
        }
    }
}

/// Every entry that replaying a segment leaves either names that segment or
/// was there before.
pub proof fn lemma_replay_segment_ids(
    index: Map<Seq<u8>, Index>,
    fid: u64,
    data: Seq<u8>,
    pos: nat,
)
    requires
        replay_segment(index, fid, data, pos) is Some,
    ensures
        forall|k: Seq<u8>| #[trigger]
            replay_segment(index, fid, data, pos).unwrap().contains_key(k) ==> replay_segment(
                index,
                fid,
                data,
                pos,
            ).unwrap()[k].file_id == fid || (index.contains_key(k) && index[k] == replay_segment(
                index,
                fid,
                data,
                pos,
            ).unwrap()[k]),
    decreases data.len() - pos,
{
    match decode(tail_from(data, pos as int)) {
        Decoded::Entry { record, len } => {
            lemma_replay_segment_ids(apply(index, fid, pos, record), fid, data, pos + len);
        },
        _ => {},
    }
}

/// Every entry that replaying the segments below `bound` leaves names a
/// segment below `bound`.
pub proof fn lemma_replay_files_ids(files: Map<u64, Seq<u8>>, bound: nat)
    requires
        bound <= u64::MAX + 1,
        replay_files(files, bound) is Some,
    ensures
        forall|k: Seq<u8>| #[trigger]
            replay_files(files, bound).unwrap().contains_key(k) ==> replay_files(
                files,
                bound,
            ).unwrap()[k].file_id < bound,
    decreases bound,
{
    if bound > 0 {
        lemma_replay_files_ids(files, (bound - 1) as nat);
        let id = (bound - 1) as u64;
        if files.contains_key(id) {
            lemma_replay_segment_ids(
                replay_files(files, (bound - 1) as nat).unwrap(),
                id,
                files[id],
                0,
            );
        }
    }
}

/// `alone` holds the entries of `whole` that name a segment from `lo` on,
/// and no others.
pub open spec fn entries_from(
    whole: Map<Seq<u8>, Index>,
    alone: Map<Seq<u8>, Index>,
    lo: u64,
) -> bool {
    &&& forall|k: Seq<u8>| #[trigger]
        alone.contains_key(k) <==> whole.contains_key(k) && whole[k].file_id >= lo
    &&& forall|k: Seq<u8>| #[trigger] alone.contains_key(k) ==> alone[k] == whole[k]
}

/// Replaying a segment from `lo` on without the segments below `lo` gives the
/// entries that name a segment from `lo` on among those that replaying it
/// after them gives.
pub proof fn lemma_replay_alone(
    whole: Map<Seq<u8>, Index>,
    alone: Map<Seq<u8>, Index>,
    lo: u64,
    fid: u64,
    data: Seq<u8>,
    pos: nat,
)
    requires
        fid >= lo,
        replay_segment(whole, fid, data, pos) is Some,
        entries_from(whole, alone, lo),
    ensures
        replay_segment(alone, fid, data, pos) is Some,
        entries_from(
            replay_segment(whole, fid, data, pos).unwrap(),
            replay_segment(alone, fid, data, pos).unwrap(),
            lo,
        ),
    decreases data.len() - pos,
{
    match decode(tail_from(data, pos as int)) {
        Decoded::Entry { record, len } => {
            let w = apply(whole, fid, pos, record);
            let a = apply(alone, fid, pos, record);
            assert(entries_from(w, a, lo)) by {
                assert forall|k: Seq<u8>| #[trigger]
                    a.contains_key(k) <==> w.contains_key(k) && w[k].file_id >= lo by {
                    if k != record.key() {
                        assert(alone.contains_key(k) <==> whole.contains_key(k) && whole[k].file_id
                            >= lo);
                    }
                }
                assert forall|k: Seq<u8>| #[trigger] a.contains_key(k) implies a[k] == w[k] by {
                    if k != record.key() {
                        assert(alone.contains_key(k));
                    }
                }
            }
            lemma_replay_alone(w, a, lo, fid, data, pos + len);
        },
        _ => {},
    }
}

/// Replaying the segments from `lo` on without those below gives the entries
/// that name a segment from `lo` on among those that replaying every segment
/// gives.
pub proof fn lemma_replay_files_above(
    files: Map<u64, Seq<u8>>,
    kept: Map<u64, Seq<u8>>,
    lo: u64,
    bound: nat,
)
    requires
        lo <= bound <= u64::MAX + 1,
        forall|id: u64| #[trigger] kept.contains_key(id) <==> files.contains_key(id) && id >= lo,
        forall|id: u64| #[trigger] kept.contains_key(id) ==> kept[id] == files[id],
        replay_files(files, bound) is Some,
    ensures
        replay_files(kept, bound) is Some,
        entries_from(
            replay_files(files, bound).unwrap(),
            replay_files(kept, bound).unwrap(),
            lo,
        ),
    decreases bound,
{
    if bound > lo {
        let id = (bound - 1) as u64;
        if replay_files(files, (bound - 1) as nat) is None {
            lemma_replay_files_none(files, (bound - 1) as nat, bound);
        }
        lemma_replay_files_above(files, kept, lo, (bound - 1) as nat);
        assert(kept.contains_key(id) <==> files.contains_key(id) && id >= lo);
        if files.contains_key(id) {
            lemma_replay_alone(
                replay_files(files, (bound - 1) as nat).unwrap(),
                replay_files(kept, (bound - 1) as nat).unwrap(),
                lo,
                id,
                files[id],
                0,
            );
        }
    } else {
        assert forall|id: u64| 0 <= id < lo implies !kept.contains_key(id) by {
            assert(kept.contains_key(id) <==> files.contains_key(id) && id >= lo);
        }
        lemma_replay_files_gap(kept, 0, lo as nat);
        lemma_replay_files_ids(files, lo as nat);
    }
}

/// The entries that name a segment below `lo` were there when the segments
/// below `lo` had been replayed.
pub proof fn lemma_replay_files_old(files: Map<u64, Seq<u8>>, lo: u64, bound: nat)
    requires
        lo <= bound <= u64::MAX + 1,
        replay_files(files, bound) is Some,
    ensures
        replay_files(files, lo as nat) is Some,
        forall|k: Seq<u8>| #[trigger]
            replay_files(files, bound).unwrap().contains_key(k) && replay_files(
                files,
                bound,
            ).unwrap()[k].file_id < lo ==> replay_files(files, lo as nat).unwrap().contains_key(k)
                && replay_files(files, lo as nat).unwrap()[k] == replay_files(
                files,
                bound,
            ).unwrap()[k],
    decreases bound,
{
    if bound > lo {
        let id = (bound - 1) as u64;
        if replay_files(files, (bound - 1) as nat) is None {
            lemma_replay_files_none(files, (bound - 1) as nat, bound);
        }
        lemma_replay_files_old(files, lo, (bound - 1) as nat);
        if files.contains_key(id) {
            lemma_replay_segment_ids(
                replay_files(files, (bound - 1) as nat).unwrap(),
                id,
                files[id],
                0,
            );
        }
    }
}

} // verus!
