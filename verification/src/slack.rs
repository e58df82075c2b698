//! Stale records: a deletion, or a write that a later record has overtaken,
//! takes room in a segment that no live record accounts for.

use crate::accounting::{
    lemma_live_insert, lemma_live_remove, lemma_replay_files_bytes, lemma_size_grows,
    lemma_sum_congruent, lemma_sum_remove, len_of, live_bytes, size_below,
};
use crate::fs::tail_from;
use crate::model::StoreView;
use crate::replay::{
    apply, lemma_replay_files_finite, lemma_replay_files_none, points_to, replay_files,
    replay_segment,
};
use crate::xchg::{
    decode, lemma_decode_is_encoding, lemma_encode_len, Decoded, HEADER_LEN, Index, Record,
};
use vstd::prelude::*;

verus! {

/// A record starts at offset `at` of `data`, reading record by record from
/// `pos`.
pub open spec fn starts_at(data: Seq<u8>, pos: nat, at: nat) -> bool
    decreases data.len() - pos,
{
    match decode(tail_from(data, pos as int)) {
        Decoded::Entry { record, len } => if HEADER_LEN <= len && pos + len <= data.len() {
            at == pos || starts_at(data, pos + len, at)
        } else {
            false
        },
        _ => false,
    }
}

/// The entry that a record at offset `at` of segment `fid` gets.
pub open spec fn entry_of(fid: u64, at: nat, record: Record) -> Index {
    Index {
        file_id: fid,
        pos: at as u64,
        len: record.encoded_len() as u64,
        timestamp: record.timestamp(),
    }
}

/// The record at offset `at` of segment `id` is stale: it is a deletion, or
/// a write that the index does not name.
pub open spec fn stale_at(s: StoreView, id: u64, at: nat) -> bool {
    &&& s.files.contains_key(id)
    &&& starts_at(s.files[id], 0, at)
    &&& ({
        let r = decode(tail_from(s.files[id], at as int))->record;
        r is Delete || !(s.index.contains_key(r.key()) && s.index[r.key()].file_id == id
            && s.index[r.key()].pos == at)
    })
}

/// The live bytes of `index` fit `room`, and `gap` more bytes fit unless the
/// entry `e` of key `k` is still live.
pub open spec fn within(
    index: Map<Seq<u8>, Index>,
    k: Seq<u8>,
    e: Index,
    gap: nat,
    room: nat,
) -> bool {
    live_bytes(index) + (if index.contains_key(k) && index[k] == e {
        0nat
    } else {
        gap
    }) <= room
}

/// Replacing the entry of a key changes the live bytes by the change of
/// length.
pub proof fn lemma_live_replace(index: Map<Seq<u8>, Index>, k: Seq<u8>, e: Index)
    requires
        index.dom().finite(),
        index.contains_key(k),
    ensures
        live_bytes(index.insert(k, e)) + index[k].len == live_bytes(index) + e.len,
        live_bytes(index.remove(k)) + index[k].len == live_bytes(index),
{
    let put = index.insert(k, e);
    let cut = index.remove(k);
    assert(put.dom() =~= index.dom());
    assert(cut.dom() =~= index.dom().remove(k));
    lemma_sum_remove(index.dom(), len_of(index), k);
    lemma_sum_remove(index.dom(), len_of(put), k);
    lemma_sum_congruent(index.dom().remove(k), len_of(index), len_of(put));
    lemma_sum_congruent(index.dom().remove(k), len_of(index), len_of(cut));
}

/// One more record keeps the account, where the record does not stand at
/// the place of `e`.
pub proof fn lemma_within_step(
    index: Map<Seq<u8>, Index>,
    fid: u64,
    pos: nat,
    record: Record,
    k: Seq<u8>,
    e: Index,
    gap: nat,
    room: nat,
)
    requires
        index.dom().finite(),
        within(index, k, e, gap, room),
        gap == e.len,
        pos <= u64::MAX,
        record.encoded_len() <= u64::MAX,
        fid != e.file_id || pos != e.pos,
    ensures
        within(apply(index, fid, pos, record), k, e, gap, room + record.encoded_len()),
{
    let next = apply(index, fid, pos, record);
    match record {
        Record::Write { key, value, timestamp } => {
            let put = next[key];
            lemma_live_insert(index, key, put);
            if index.contains_key(key) {
                lemma_live_replace(index, key, put);
            }
        },
        Record::Delete { key, .. } => {
            lemma_live_remove(index, key);
            if index.contains_key(key) {
                lemma_live_replace(index, key, index[key]);
            }
        },
    }
}

/// The rest of a segment keeps the account, where it lies behind the place
/// of `e`.
pub proof fn lemma_within_segment(
    index: Map<Seq<u8>, Index>,
    fid: u64,
    data: Seq<u8>,
    pos: nat,
    k: Seq<u8>,
    e: Index,
    gap: nat,
    room: nat,
)
    requires
        index.dom().finite(),
        within(index, k, e, gap, room),
        gap == e.len,
        pos <= data.len() <= usize::MAX,
        replay_segment(index, fid, data, pos) is Some,
        fid != e.file_id || pos > e.pos,
    ensures
        within(
            replay_segment(index, fid, data, pos).unwrap(),
            k,
            e,
            gap,
            (room + data.len() - pos) as nat,
        ),
    decreases data.len() - pos,
{
    match decode(tail_from(data, pos as int)) {
        Decoded::Entry { record, len } => {
            lemma_decode_is_encoding(tail_from(data, pos as int));
            lemma_within_step(index, fid, pos, record, k, e, gap, room);
            lemma_within_segment(
                apply(index, fid, pos, record),
                fid,
                data,
                pos + len,
                k,
                e,
                gap,
                room + len,
            );
        },
        _ => {},
    }
}

/// The later segments keep the account.
pub proof fn lemma_within_files(
    files: Map<u64, Seq<u8>>,
    lo: nat,
    bound: nat,
    k: Seq<u8>,
    e: Index,
    gap: nat,
)
    requires
        lo <= bound <= u64::MAX + 1,
        e.file_id < lo,
        gap == e.len,
        forall|id: u64| #[trigger] files.contains_key(id) ==> files[id].len() <= usize::MAX,
        replay_files(files, bound) is Some,
        replay_files(files, lo) is Some,
        within(replay_files(files, lo).unwrap(), k, e, gap, size_below(files, lo)),
    ensures
        within(replay_files(files, bound).unwrap(), k, e, gap, size_below(files, bound)),
    decreases bound - lo,
{
    if lo < bound {
        let id = (bound - 1) as u64;
        if replay_files(files, (bound - 1) as nat) is None {
            lemma_replay_files_none(files, (bound - 1) as nat, bound);
        }
        lemma_within_files(files, lo, (bound - 1) as nat, k, e, gap);
        lemma_replay_files_finite(files, (bound - 1) as nat);
        if files.contains_key(id) {
            lemma_within_segment(
                replay_files(files, (bound - 1) as nat).unwrap(),
                id,
                files[id],
                0,
                k,
                e,
                gap,
                size_below(files, (bound - 1) as nat),
            );
        }
    }
}

/// A segment with a record at `at` leaves the account of that record: its
/// bytes are live while its entry stands, and a gap from then on.
pub proof fn lemma_stale_segment(
    index: Map<Seq<u8>, Index>,
    fid: u64,
    data: Seq<u8>,
    pos: nat,
    at: nat,
    room: nat,
)
    requires
        index.dom().finite(),
        live_bytes(index) <= room,
        pos <= data.len() <= usize::MAX,
        starts_at(data, pos, at),
        replay_segment(index, fid, data, pos) is Some,
    ensures
        ({
            let r = decode(tail_from(data, at as int))->record;
            within(
                replay_segment(index, fid, data, pos).unwrap(),
                r.key(),
                entry_of(fid, at, r),
                r.encoded_len(),
                (room + data.len() - pos) as nat,
            )
        }),
    decreases data.len() - pos,
{
    match decode(tail_from(data, pos as int)) {
        Decoded::Entry { record, len } => {
            lemma_decode_is_encoding(tail_from(data, pos as int));
            let next = apply(index, fid, pos, record);
            match record {
                Record::Write { key, value, timestamp } => {
                    lemma_live_insert(index, key, next[key]);
                },
                Record::Delete { key, .. } => {
                    lemma_live_remove(index, key);
                },
            }
            if at == pos {
                lemma_within_segment(
                    next,
                    fid,
                    data,
                    pos + len,
                    record.key(),
                    entry_of(fid, at, record),
                    record.encoded_len(),
                    room + len,
                );
            } else {
                lemma_stale_segment(next, fid, data, pos + len, at, room + len);
            }
        },
        _ => {},
    }
}

/// Where a segment holds a stale record, the live records are together
/// shorter than the segments: the room of the stale record is free.
pub proof fn law_stale_record_is_room(s: StoreView, id: u64, at: nat)
    requires
        s.wf(),
        stale_at(s, id, at),
    ensures
        live_bytes(s.index) + HEADER_LEN <= s.total_size(),
{
    let files = s.files;
    let top = s.active_fid as nat + 1;
    let data = files[id];
    let r = decode(tail_from(data, at as int))->record;
    let e = entry_of(id, at, r);
    if replay_files(files, id as nat) is None {
        lemma_replay_files_none(files, id as nat, top);
    }
    if replay_files(files, id as nat + 1) is None {
        lemma_replay_files_none(files, id as nat + 1, top);
    }
    lemma_starts_in(data, 0, at);
    lemma_decode_is_encoding(tail_from(data, at as int));
    lemma_encode_len(r);
    let before = replay_files(files, id as nat).unwrap();
    lemma_replay_files_finite(files, id as nat);
    lemma_replay_files_bytes(files, id as nat);
    lemma_stale_segment(before, id, data, 0, at, size_below(files, id as nat));
    lemma_within_files(files, id as nat + 1, top, r.key(), e, r.encoded_len());
    lemma_size_grows(files, top, u64::MAX as nat + 1);
    if s.index.contains_key(r.key()) && s.index[r.key()] == e {
        assert(points_to(files, r.key(), s.index[r.key()]));
    }
}

/// A record that starts at `at` is a record, and lies within the segment.
pub proof fn lemma_starts_in(data: Seq<u8>, pos: nat, at: nat)
    requires
        starts_at(data, pos, at),
    ensures
        pos <= at,
        at < data.len(),
        decode(tail_from(data, at as int)) is Entry,
    decreases data.len() - pos,
{
    match decode(tail_from(data, pos as int)) {
        Decoded::Entry { record, len } => {
            if at != pos {
                lemma_starts_in(data, pos + len, at);
            }
        },
        _ => {},
    }
}

} // verus!
