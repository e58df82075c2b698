//! What holds of the engine in every consistent state.

use crate::crc::crc32;
use crate::error::KvsError;
use crate::fs::tail_from;
use crate::model::{
    carried, compacted, lemma_append, lemma_get_by_contents, lemma_recovered_wf, merged, recovered,
    StoreView,
};
use crate::replay::{
    apply, lemma_points_to_append, lemma_replay_files_frame, lemma_replay_files_gap,
    lemma_replay_files_none, lemma_tail_append, log_end, points_to, replay_files, replay_segment,
    value_at,
};
use crate::segments::is_next_id;
use crate::slack::{law_stale_record_is_room, stale_at};
use crate::wire::lemma_le_round_trip;
use crate::xchg::{
    decode, lemma_decode_encode, lemma_decode_is_encoding, lemma_decode_prefix, lemma_encode_len,
    Decoded, HEADER_LEN, Index, Record,
};
use vstd::bytes::{spec_u32_from_le_bytes, spec_u32_to_le_bytes};
use vstd::prelude::*;

verus! {

/// After `set(key, value)` the engine is consistent and `get(key)` gives
/// `value`.
pub proof fn law_set_then_get(s: StoreView, key: Seq<u8>, value: Seq<u8>, timestamp: i64)
    requires
        s.wf(),
        s.write_fits(key, value),
    ensures
        s.set(key, value, timestamp).wf(),
        s.set(key, value, timestamp).get(key) == Some(value),
{
    let record = Record::Write { key, value, timestamp };
    lemma_encode_len(record);
    lemma_append(s, record);
    let t = s.set(key, value, timestamp);
    assert(t.contents().contains_key(key));
    assert(t.contents()[key] == value);
}

/// After a `remove(key)` that succeeds the engine is consistent and
/// `get(key)` gives nothing.
pub proof fn law_remove_then_get(s: StoreView, key: Seq<u8>, timestamp: i64)
    requires
        s.wf(),
        s.index.contains_key(key),
        s.delete_fits(key),
    ensures
        s.remove(key, timestamp).wf(),
        s.remove(key, timestamp).get(key) == None::<Seq<u8>>,
{
    let record = Record::Delete { key, timestamp };
    lemma_encode_len(record);
    lemma_append(s, record);
}

/// A write or deletion of one key leaves what `get` gives for every other
/// key as it was.
pub proof fn law_other_keys_keep(s: StoreView, record: Record, other: Seq<u8>)
    requires
        s.wf(),
        record.encodable(),
        s.has_room(record),
        record.key() != other,
    ensures
        s.append(record).get(other) == s.get(other),
{
    lemma_append(s, record);
    let t = s.append(record);
    if s.index.contains_key(other) {
        assert(s.contents().contains_key(other));
        assert(t.contents().contains_key(other));
        assert(t.contents()[other] == s.contents()[other]);
    } else {
        assert(!s.contents().contains_key(other));
        assert(!t.contents().contains_key(other));
    }
}

/// Setting a key to the value that it has changes nothing that `get` gives:
/// `set(k, v); set(k, v)` holds what `set(k, v)` holds.
pub proof fn law_set_idempotent(
    s: StoreView,
    key: Seq<u8>,
    value: Seq<u8>,
    first: i64,
    second: i64,
)
    requires
        s.wf(),
        s.write_fits(key, value),
        s.set(key, value, first).write_fits(key, value),
    ensures
        s.set(key, value, first).set(key, value, second).wf(),
        s.set(key, value, first).set(key, value, second).contents() == s.set(
            key,
            value,
            first,
        ).contents(),
{
    let a = Record::Write { key, value, timestamp: first };
    let b = Record::Write { key, value, timestamp: second };
    lemma_encode_len(a);
    lemma_encode_len(b);
    lemma_append(s, a);
    lemma_append(s.append(a), b);
    assert(s.contents().insert(key, value).insert(key, value) =~= s.contents().insert(key, value));
}

/// Two states that hold the same give the same for every `get`.
pub proof fn law_get_by_contents(a: StoreView, b: StoreView, key: Seq<u8>)
    requires
        a.contents() == b.contents(),
    ensures
        a.get(key) == b.get(key),
{
    lemma_get_by_contents(a, a.contents(), key);
    lemma_get_by_contents(b, a.contents(), key);
}

/// Compaction keeps what the engine holds, so that `get` gives for every key
/// what it gave before, every entry names the bytes that it named, and the
/// segments together do not grow.
pub proof fn law_compaction(before: StoreView, after: StoreView, key: Seq<u8>)
    requires
        before.wf(),
        compacted(before, after),
    ensures
        after.wf(),
        after.get(key) == before.get(key),
        before.index.contains_key(key) ==> carried(
            before,
            after,
            (before.active_fid + 1) as u64,
            key,
        ) && after.index[key].file_id == after.active_fid,
        after.total_size() <= before.total_size(),
{
    if before.index.contains_key(key) {
        assert(points_to(before.files, key, before.index[key]));
    }
}

/// Compaction reclaims the room of stale records: where a segment held a
/// deletion, or a write that the index no longer named, the segments are
/// together shorter afterwards.
pub proof fn law_compaction_shrinks(before: StoreView, after: StoreView, id: u64, at: nat)
    requires
        before.wf(),
        compacted(before, after),
        stale_at(before, id, at),
    ensures
        after.total_size() < before.total_size(),
{
    law_stale_record_is_room(before, id, at);
}

/// Merging the sealed segments keeps what the engine holds, so that `get`
/// gives for every key what it gave before, every entry names the bytes that
/// it named, and the segments together do not grow.
pub proof fn law_merge(before: StoreView, after: StoreView, key: Seq<u8>)
    requires
        before.wf(),
        merged(before, after),
    ensures
        after.wf(),
        after.get(key) == before.get(key),
        before.index.contains_key(key) ==> carried(before, after, before.active_fid, key),
        after.total_size() <= before.total_size(),
{
}

/// Closing a consistent engine and opening its segments again gives a
/// consistent engine that holds the same: the index that recovery rebuilds is
/// the index that the engine had. The engine must have an id left for the new
/// active segment.
pub proof fn law_reopen(s: StoreView)
    requires
        s.wf(),
        s.active_fid < u64::MAX,
    ensures
        is_next_id(s.files, (s.active_fid + 1) as u64),
        replay_files(s.files, u64::MAX as nat + 1) is Some,
        !s.files.contains_key(u64::MAX),
        recovered(s.files, (s.active_fid + 1) as u64).wf(),
        recovered(s.files, (s.active_fid + 1) as u64).index == s.index,
        recovered(s.files, (s.active_fid + 1) as u64).contents() == s.contents(),
        forall|key: Seq<u8>|
            #[trigger] recovered(s.files, (s.active_fid + 1) as u64).get(key) == s.get(key),
{
    let next = (s.active_fid + 1) as u64;
    let t = recovered(s.files, next);
    lemma_recovered_wf(s.files, next);
    lemma_replay_files_gap(s.files, next as nat, u64::MAX as nat + 1);
    assert forall|k: Seq<u8>| #[trigger] s.index.contains_key(k) implies value_at(
        t.files,
        t.index[k],
    ) == value_at(s.files, s.index[k]) by {
        assert(points_to(s.files, k, s.index[k]));
    }
    assert(t.contents() =~= s.contents());
    assert forall|key: Seq<u8>| #[trigger] t.get(key) == s.get(key) by {
        law_get_by_contents(t, s, key);
    }
}

/// A record whose stored checksum was changed is found corrupt, whatever
/// follows it.
pub proof fn law_checksum_change_detected(record: Record, changed: Seq<u8>, rest: Seq<u8>)
    requires
        record.encodable(),
        changed.len() == record.encode().len(),
        changed != record.encode(),
        changed.subrange(4, changed.len() as int) == record.body(),
    ensures
        decode(changed + rest) == Decoded::Corrupt,
{
    lemma_le_round_trip();
    lemma_encode_len(record);
    lemma_decode_encode(record, rest);
    let good = record.encode();
    let s = good + rest;
    let u = changed + rest;
    let n = record.encoded_len() as int;
    assert(good.subrange(4, n) =~= record.body());
    assert(u.subrange(5, 13) =~= s.subrange(5, 13));
    assert(u.subrange(13, 21) =~= s.subrange(13, 21));
    assert(u[4] == changed.subrange(4, n)[0]);
    assert(s[4] == good.subrange(4, n)[0]);
    assert(u.subrange(4, n) =~= s.subrange(4, n));
    if u.len() >= 29 {
        assert(u.subrange(21, 29) =~= s.subrange(21, 29));
    }
    if spec_u32_from_le_bytes(u.subrange(0, 4)) == spec_u32_from_le_bytes(s.subrange(0, 4)) {
        assert(spec_u32_to_le_bytes(spec_u32_from_le_bytes(u.subrange(0, 4))) == u.subrange(0, 4));
        assert(spec_u32_to_le_bytes(spec_u32_from_le_bytes(s.subrange(0, 4))) == s.subrange(0, 4));
        assert(changed =~= changed.subrange(0, 4) + changed.subrange(4, n));
        assert(good =~= good.subrange(0, 4) + good.subrange(4, n));
        assert(changed.subrange(0, 4) =~= u.subrange(0, 4));
        assert(good.subrange(0, 4) =~= s.subrange(0, 4));
        assert(false);
    }
}

/// A record whose body was changed is found corrupt, unless the changed
/// bytes hold a record whose body has the checksum that was stored: what is
/// read is never a record that fails its checksum.
pub proof fn law_body_change_detected(record: Record, changed: Seq<u8>, rest: Seq<u8>)
    requires
        record.encodable(),
        changed.len() == record.encode().len(),
        changed.subrange(0, 4) == record.encode().subrange(0, 4),
        changed != record.encode(),
    ensures
        decode(changed + rest) == Decoded::Corrupt || (decode(changed + rest) is Entry
            && decode(changed + rest)->record != record
            && crc32(decode(changed + rest)->record.body()) == crc32(record.body())),
{
    lemma_le_round_trip();
    lemma_encode_len(record);
    let good = record.encode();
    let u = changed + rest;
    assert(u.subrange(0, 4) =~= changed.subrange(0, 4));
    assert(good.subrange(0, 4) =~= spec_u32_to_le_bytes(crc32(record.body())));
    if decode(u) is Entry {
        lemma_decode_is_encoding(u);
        let found = decode(u)->record;
        let n = decode(u)->len as int;
        assert(u.subrange(0, n) == found.encode());
        assert(found.encode().subrange(0, 4) =~= spec_u32_to_le_bytes(crc32(found.body())));
        assert(u.subrange(0, n).subrange(0, 4) =~= u.subrange(0, 4));
        if found == record {
            assert(u.subrange(0, n) =~= changed);
        }
    }
}

/// The state `s` with the live record of `key` overwritten by `changed`.
pub open spec fn with_record(s: StoreView, key: Seq<u8>, changed: Seq<u8>) -> StoreView {
    let e = s.index[key];
    let data = s.files[e.file_id];
    StoreView {
        active_fid: s.active_fid,
        files: s.files.insert(
            e.file_id,
            data.subrange(0, e.pos as int) + changed + data.subrange(
                e.pos + e.len,
                data.len() as int,
            ),
        ),
        index: s.index,
    }
}

/// Damage to the live record of a key shows when the key is read. Where the
/// stored checksum or the body was changed, and the rest of the record left
/// as it was, `get` fails with `Corrupt`; it can answer only where the
/// changed bytes hold another record whose body has the checksum of the
/// record that was written.
pub proof fn law_damage_shows_at_get(s: StoreView, key: Seq<u8>, changed: Seq<u8>)
    requires
        s.wf(),
        s.index.contains_key(key),
        changed.len() == s.index[key].len,
        changed != s.files[s.index[key].file_id].subrange(
            s.index[key].pos as int,
            s.index[key].pos + s.index[key].len,
        ),
        changed.subrange(0, 4) == s.files[s.index[key].file_id].subrange(
            s.index[key].pos as int,
            s.index[key].pos + 4,
        ) || changed.subrange(4, changed.len() as int) == s.files[s.index[key].file_id].subrange(
            s.index[key].pos + 4,
            s.index[key].pos + s.index[key].len,
        ),
    ensures
        ({
            let e = s.index[key];
            let written = decode(tail_from(s.files[e.file_id], e.pos as int))->record;
            let found = decode(tail_from(with_record(s, key, changed).files[e.file_id], e.pos as int));
            with_record(s, key, changed).read(key) == Err::<Option<Seq<u8>>, KvsError>(
                KvsError::Corrupt,
            ) || (found is Entry && found->record != written && crc32(found->record.body()) == crc32(
                written.body(),
            ))
        }),
{
    let e = s.index[key];
    let data = s.files[e.file_id];
    let pos = e.pos as int;
    let len = e.len as int;
    assert(points_to(s.files, key, e));
    let tail = tail_from(data, pos);
    lemma_decode_is_encoding(tail);
    let written = decode(tail)->record;
    lemma_encode_len(written);
    let rest = data.subrange(pos + len, data.len() as int);
    let t = with_record(s, key, changed);
    let damaged = t.files[e.file_id];
    assert(tail_from(damaged, pos) =~= changed + rest);
    assert(tail.subrange(0, len) =~= data.subrange(pos, pos + len));
    assert(written.encode().subrange(0, 4) =~= data.subrange(pos, pos + 4));
    assert(written.encode().subrange(4, len) =~= data.subrange(pos + 4, pos + len));
    assert(written.encode().subrange(4, len) =~= written.body());
    if changed.subrange(0, 4) == data.subrange(pos, pos + 4) {
        law_body_change_detected(written, changed, rest);
    } else {
        law_checksum_change_detected(written, changed, rest);
    }
}

/// A record cut short at the end of the active segment is harmless. Where
/// fewer bytes than a header were written, the segments open again to an
/// engine that holds what the engine held. Where more were written, opening
/// fails with `Corrupt` rather than give a wrong value.
pub proof fn law_truncated_tail(s: StoreView, record: Record, cut: int)
    requires
        s.wf(),
        s.active_fid < u64::MAX,
        record.encodable(),
        0 <= cut < record.encode().len(),
        s.active().len() + cut <= usize::MAX,
    ensures
        ({
            let torn = s.files.insert(s.active_fid, s.active() + record.encode().take(cut));
            let next = (s.active_fid + 1) as u64;
            &&& is_next_id(torn, next)
            &&& !torn.contains_key(u64::MAX)
            &&& if cut < HEADER_LEN {
                &&& replay_files(torn, u64::MAX as nat + 1) is Some
                &&& recovered(torn, next).wf()
                &&& recovered(torn, next).contents() == s.contents()
                &&& forall|key: Seq<u8>| #[trigger] recovered(torn, next).get(key) == s.get(key)
            } else {
                replay_files(torn, u64::MAX as nat + 1) is None
            }
        }),
{
    let a = s.active_fid;
    let next = (a + 1) as u64;
    let piece = record.encode().take(cut);
    let torn = s.files.insert(a, s.active() + piece);
    lemma_encode_len(record);
    lemma_replay_files_frame(s.files, torn, a as nat);
    let base = replay_files(s.files, a as nat).unwrap();
    lemma_torn_segment(base, a, s.active(), 0, record, cut);
    assert(replay_files(torn, next as nat) == replay_segment(base, a, s.active() + piece, 0));
    if cut < HEADER_LEN {
        assert(replay_files(torn, next as nat) == Some(s.index));
        assert forall|id: u64| #[trigger] torn.contains_key(id) implies torn[id].len()
            <= usize::MAX && id < next by {
            if id != a {
                assert(s.files.contains_key(id));
            }
        }
        lemma_recovered_wf(torn, next);
        let t = recovered(torn, next);
        assert forall|k: Seq<u8>| #[trigger] s.index.contains_key(k) implies value_at(
            t.files,
            t.index[k],
        ) == value_at(s.files, s.index[k]) by {
            assert(points_to(s.files, k, s.index[k]));
            lemma_points_to_append(s.files, a, piece, k, s.index[k]);
        }
        assert(t.contents() =~= s.contents());
        assert forall|key: Seq<u8>| #[trigger] t.get(key) == s.get(key) by {
            law_get_by_contents(t, s, key);
        }
        lemma_replay_files_gap(torn, next as nat, u64::MAX as nat + 1);
    } else {
        lemma_replay_files_none(torn, next as nat, u64::MAX as nat + 1);
    }
}

/// Replaying a segment that ends with a record cut short: the same index
/// where fewer bytes than a header are left of the record, and a failure
/// where more are.
proof fn lemma_torn_segment(
    index: Map<Seq<u8>, Index>,
    fid: u64,
    data: Seq<u8>,
    pos: nat,
    record: Record,
    cut: int,
)
    requires
        pos <= data.len(),
        log_end(data, pos) == Some(data.len()),
        record.encodable(),
        0 <= cut < record.encode().len(),
    ensures
        cut < HEADER_LEN ==> replay_segment(index, fid, data + record.encode().take(cut), pos)
            == replay_segment(index, fid, data, pos),
        cut >= HEADER_LEN ==> replay_segment(index, fid, data + record.encode().take(cut), pos)
            is None,
    decreases data.len() - pos,
{
    let piece = record.encode().take(cut);
    lemma_tail_append(data, piece, pos);
    match decode(tail_from(data, pos as int)) {
        Decoded::Eof => {
            assert(tail_from(data, pos as int) + piece =~= piece);
            if cut >= HEADER_LEN {
                lemma_cut_record_corrupt(record, cut);
            }
        },
        Decoded::Corrupt => {},
        Decoded::Entry { record: r, len } => {
            lemma_decode_prefix(tail_from(data, pos as int), piece);
            lemma_torn_segment(apply(index, fid, pos, r), fid, data, pos + len, record, cut);
        },
    }
}

/// A record cut short after its header is found corrupt.
proof fn lemma_cut_record_corrupt(record: Record, cut: int)
    requires
        record.encodable(),
        HEADER_LEN <= cut < record.encode().len(),
    ensures
        decode(record.encode().take(cut)) == Decoded::Corrupt,
{
    lemma_le_round_trip();
    lemma_encode_len(record);
    lemma_decode_encode(record, Seq::empty());
    let s = record.encode();
    let t = s.take(cut);
    assert(s + Seq::<u8>::empty() =~= s);
    assert(t.subrange(0, 4) =~= s.subrange(0, 4));
    assert(t.subrange(5, 13) =~= s.subrange(5, 13));
    assert(t.subrange(13, 21) =~= s.subrange(13, 21));
    assert(t[4] == s[4]);
    if cut >= 29 {
        assert(t.subrange(21, 29) =~= s.subrange(21, 29));
    }
}

} // verus!
