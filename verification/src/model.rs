//! The engine as mathematics: its state, when a state is consistent, and
//! what each operation does to it.

use crate::accounting::{
    entries_below, holds_from, lemma_live_insert, lemma_live_remove, lemma_live_subset,
    lemma_replay_files_bytes, lemma_size_frame, lemma_size_grows, lemma_size_insert,
    lemma_size_split, live_bytes, size_below,
};
use crate::error::{IoErrorKind, KvsError};
use crate::fs::tail_from;
use crate::replay::{
    apply, bytes_at, entries_from, lemma_log_end_append, lemma_points_to_append,
    lemma_replay_append, lemma_replay_files_above, lemma_replay_files_finite,
    lemma_replay_files_frame, lemma_replay_files_old, lemma_replay_files_points, log_end,
    points_to, replay_files, value_at,
};
use crate::xchg::{decode, lemma_decode_encode, lemma_encode_len, Decoded, Index, Record};
use vstd::prelude::*;

verus! {

/// The state of an engine.
pub struct StoreView {
    /// The id of the segment that takes appends.
    pub active_fid: u64,
    /// Every segment, by id.
    pub files: Map<u64, Seq<u8>>,
    /// For each live key, the place of its record.
    pub index: Map<Seq<u8>, Index>,
}

impl StoreView {
    /// The bytes of the active segment.
    pub open spec fn active(self) -> Seq<u8> {
        self.files[self.active_fid]
    }

    /// The state is consistent: the active segment has the greatest id and
    /// ends on a record boundary, the index is what replaying every segment
    /// in order of id gives, every entry names a record of its key, and the
    /// records that the entries name are together no longer than the
    /// segments.
    pub open spec fn wf(self) -> bool {
        &&& self.files.dom().finite()
        &&& self.files.contains_key(self.active_fid)
        &&& forall|id: u64| #[trigger] self.files.contains_key(id) ==> id <= self.active_fid
        &&& forall|id: u64| #[trigger]
            self.files.contains_key(id) ==> self.files[id].len() <= usize::MAX
        &&& log_end(self.active(), 0) == Some(self.active().len())
        &&& replay_files(self.files, self.active_fid as nat + 1) == Some(self.index)
        &&& self.index.dom().finite()
        &&& forall|k: Seq<u8>| #[trigger]
            self.index.contains_key(k) ==> points_to(self.files, k, self.index[k])
        &&& live_bytes(self.index) <= self.total_size()
    }

    /// What the engine holds: for each live key, its value.
    pub open spec fn contents(self) -> Map<Seq<u8>, Seq<u8>> {
        Map::new(
            |k: Seq<u8>| self.index.contains_key(k),
            |k: Seq<u8>| value_at(self.files, self.index[k]),
        )
    }

    /// What `get` finds for `key`.
    pub open spec fn get(self, key: Seq<u8>) -> Option<Seq<u8>> {
        if self.index.contains_key(key) {
            Some(value_at(self.files, self.index[key]))
        } else {
            None
        }
    }

    /// The active segment can take `record`.
    pub open spec fn has_room(self, record: Record) -> bool {
        self.active().len() + record.encoded_len() <= usize::MAX
    }

    /// The active segment can take a write of `key` and `value`.
    pub open spec fn write_fits(self, key: Seq<u8>, value: Seq<u8>) -> bool {
        self.has_room(Record::Write { key, value, timestamp: 0 })
    }

    /// The active segment can take a deletion of `key`.
    pub open spec fn delete_fits(self, key: Seq<u8>) -> bool {
        self.has_room(Record::Delete { key, timestamp: 0 })
    }

    /// The state after `record` is appended to the active segment and applied
    /// to the index.
    pub open spec fn append(self, record: Record) -> StoreView {
        StoreView {
            active_fid: self.active_fid,
            files: self.files.insert(self.active_fid, self.active() + record.encode()),
            index: apply(self.index, self.active_fid, self.active().len(), record),
        }
    }

    /// The state after `set(key, value)` at time `timestamp`.
    pub open spec fn set(self, key: Seq<u8>, value: Seq<u8>, timestamp: i64) -> StoreView {
        self.append(Record::Write { key, value, timestamp })
    }

    /// The state after a successful `remove(key)` at time `timestamp`.
    pub open spec fn remove(self, key: Seq<u8>, timestamp: i64) -> StoreView {
        self.append(Record::Delete { key, timestamp })
    }

    /// The chosen segments can be merged: each is a sealed segment, and no
    /// segment older than a chosen one is left out. Leaving an older segment
    /// out would let a write in it come back to life once a deletion in a
    /// chosen segment is dropped.
    pub open spec fn can_merge(self, chosen: Seq<u64>) -> bool {
        &&& forall|i: int|
            0 <= i < chosen.len() ==> self.files.contains_key(#[trigger] chosen[i]) && chosen[i]
                != self.active_fid
        &&& forall|i: int, id: u64|
            0 <= i < chosen.len() && #[trigger] self.files.contains_key(id) && id
                < #[trigger] chosen[i] ==> chosen.contains(id)
    }

    /// The sum of the lengths of all segments.
    pub open spec fn total_size(self) -> nat {
        size_below(self.files, u64::MAX as nat + 1)
    }

    /// What reading `key` gives in any state, consistent or not: nothing
    /// where the index has no entry, `NotFound` where the entry's segment is
    /// missing, `Corrupt` where no intact write of `key` with the entry's
    /// length stands at the entry's place, and else that write's value.
    pub open spec fn read(self, key: Seq<u8>) -> Result<Option<Seq<u8>>, KvsError> {
        if !self.index.contains_key(key) {
            Ok(None)
        } else if !self.files.contains_key(self.index[key].file_id) {
            Err(KvsError::Io(IoErrorKind::NotFound))
        } else {
            let e = self.index[key];
            match decode(tail_from(self.files[e.file_id], e.pos as int)) {
                Decoded::Entry { record: Record::Write { key: found, value, timestamp }, len } =>
                if found == key && len == e.len {
                    Ok(Some(value))
                } else {
                    Err(KvsError::Corrupt)
                },
                _ => Err(KvsError::Corrupt),
            }
        }
    }
}

/// `after` holds what `before` held, but `now` at `key`: `get(key)` gives
/// `now`, and for every other key what it gave.
pub open spec fn updates(
    before: StoreView,
    after: StoreView,
    key: Seq<u8>,
    now: Option<Seq<u8>>,
) -> bool {
    &&& after.get(key) == now
    &&& forall|other: Seq<u8>| other != key ==> #[trigger] after.get(other) == before.get(other)
}

/// The entries of the index that name a sealed segment: any but the active
/// one.
pub open spec fn sealed_entries(s: StoreView) -> Map<Seq<u8>, Index> {
    entries_below(s.index, s.active_fid)
}

/// The segments of `s` from `bound` on.
pub open spec fn kept_files(s: StoreView, bound: u64) -> Map<u64, Seq<u8>> {
    s.files.restrict(Set::new(|id: u64| id >= bound))
}

/// The entry of `k` is carried over a merge of the segments below `bound`:
/// it names the same bytes, with the length and timestamp that it had. Where
/// it named a segment from `bound` on, it is as it was; else it names the new
/// active segment.
pub open spec fn carried(before: StoreView, after: StoreView, bound: u64, k: Seq<u8>) -> bool {
    &&& after.index.contains_key(k)
    &&& after.index[k].len == before.index[k].len
    &&& after.index[k].timestamp == before.index[k].timestamp
    &&& bytes_at(after.files, after.index[k]) == bytes_at(before.files, before.index[k])
    &&& if before.index[k].file_id >= bound {
        after.index[k] == before.index[k]
    } else {
        after.index[k].file_id == after.active_fid
    }
}

/// `after` is `before` with the segments below `bound` merged: they are
/// dropped, every segment from `bound` on is kept as it was, and the new
/// active segment, whose id is the next, holds the live records of the
/// dropped ones, byte for byte. Every entry is carried over, so that the
/// engine holds what it held, and the segments together have not grown.
pub open spec fn merged_below(before: StoreView, after: StoreView, bound: u64) -> bool {
    &&& after.wf()
    &&& after.active_fid == before.active_fid + 1
    &&& forall|id: u64| #[trigger]
        after.files.contains_key(id) <==> id == after.active_fid || (id >= bound
            && before.files.contains_key(id))
    &&& forall|id: u64|
        id >= bound && #[trigger] before.files.contains_key(id) ==> after.files[id]
            == before.files[id]
    &&& after.index.dom() == before.index.dom()
    &&& forall|k: Seq<u8>| #[trigger]
        before.index.contains_key(k) ==> carried(before, after, bound, k)
    &&& after.contents() == before.contents()
    &&& forall|key: Seq<u8>| #[trigger] after.get(key) == before.get(key)
    &&& after.active().len() == live_bytes(entries_below(before.index, bound))
    &&& after.total_size() <= before.total_size()
}

/// `after` is `before` with its sealed segments merged: the segment that was
/// active is sealed and kept as it was, with the entries that name it.
pub open spec fn merged(before: StoreView, after: StoreView) -> bool {
    merged_below(before, after, before.active_fid)
}

/// `after` is `before` compacted: every segment is merged, so that one
/// segment is left, the new active one, whose bytes are the live records of
/// `before`.
pub open spec fn compacted(before: StoreView, after: StoreView) -> bool {
    &&& merged_below(before, after, (before.active_fid + 1) as u64)
    &&& after.files.dom() == set![after.active_fid]
    &&& after.active().len() == live_bytes(before.index)
    &&& after.total_size() == live_bytes(before.index)
}

/// The state that recovery gives over the segments `files`: a fresh, empty
/// active segment with id `active`, and the index that replaying gives.
pub open spec fn recovered(files: Map<u64, Seq<u8>>, active: u64) -> StoreView {
    StoreView {
        active_fid: active,
        files: files.insert(active, Seq::empty()),
        index: replay_files(files, active as nat).unwrap(),
    }
}

/// Appending a record keeps the state consistent, and changes what the
/// engine holds at the record's key only: a write puts its value there, a
/// deletion leaves nothing there.
pub proof fn lemma_append(s: StoreView, record: Record)
    requires
        s.wf(),
        record.encodable(),
        s.has_room(record),
    ensures
        s.append(record).wf(),
        s.append(record).contents() == (match record {
            Record::Write { key, value, .. } => s.contents().insert(key, value),
            Record::Delete { key, .. } => s.contents().remove(key),
        }),
        s.append(record).get(record.key()) == (match record {
            Record::Write { key, value, .. } => Some(value),
            Record::Delete { key, .. } => None,
        }),
        forall|other: Seq<u8>|
            other != record.key() ==> #[trigger] s.append(record).get(other) == s.get(other),
        s.append(record).active().len() == s.active().len() + record.encoded_len(),
{
    let a = s.active_fid;
    let data = s.active();
    let more = record.encode();
    let t = s.append(record);
    lemma_encode_len(record);
    lemma_log_end_append(data, 0, record);
    assert(t.active() == data + more);
    // the index is the replay of the grown segments
    lemma_replay_files_frame(s.files, t.files, a as nat);
    let base = replay_files(s.files, a as nat).unwrap();
    lemma_replay_append(base, a, data, 0, record);
    assert(replay_files(t.files, a as nat + 1) == Some(t.index));
    // every entry still names its record
    assert forall|k: Seq<u8>| #[trigger] t.index.contains_key(k) implies points_to(
        t.files,
        k,
        t.index[k],
    ) by {
        if k == record.key() {
            assert(tail_from(data + more, data.len() as int) =~= more + Seq::<u8>::empty());
            lemma_decode_encode(record, Seq::empty());
        } else {
            lemma_points_to_append(s.files, a, more, k, s.index[k]);
        }
    }
    assert forall|id: u64| #[trigger] t.files.contains_key(id) implies id <= t.active_fid
        && t.files[id].len() <= usize::MAX by {
        if id != a {
            assert(s.files.contains_key(id));
        }
    }
    // the live records are no longer than the segments
    lemma_size_insert(s.files, a, data + more, u64::MAX as nat + 1);
    match record {
        Record::Write { key, value, timestamp } => {
            lemma_live_insert(s.index, key, t.index[key]);
        },
        Record::Delete { key, .. } => {
            lemma_live_remove(s.index, key);
        },
    }
    // what the engine holds
    let expected = match record {
        Record::Write { key, value, .. } => s.contents().insert(key, value),
        Record::Delete { key, .. } => s.contents().remove(key),
    };
    assert forall|k: Seq<u8>| #[trigger] t.contents().contains_key(k) implies t.contents()[k]
        == expected[k] by {
        if k == record.key() {
            assert(tail_from(data + more, data.len() as int) =~= more + Seq::<u8>::empty());
            lemma_decode_encode(record, Seq::empty());
        } else {
            lemma_points_to_append(s.files, a, more, k, s.index[k]);
        }
    }
    assert(t.contents() =~= expected);
    lemma_get_by_contents(t, expected, record.key());
    assert forall|other: Seq<u8>| other != record.key() implies #[trigger] t.get(other) == s.get(
        other,
    ) by {
        lemma_get_by_contents(t, expected, other);
        lemma_get_by_contents(s, s.contents(), other);
    }
}

/// What `get` gives is what the state holds.
pub proof fn lemma_get_by_contents(s: StoreView, held: Map<Seq<u8>, Seq<u8>>, key: Seq<u8>)
    requires
        s.contents() == held,
    ensures
        s.get(key) == if held.contains_key(key) {
            Some(held[key])
        } else {
            None
        },
{
    assert(s.contents().contains_key(key) == s.index.contains_key(key));
    if s.index.contains_key(key) {
        assert(s.contents()[key] == value_at(s.files, s.index[key]));
    }
}

/// Recovery gives a consistent state.
pub proof fn lemma_recovered_wf(files: Map<u64, Seq<u8>>, active: u64)
    requires
        files.dom().finite(),
        forall|id: u64| #[trigger] files.contains_key(id) ==> files[id].len() <= usize::MAX,
        forall|id: u64| #[trigger] files.contains_key(id) ==> id < active,
        replay_files(files, active as nat) is Some,
    ensures
        recovered(files, active).wf(),
{
    let s = recovered(files, active);
    lemma_replay_files_finite(files, active as nat);
    lemma_replay_files_bytes(files, active as nat);
    lemma_size_frame(files, s.files, active as nat);
    lemma_size_grows(s.files, active as nat, u64::MAX as nat + 1);
    assert(tail_from(Seq::<u8>::empty(), 0) =~= Seq::<u8>::empty());
    lemma_replay_files_frame(files, s.files, active as nat);
    lemma_replay_files_points(s.files, active as nat);
    assert(s.active() == Seq::<u8>::empty());
    assert(replay_files(s.files, active as nat + 1) == Some(s.index));
}

/// In a consistent state, reading a key gives what the engine holds for it.
pub proof fn lemma_read_consistent(s: StoreView, key: Seq<u8>)
    requires
        s.wf(),
    ensures
        s.read(key) == Ok::<Option<Seq<u8>>, KvsError>(s.get(key)),
{
    if s.index.contains_key(key) {
        assert(points_to(s.files, key, s.index[key]));
    }
}

/// Where merging the segments below `bound` starts: the state that recovery
/// gives over the segments from `bound` on is consistent, its index holds the
/// entries that name those segments, and the other entries are together no
/// longer than the segments below `bound`.
pub proof fn lemma_kept_start(s: StoreView, bound: u64)
    requires
        s.wf(),
        s.active_fid < u64::MAX,
        bound <= s.active_fid + 1,
    ensures
        ({
            let kept = kept_files(s, bound);
            let start = recovered(kept, (s.active_fid + 1) as u64);
            &&& holds_from(s.files, kept, bound)
            &&& start.wf()
            &&& entries_from(s.index, start.index, bound)
            &&& entries_below(s.index, bound).dom().finite()
            &&& live_bytes(entries_below(s.index, bound)) + size_below(kept, u64::MAX as nat + 1)
                <= s.total_size()
        }),
{
    let a = s.active_fid;
    let next = (a + 1) as u64;
    let kept = kept_files(s, bound);
    assert(holds_from(s.files, kept, bound));
    vstd::set_lib::lemma_len_subset(kept.dom(), s.files.dom());
    lemma_replay_files_above(s.files, kept, bound, next as nat);
    assert forall|id: u64| #[trigger] kept.contains_key(id) implies kept[id].len() <= usize::MAX
        && id < next by {
        assert(s.files.contains_key(id));
    }
    lemma_recovered_wf(kept, next);
    lemma_replay_files_old(s.files, bound, next as nat);
    lemma_replay_files_finite(s.files, bound as nat);
    lemma_live_subset(entries_below(s.index, bound), replay_files(s.files, bound as nat).unwrap());
    lemma_replay_files_bytes(s.files, bound as nat);
    lemma_size_split(s.files, kept, bound, u64::MAX as nat + 1);
}

} // verus!
