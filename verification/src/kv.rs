//! The engine: segments, index, and the operations on them.

use crate::accounting::{
    entries_below, enumerates, holds_from, lemma_moved_bound, lemma_moved_bytes_grow,
    lemma_moved_is_below, lemma_size_insert, lemma_size_single, live_bytes, moved_bytes,
};
use crate::clock::now_nanos;
use crate::error::{IoErrorKind, KvsError};
use crate::fs::{copy_of, parts_of, tail_from, File};
use crate::index::{entries_of, index_entries, index_get, index_insert, index_new, index_remove};
use crate::model::{
    carried, compacted, kept_files, lemma_append, lemma_get_by_contents, lemma_kept_start,
    lemma_read_consistent, lemma_recovered_wf, merged, merged_below, recovered, sealed_entries,
    updates, StoreView,
};
use crate::replay::{
    entries_from, lemma_points_to_append, lemma_replay_files_gap, lemma_replay_files_none,
    lemma_replay_list_none, lemma_same_record, points_to, record_at, replay_files, replay_list,
    replay_segment, value_at,
};
use crate::segments::{
    bound_of, dir_map, ids_ascending, is_chosen, is_next_id, lemma_below_bound, lemma_bound_of,
    lemma_dir_map_dom, lemma_dir_map_first, lemma_listing_ascending, lemma_replay_list_ascending,
    listing, segments_in, segments_of, sort_segments, DirEntry,
};
use crate::xchg::{
    decode, lemma_decode_encode, lemma_decode_is_encoding, lemma_encode_len, Command, HEADER_LEN,
    Index, StreamReader, WRITE_HEADER_LEN,
};
use crossbeam_skiplist::SkipMap;
use std::collections::HashMap;
use vstd::pervasive::unreached;
use vstd::prelude::*;
use vstd::std_specs::hash::group_hash_axioms;

verus! {

broadcast use group_hash_axioms;

/// The segments of a map of files, as bytes.
pub open spec fn bytes_of(files: Map<u64, File>) -> Map<u64, Seq<u8>> {
    Map::new(|id: u64| files.contains_key(id), |id: u64| files[id]@)
}

/// A list of index entries as mathematics: each key with its entry.
pub open spec fn pairs(entries: Seq<(Vec<u8>, Index)>) -> Seq<(Seq<u8>, Index)> {
    Seq::new(entries.len(), |i: int| (entries[i].0@, entries[i].1))
}

proof fn lemma_flatten_one(a: Seq<u8>)
    ensures
        seq![a].flatten() == a,
{
    let none = Seq::<Seq<u8>>::empty();
    assert(none.flatten() =~= Seq::<u8>::empty());
    none.lemma_flatten_push(a);
    assert(seq![a] =~= none.push(a));
    assert(Seq::<u8>::empty() + a =~= a);
}

/// What the skip list hands out lists every entry of the index once.
pub proof fn lemma_pairs_enumerate(entries: Seq<(Vec<u8>, Index)>, index: Map<Seq<u8>, Index>)
    requires
        forall|i: int|
            0 <= i < entries.len() ==> index.contains_key((#[trigger] entries[i]).0@)
                && index[entries[i].0@] == entries[i].1,
        forall|k: Seq<u8>|
            index.contains_key(k) ==> exists|i: int|
                0 <= i < entries.len() && (#[trigger] entries[i]).0@ == k,
        forall|i: int, j: int|
            0 <= i < j < entries.len() ==> (#[trigger] entries[i]).0@ != (#[trigger] entries[j]).0@,
    ensures
        enumerates(pairs(entries), index),
{
    let listed = pairs(entries);
    assert forall|k: Seq<u8>| index.contains_key(k) implies exists|i: int|
        0 <= i < listed.len() && (#[trigger] listed[i]).0 == k by {
        let i = choose|i: int| 0 <= i < entries.len() && (#[trigger] entries[i]).0@ == k;
        assert(listed[i].0 == k);
    }
    assert forall|i: int, j: int| 0 <= i < j < listed.len() implies (#[trigger] listed[i]).0 != (
    #[trigger] listed[j]).0 by {
        assert(entries[i].0@ != entries[j].0@);
    }
}

/// A map that held the keys of the first `i` listed entries holds, with the
/// key of the next, the keys of the first `i + 1`.
proof fn lemma_listed_one_more(
    listed: Seq<(Seq<u8>, Index)>,
    before: Map<Seq<u8>, Index>,
    after: Map<Seq<u8>, Index>,
    i: int,
)
    requires
        0 <= i < listed.len(),
        forall|k: Seq<u8>|
            before.contains_key(k) <==> exists|j: int| 0 <= j < i && (#[trigger] listed[j]).0 == k,
        after.dom() == before.dom().insert(listed[i].0),
    ensures
        forall|k: Seq<u8>|
            after.contains_key(k) <==> exists|j: int|
                0 <= j < i + 1 && (#[trigger] listed[j]).0 == k,
{
    assert forall|x: Seq<u8>| after.contains_key(x) <==> exists|j: int|
        0 <= j < i + 1 && (#[trigger] listed[j]).0 == x by {
        if x == listed[i].0 {
            assert(listed[i].0 == x);
        } else if before.contains_key(x) {
            let j = choose|j: int| 0 <= j < i && (#[trigger] listed[j]).0 == x;
            assert(listed[j].0 == x);
        }
        if exists|j: int| 0 <= j < i + 1 && (#[trigger] listed[j]).0 == x {
            let j = choose|j: int| 0 <= j < i + 1 && (#[trigger] listed[j]).0 == x;
            if j < i {
                assert(before.contains_key(x));
            }
        }
    }
}

/// Merging ends well: a consistent state that holds the kept segments and,
/// in its new active segment, a record for each entry below `bound`, each
/// the record that the entry named, is `was` with the segments below `bound`
/// merged.
proof fn lemma_merge_done(
    was: StoreView,
    t: StoreView,
    start: StoreView,
    listed: Seq<(Seq<u8>, Index)>,
    bound: u64,
)
    requires
        was.wf(),
        was.active_fid < u64::MAX,
        bound <= was.active_fid + 1,
        enumerates(listed, was.index),
        entries_from(was.index, start.index, bound),
        t.wf(),
        t.active_fid == was.active_fid + 1,
        exists|bytes: Seq<u8>|
            t.files == #[trigger] kept_files(was, bound).insert(t.active_fid, bytes),
        t.active().len() == moved_bytes(listed, listed.len() as int, bound),
        forall|k: Seq<u8>|
            t.index.contains_key(k) <==> start.index.contains_key(k) || exists|j: int|
                0 <= j < listed.len() && (#[trigger] listed[j]).0 == k && listed[j].1.file_id
                    < bound,
        forall|k: Seq<u8>| #[trigger]
            t.index.contains_key(k) ==> was.index.contains_key(k) && record_at(
                t.files,
                t.index[k],
            ) == record_at(was.files, was.index[k]) && (if was.index[k].file_id >= bound {
                t.index[k] == was.index[k]
            } else {
                t.index[k].file_id == t.active_fid
            }),
    ensures
        merged_below(was, t, bound),
{
    let kept = kept_files(was, bound);
    let new_fid = t.active_fid;
    lemma_kept_start(was, bound);
    lemma_moved_is_below(listed, was.index, bound);
    lemma_size_insert(kept, new_fid, t.active(), u64::MAX as nat + 1);
    assert(t.files =~= kept.insert(new_fid, t.active()));
    assert(!kept.contains_key(new_fid)) by {
        if kept.contains_key(new_fid) {
            assert(was.files.contains_key(new_fid));
        }
    }
    assert forall|k: Seq<u8>| was.index.contains_key(k) implies t.index.contains_key(k) by {
        let j = choose|j: int| 0 <= j < listed.len() && (#[trigger] listed[j]).0 == k;
        assert(listed[j].0 == k && listed[j].1 == was.index[k]);
        if was.index[k].file_id >= bound {
            assert(start.index.contains_key(k));
        }
    }
    assert(t.index.dom() =~= was.index.dom());
    assert forall|k: Seq<u8>| #[trigger] was.index.contains_key(k) implies carried(
        was,
        t,
        bound,
        k,
    ) && value_at(t.files, t.index[k]) == value_at(was.files, was.index[k]) by {
        assert(t.index.contains_key(k));
        assert(points_to(was.files, k, was.index[k]));
        assert(points_to(t.files, k, t.index[k]));
        lemma_same_record(was.files, was.index[k], t.files, t.index[k], k);
    }
    assert(t.contents() =~= was.contents());
    assert forall|key: Seq<u8>| #[trigger] t.get(key) == was.get(key) by {
        lemma_get_by_contents(t, was.contents(), key);
        lemma_get_by_contents(was, was.contents(), key);
    }
    assert forall|id: u64| #[trigger]
        t.files.contains_key(id) <==> id == t.active_fid || (id >= bound && was.files.contains_key(
            id,
        )) by {
        assert(kept.contains_key(id) <==> was.files.contains_key(id) && id >= bound);
    }
    assert forall|id: u64| id >= bound && #[trigger] was.files.contains_key(id) implies t.files[id]
        == was.files[id] by {
        assert(kept.contains_key(id));
    }
}

/// Whether two byte strings are the same.
pub fn bytes_eq(a: &[u8], b: &[u8]) -> (same: bool)
    ensures
        same == (a@ == b@),
{
    if a.len() != b.len() {
        return false;
    }
    let mut i: usize = 0;
    while i < a.len()
        invariant
            0 <= i <= a.len(),
            a@.len() == b@.len(),
            a@.take(i as int) == b@.take(i as int),
        decreases a.len() - i,
    {
        if a[i] != b[i] {
            return false;
        }
        proof {
            assert(a@.take(i as int + 1) =~= a@.take(i as int).push(a@[i as int]));
            assert(b@.take(i as int + 1) =~= b@.take(i as int).push(b@[i as int]));
        }
        i = i + 1;
    }
    proof {
        assert(a@.take(a@.len() as int) =~= a@);
        assert(b@.take(b@.len() as int) =~= b@);
    }
    true
}

/// The engine. It owns every segment and the index over them.
pub struct Store {
    active_fid: u64,
    ids: Vec<u64>,
    files: HashMap<u64, File>,
    map: SkipMap<Vec<u8>, Index>,
}

impl View for Store {
    type V = StoreView;

    closed spec fn view(&self) -> StoreView {
        StoreView {
            active_fid: self.active_fid,
            files: bytes_of(self.files@),
            index: entries_of(&self.map),
        }
    }
}

impl Store {
    /// The engine's state is consistent.
    pub closed spec fn wf(&self) -> bool {
        &&& self@.wf()
        &&& forall|id: u64| #[trigger]
            self.files@.contains_key(id) ==> self.files@[id].spec_id() == id
        &&& forall|i: int, j: int| 0 <= i < j < self.ids@.len() ==> self.ids@[i] < self.ids@[j]
        &&& forall|id: u64| self.files@.contains_key(id) <==> self.ids@.contains(id)
    }

    /// A consistent engine has a consistent state: every law of the state
    /// holds of it.
    pub proof fn lemma_wf(&self)
        requires
            self.wf(),
        ensures
            self@.wf(),
    {
    }

    /// An engine over no data: one empty active segment with id 0.
    pub fn new() -> (store: Store)
        ensures
            store.wf(),
            store@.active_fid == 0,
            store@.files == Map::<u64, Seq<u8>>::empty().insert(0, Seq::empty()),
            store@.index == Map::<Seq<u8>, Index>::empty(),
            forall|key: Seq<u8>| #[trigger] store@.get(key) == None::<Seq<u8>>,
    {
        let mut files: HashMap<u64, File> = HashMap::new();
        files.insert(0, File::new(0, Vec::new()));
        let mut ids: Vec<u64> = Vec::new();
        ids.push(0);
        let store = Store { active_fid: 0, ids, files, map: index_new() };
        proof {
            assert(store.ids@[0] == 0);
            assert(store@.files =~= Map::<u64, Seq<u8>>::empty().insert(0, Seq::empty()));
            lemma_recovered_wf(Map::<u64, Seq<u8>>::empty(), 0);
            assert(store@ == recovered(Map::<u64, Seq<u8>>::empty(), 0));
        }
        store
    }

    /// Opens an engine over the listed segments: replays them in ascending
    /// order of id to rebuild the index, then adds a fresh, empty active
    /// segment whose id is one more than the greatest listed, or 0 where none
    /// is listed. Fails with `Corrupt` where a record is cut short or fails
    /// its checksum, and with `StorageFull` where no id is left for the
    /// active segment.
    pub fn open(segments: Vec<File>) -> (opened: Result<Store, KvsError>)
        ensures
            (match replay_files(dir_map(listing(segments@)), u64::MAX as nat + 1) {
                None => opened == Err::<Store, KvsError>(KvsError::Corrupt),
                Some(index) => if dir_map(listing(segments@)).contains_key(u64::MAX) {
                    opened == Err::<Store, KvsError>(KvsError::Io(IoErrorKind::StorageFull))
                } else {
                    opened.is_ok() && opened.unwrap().wf() && is_next_id(
                        dir_map(listing(segments@)),
                        opened.unwrap()@.active_fid,
                    ) && opened.unwrap()@ == recovered(
                        dir_map(listing(segments@)),
                        opened.unwrap()@.active_fid,
                    )
                },
            }),
            segments@.len() == 0 ==> opened.is_ok() && opened.unwrap()@.active_fid == 0
                && opened.unwrap()@.index == Map::<Seq<u8>, Index>::empty(),
    {
        let ghost dir = dir_map(listing(segments@));
        proof {
            if segments@.len() == 0 {
                assert(dir =~= Map::<u64, Seq<u8>>::empty());
                lemma_replay_files_gap(dir, 0, u64::MAX as nat + 1);
            }
        }
        let mut sorted = sort_segments(&segments);
        let ghost orig = sorted@;
        let ghost list = listing(orig);
        let count: usize = sorted.len();
        let ghost top: nat = if count == 0 {
            0
        } else {
            orig[count - 1].spec_id() as nat + 1
        };
        proof {
            lemma_replay_list_ascending(list, count as nat);
            assert(count > 0 ==> list[count - 1].0 == orig[count - 1].spec_id());
            assert forall|id: u64| top <= id implies !dir.contains_key(id) by {
                lemma_dir_map_dom(list, id);
                if dir.contains_key(id) {
                    let j = choose|j: int| 0 <= j < list.len() && (#[trigger] list[j]).0 == id;
                    assert(orig[j].spec_id() == id);
                    assert(j < count - 1 ==> orig[j].spec_id() < orig[count - 1].spec_id());
                }
            }
            assert forall|id: u64| #[trigger] dir.contains_key(id) implies dir[id].len()
                <= usize::MAX && id < top by {
                lemma_dir_map_dom(list, id);
                let j = choose|j: int| 0 <= j < list.len() && (#[trigger] list[j]).0 == id;
                lemma_dir_map_first(list, j);
                assert(dir[id] == orig[j]@);
                orig[j].lemma_len_fits();
                assert(j < count - 1 ==> orig[j].spec_id() < orig[count - 1].spec_id());
            }
            lemma_dir_map_dom(list, 0);
            if replay_files(dir, top) is None {
                lemma_replay_files_none(dir, top, u64::MAX as nat + 1);
            } else {
                lemma_replay_files_gap(dir, top, u64::MAX as nat + 1);
            }
        }
        let map = match Store::load(&sorted) {
            Ok(map) => map,
            Err(e) => {
                return Err(e);
            },
        };
        let active: u64 = if count == 0 {
            0
        } else {
            let last: u64 = sorted[count - 1].id();
            if last == u64::MAX {
                proof {
                    lemma_dir_map_first(list, count - 1);
                }
                return Err(KvsError::Io(IoErrorKind::StorageFull));
            }
            last + 1
        };
        proof {
            if count > 0 {
                lemma_dir_map_first(list, count - 1);
            }
        }
        let mut ids: Vec<u64> = Vec::new();
        let mut n: usize = 0;
        while n < count
            invariant
                0 <= n <= count,
                count == sorted@.len(),
                sorted@ == orig,
                ids@.len() == n,
                forall|j: int| 0 <= j < n ==> ids@[j] == (#[trigger] orig[j]).spec_id(),
            decreases count - n,
        {
            ids.push(sorted[n].id());
            n = n + 1;
        }
        ids.push(active);
        let mut files: HashMap<u64, File> = HashMap::new();
        while sorted.len() > 0
            invariant
                sorted@.len() <= orig.len(),
                sorted@ == orig.take(sorted@.len() as int),
                forall|id: u64| #[trigger]
                    files@.contains_key(id) ==> files@[id].spec_id() == id && exists|j: int|
                        sorted@.len() <= j < orig.len() && orig[j] == files@[id],
                forall|j: int|
                    sorted@.len() <= j < orig.len() ==> files@.contains_key(
                        (#[trigger] orig[j]).spec_id(),
                    ),
            decreases sorted.len(),
        {
            let file = sorted.pop().unwrap();
            proof {
                assert(file == orig[sorted@.len() as int]);
            }
            files.insert(file.id(), file);
        }
        files.insert(active, File::new(active, Vec::new()));
        let store = Store { active_fid: active, ids, files, map };
        proof {
            let want = recovered(dir, active);
            assert forall|i: int, j: int| 0 <= i < j < store.ids@.len() implies store.ids@[i]
                < store.ids@[j] by {
                assert(orig[i].spec_id() < top);
                if j < count {
                    assert(orig[i].spec_id() < orig[j].spec_id());
                }
            }
            assert forall|id: u64| store.files@.contains_key(id) <==> store.ids@.contains(id) by {
                if store.files@.contains_key(id) && id != active {
                    let j = choose|j: int| 0 <= j < orig.len() && orig[j] == store.files@[id];
                    assert(store.ids@[j] == id);
                }
                if id == active {
                    assert(store.ids@[count as int] == id);
                }
                if store.ids@.contains(id) {
                    let j = choose|j: int| 0 <= j < store.ids@.len() && store.ids@[j] == id;
                    if j < count {
                        assert(store.files@.contains_key(orig[j].spec_id()));
                    }
                }
            }
            assert forall|id: u64| store@.files.contains_key(id) == want.files.contains_key(id) by {
                lemma_dir_map_dom(list, id);
                if id != active {
                    if dir.contains_key(id) {
                        let j = choose|j: int| 0 <= j < list.len() && (#[trigger] list[j]).0 == id;
                        assert(orig[j].spec_id() == id);
                    }
                    if store.files@.contains_key(id) {
                        let j = choose|j: int| 0 <= j < orig.len() && orig[j] == store.files@[id];
                        assert(list[j].0 == id);
                    }
                }
            }
            assert forall|id: u64| store@.files.contains_key(id) implies store@.files[id]
                == want.files[id] by {
                if id != active {
                    let j = choose|j: int| 0 <= j < orig.len() && orig[j] == store.files@[id];
                    assert(list[j].0 == id);
                    lemma_dir_map_first(list, j);
                }
            }
            assert(store@.files =~= want.files);
            assert(dir.dom().finite()) by {
                lemma_dir_map_dom(list, 0);
            }
            lemma_recovered_wf(dir, active);
        }
        Ok(store)
    }

    /// Replays the listed segments, in the order of the list, into a new
    /// index. Fails with `Corrupt` where a record of one of them is cut short
    /// or fails its checksum.
    pub fn load(files: &Vec<File>) -> (loaded: Result<SkipMap<Vec<u8>, Index>, KvsError>)
        ensures
            (match replay_list(listing(files@), files@.len()) {
                Some(index) => loaded.is_ok() && entries_of(&loaded.unwrap()) == index,
                None => loaded == Err::<SkipMap<Vec<u8>, Index>, KvsError>(KvsError::Corrupt),
            }),
    {
        let mut map = index_new();
        let mut i: usize = 0;
        while i < files.len()
            invariant
                0 <= i <= files.len(),
                replay_list(listing(files@), i as nat) == Some(entries_of(&map)),
            decreases files.len() - i,
        {
            match Store::load_file(&files[i], &mut map) {
                Ok(()) => {},
                Err(e) => {
                    proof {
                        lemma_replay_list_none(
                            listing(files@),
                            i as nat + 1,
                            files@.len() as nat,
                        );
                    }
                    return Err(e);
                },
            }
            i = i + 1;
        }
        Ok(map)
    }

    /// Replays one segment into `map`: every write points its key at the
    /// record, every deletion drops its key. Fails with `Corrupt` where a
    /// record is cut short or fails its checksum; the records before it have
    /// then been applied.
    pub fn load_file(file: &File, map: &mut SkipMap<Vec<u8>, Index>) -> (done: Result<
        (),
        KvsError,
    >)
        ensures
            (match replay_segment(entries_of(old(map)), file.spec_id(), file@, 0) {
                Some(index) => done == Ok::<(), KvsError>(()) && entries_of(final(map)) == index,
                None => done == Err::<(), KvsError>(KvsError::Corrupt),
            }),
    {
        let file_id: u64 = file.id();
        let mut reader: StreamReader<'_, Command> = StreamReader::new(file);
        let mut prev_pos: u64 = 0;
        let ghost data = file@;
        let ghost whole = replay_segment(entries_of(old(map)), file_id, data, 0);
        let size: usize = file.pos();
        loop
            invariant
                reader.spec_file() == file,
                reader.spec_cursor() == prev_pos,
                prev_pos <= data.len(),
                data == file@,
                size == data.len(),
                file_id == file.spec_id(),
                whole == replay_segment(entries_of(old(map)), file_id, data, 0),
                whole == replay_segment(entries_of(map), file_id, data, prev_pos as nat),
            decreases data.len() - prev_pos,
        {
            proof {
                if decode(tail_from(data, prev_pos as int)) is Entry {
                    lemma_decode_is_encoding(tail_from(data, prev_pos as int));
                    lemma_encode_len(decode(tail_from(data, prev_pos as int))->record);
                }
            }
            match reader.read_entry() {
                Err(e) => {
                    return Err(e);
                },
                Ok(None) => {
                    return Ok(());
                },
                Ok(Some(cmd)) => {
                    let cursor: u64 = reader.cursor();
                    match cmd {
                        Command::Write { key, value, timestamp } => {
                            let entry = Index {
                                file_id,
                                pos: prev_pos,
                                len: cursor - prev_pos,
                                timestamp,
                            };
                            index_insert(map, key, entry);
                        },
                        Command::Delete { key, timestamp } => {
                            index_remove(map, key.as_slice());
                        },
                    }
                    prev_pos = cursor;
                },
            }
        }
    }

    /// Opens an engine over the files of a directory. The files whose names
    /// are names of segments, a number as it is written followed by `.log`,
    /// are the segments; every other file is ignored: it is not replayed and
    /// does not count for the id of the active segment. See `open`.
    pub fn open_dir(entries: &Vec<DirEntry>) -> (opened: Result<Store, KvsError>)
        ensures
            (match replay_files(dir_map(segments_in(entries@)), u64::MAX as nat + 1) {
                None => opened == Err::<Store, KvsError>(KvsError::Corrupt),
                Some(index) => if dir_map(segments_in(entries@)).contains_key(u64::MAX) {
                    opened == Err::<Store, KvsError>(KvsError::Io(IoErrorKind::StorageFull))
                } else {
                    opened.is_ok() && opened.unwrap().wf() && is_next_id(
                        dir_map(segments_in(entries@)),
                        opened.unwrap()@.active_fid,
                    ) && opened.unwrap()@ == recovered(
                        dir_map(segments_in(entries@)),
                        opened.unwrap()@.active_fid,
                    )
                },
            }),
            entries@.len() == 0 ==> opened.is_ok() && opened.unwrap()@.active_fid == 0
                && opened.unwrap()@.index == Map::<Seq<u8>, Index>::empty(),
    {
        proof {
            if entries@.len() == 0 {
                assert(segments_in(entries@) =~= Seq::<(u64, Seq<u8>)>::empty());
            }
        }
        Store::open(segments_of(entries))
    }

    /// Gets the value of `key`, or `None` where the key has no live record.
    /// The record is read back from its segment and its checksum verified.
    pub fn get(&self, key: Vec<u8>) -> (found: Result<Option<Vec<u8>>, KvsError>)
        ensures
            (match self@.read(key@) {
                Ok(Some(value)) => found.is_ok() && found.unwrap().is_some()
                    && found.unwrap().unwrap()@ == value,
                Ok(None) => found == Ok::<Option<Vec<u8>>, KvsError>(None),
                Err(e) => found == Err::<Option<Vec<u8>>, KvsError>(e),
            }),
            self.wf() ==> self@.read(key@) == Ok::<Option<Seq<u8>>, KvsError>(self@.get(key@)),
            self.wf() ==> (match self@.get(key@) {
                Some(value) => found.is_ok() && found.unwrap().is_some()
                    && found.unwrap().unwrap()@ == value,
                None => found == Ok::<Option<Vec<u8>>, KvsError>(None),
            }),
    {
        proof {
            if self.wf() {
                lemma_read_consistent(self@, key@);
            }
        }
        let e = match index_get(&self.map, key.as_slice()) {
            Some(e) => e,
            None => {
                return Ok(None);
            },
        };
        let file = match self.files.get(&e.file_id) {
            Some(file) => file,
            None => {
                return Err(KvsError::Io(IoErrorKind::NotFound));
            },
        };
        let mut reader: StreamReader<'_, Command> = StreamReader::at(file, e.pos);
        match reader.read_entry() {
            Ok(Some(Command::Write { key: found, value, timestamp })) => {
                if bytes_eq(found.as_slice(), key.as_slice()) && reader.cursor() - e.pos == e.len {
                    Ok(Some(value))
                } else {
                    Err(KvsError::Corrupt)
                }
            },
            _ => Err(KvsError::Corrupt),
        }
    }

    /// Sets the value of `key` to `value`, at the time that the clock gives.
    /// Fails, and changes nothing, where the active segment cannot take the
    /// record or the clock's time does not fit the timestamp.
    pub fn set(&mut self, key: Vec<u8>, value: Vec<u8>) -> (done: Result<(), KvsError>)
        requires
            old(self).wf(),
        ensures
            final(self).wf(),
            done is Ok ==> old(self)@.write_fits(key@, value@)
                && final(self)@.contents() == old(self)@.contents().insert(key@, value@)
                && updates(old(self)@, final(self)@, key@, Some(value@))
                && exists|timestamp: i64| final(self)@ == old(self)@.set(key@, value@, timestamp),
            done is Err ==> final(self)@ == old(self)@ && (done->Err_0 is Whatever || (done->Err_0
                == KvsError::Io(IoErrorKind::FileTooLarge) && !old(self)@.write_fits(
                key@,
                value@,
            ))),
    {
        match now_nanos() {
            Some(timestamp) => self.set_at(key, value, timestamp),
            None => Err(KvsError::Whatever("the time does not fit a timestamp".to_owned())),
        }
    }

    /// Sets the value of `key` to `value`, with `timestamp` as the time of
    /// the write: appends a write record to the active segment, then points
    /// the index at it. Fails, and changes nothing, exactly when the active
    /// segment cannot take the record.
    pub fn set_at(&mut self, key: Vec<u8>, value: Vec<u8>, timestamp: i64) -> (done: Result<
        (),
        KvsError,
    >)
        requires
            old(self).wf(),
        ensures
            final(self).wf(),
            old(self)@.write_fits(key@, value@) ==> done == Ok::<(), KvsError>(())
                && final(self)@ == old(self)@.set(key@, value@, timestamp)
                && final(self)@.contents() == old(self)@.contents().insert(key@, value@)
                && updates(old(self)@, final(self)@, key@, Some(value@))
                && final(self)@.active().len() == old(self)@.active().len() + WRITE_HEADER_LEN
                + key@.len() + value@.len(),
            !old(self)@.write_fits(key@, value@) ==> done == Err::<(), KvsError>(
                KvsError::Io(IoErrorKind::FileTooLarge),
            ) && final(self)@ == old(self)@,
    {
        let cmd = Command::Write { key: copy_of(key.as_slice()), value, timestamp };
        proof {
            if old(self)@.has_room(cmd@) {
                lemma_append(old(self)@, cmd@);
            }
        }
        match self.append(cmd) {
            Ok((pos, len)) => {
                let entry = Index { file_id: self.active_fid, pos, len, timestamp };
                index_insert(&mut self.map, key, entry);
                Ok(())
            },
            Err(e) => Err(e),
        }
    }

    /// Removes `key`, at the time that the clock gives. Fails with
    /// `KeyNotFound` where the key has no live record; fails, too, where the
    /// active segment cannot take the record or the clock's time does not fit
    /// the timestamp. Changes nothing where it fails.
    pub fn remove(&mut self, key: Vec<u8>) -> (done: Result<(), KvsError>)
        requires
            old(self).wf(),
        ensures
            final(self).wf(),
            !old(self)@.index.contains_key(key@) ==> done == Err::<(), KvsError>(
                KvsError::KeyNotFound,
            ),
            done is Ok ==> old(self)@.index.contains_key(key@) && old(self)@.delete_fits(key@)
                && final(self)@.contents() == old(self)@.contents().remove(key@)
                && updates(old(self)@, final(self)@, key@, None)
                && exists|timestamp: i64| final(self)@ == old(self)@.remove(key@, timestamp),
            done is Err ==> final(self)@ == old(self)@,
            done is Err && old(self)@.index.contains_key(key@) ==> done->Err_0 is Whatever || (
            done->Err_0 == KvsError::Io(IoErrorKind::FileTooLarge) && !old(self)@.delete_fits(
                key@,
            )),
    {
        if index_get(&self.map, key.as_slice()).is_none() {
            return Err(KvsError::KeyNotFound);
        }
        match now_nanos() {
            Some(timestamp) => self.remove_at(key, timestamp),
            None => Err(KvsError::Whatever("the time does not fit a timestamp".to_owned())),
        }
    }

    /// Removes `key`, with `timestamp` as the time of the deletion: fails
    /// with `KeyNotFound` where the key has no live record, else appends a
    /// deletion record to the active segment, then drops the key from the
    /// index. Changes nothing where it fails.
    pub fn remove_at(&mut self, key: Vec<u8>, timestamp: i64) -> (done: Result<(), KvsError>)
        requires
            old(self).wf(),
        ensures
            final(self).wf(),
            !old(self)@.index.contains_key(key@) ==> done == Err::<(), KvsError>(
                KvsError::KeyNotFound,
            ) && final(self)@ == old(self)@,
            old(self)@.index.contains_key(key@) && old(self)@.delete_fits(key@) ==> done == Ok::<
                (),
                KvsError,
            >(()) && final(self)@ == old(self)@.remove(key@, timestamp)
                && final(self)@.contents() == old(self)@.contents().remove(key@)
                && updates(old(self)@, final(self)@, key@, None)
                && final(self)@.active().len() == old(self)@.active().len() + HEADER_LEN
                + key@.len(),
            old(self)@.index.contains_key(key@) && !old(self)@.delete_fits(key@) ==> done == Err::<
                (),
                KvsError,
            >(KvsError::Io(IoErrorKind::FileTooLarge)) && final(self)@ == old(self)@,
    {
        if index_get(&self.map, key.as_slice()).is_none() {
            return Err(KvsError::KeyNotFound);
        }
        let cmd = Command::Delete { key: copy_of(key.as_slice()), timestamp };
        proof {
            if old(self)@.has_room(cmd@) {
                lemma_append(old(self)@, cmd@);
            }
        }
        match self.append(cmd) {
            Ok(_) => {
                index_remove(&mut self.map, key.as_slice());
                Ok(())
            },
            Err(e) => Err(e),
        }
    }

    /// Appends `cmd` to the active segment. Returns where the record starts
    /// and how long it is, or leaves the engine as it was where the segment
    /// cannot take it.
    fn append(&mut self, cmd: Command) -> (placed: Result<(u64, u64), KvsError>)
        requires
            old(self).wf(),
        ensures
            final(self).active_fid == old(self).active_fid,
            final(self).map == old(self).map,
            final(self).ids == old(self).ids,
            final(self).files@.dom() == old(self).files@.dom(),
            forall|id: u64| #[trigger]
                final(self).files@.contains_key(id) ==> final(self).files@[id].spec_id() == id,
            old(self)@.has_room(cmd@) ==> placed == Ok::<(u64, u64), KvsError>(
                (old(self)@.active().len() as u64, cmd@.encoded_len() as u64),
            ) && bytes_of(final(self).files@) == old(self)@.files.insert(
                old(self)@.active_fid,
                old(self)@.active() + cmd@.encode(),
            ),
            !old(self)@.has_room(cmd@) ==> placed == Err::<(u64, u64), KvsError>(
                KvsError::Io(IoErrorKind::FileTooLarge),
            ) && bytes_of(final(self).files@) == old(self)@.files,
    {
        let fid = self.active_fid;
        let mut file = match self.files.remove(&fid) {
            Some(file) => file,
            None => {
                proof {
                    assert(old(self)@.files.contains_key(fid));
                }
                return Err(KvsError::Io(IoErrorKind::NotFound));
            },
        };
        let pos: u64 = file.pos() as u64;
        let written = cmd.to_file(&mut file);
        self.files.insert(fid, file);
        proof {
            assert(self.files@.dom() =~= old(self).files@.dom());
        }
        match written {
            Ok(len) => {
                proof {
                    assert(bytes_of(self.files@) =~= old(self)@.files.insert(
                        fid,
                        old(self)@.active() + cmd@.encode(),
                    ));
                }
                Ok((pos, len as u64))
            },
            Err(e) => {
                proof {
                    assert(bytes_of(self.files@) =~= old(self)@.files);
                }
                Err(e)
            },
        }
    }

    /// Merges the segments below `bound`: copies the live record of every key
    /// that lies in one of them into a new segment, which becomes the active
    /// one, and drops them. Every segment from `bound` on is kept as it was.
    fn merge_below(&mut self, bound: u64) -> (done: Result<(), KvsError>)
        requires
            old(self).wf(),
            bound <= old(self)@.active_fid + 1,
        ensures
            final(self).wf(),
            old(self)@.active_fid == u64::MAX ==> done == Err::<(), KvsError>(
                KvsError::Io(IoErrorKind::StorageFull),
            ) && final(self)@ == old(self)@,
            old(self)@.active_fid < u64::MAX && live_bytes(entries_below(old(self)@.index, bound))
                > usize::MAX ==> done == Err::<(), KvsError>(
                KvsError::Io(IoErrorKind::FileTooLarge),
            ) && final(self)@ == old(self)@,
            old(self)@.active_fid < u64::MAX && live_bytes(entries_below(old(self)@.index, bound))
                <= usize::MAX ==> done == Ok::<(), KvsError>(()) && merged_below(
                old(self)@,
                final(self)@,
                bound,
            ),
    {
        if self.active_fid == u64::MAX {
            return Err(KvsError::Io(IoErrorKind::StorageFull));
        }
        let active: u64 = self.active_fid;
        let new_fid: u64 = active + 1;
        let entries = index_entries(&self.map);
        let ghost was = self@;
        let ghost was_files = self.files@;
        let ghost listed = pairs(entries@);
        let ghost kept = kept_files(was, bound);
        let ghost start = recovered(kept, new_fid);
        proof {
            lemma_pairs_enumerate(entries@, was.index);
            lemma_moved_is_below(listed, was.index, bound);
            lemma_kept_start(was, bound);
        }
        let mut total: usize = 0;
        let mut n: usize = 0;
        while n < entries.len()
            invariant
                0 <= n <= entries.len(),
                *self == *old(self),
                self.wf(),
                was == self@,
                active == self.active_fid,
                active < u64::MAX,
                listed == pairs(entries@),
                enumerates(listed, was.index),
                total == moved_bytes(listed, n as int, bound),
            decreases entries.len() - n,
        {
            let e: Index = entries[n].1;
            proof {
                lemma_moved_bound(listed, was.index, n as int + 1, bound);
                assert(listed[n as int].1 == e);
            }
            if e.file_id < bound {
                if e.len > (usize::MAX - total) as u64 {
                    return Err(KvsError::Io(IoErrorKind::FileTooLarge));
                }
                total = total + e.len as usize;
            }
            n = n + 1;
        }
        let mut merged = File::new(new_fid, Vec::new());
        let mut map = index_new();
        let ghost mut t = start;
        proof {
            assert(t.files =~= kept.insert(new_fid, merged@));
        }
        let mut i: usize = 0;
        while i < entries.len()
            invariant
                0 <= i <= entries.len(),
                *self == *old(self),
                self.wf(),
                was == self@,
                was_files == self.files@,
                active == self.active_fid,
                new_fid == active + 1,
                bound <= active + 1,
                kept == kept_files(was, bound),
                holds_from(was.files, kept, bound),
                listed == pairs(entries@),
                enumerates(listed, was.index),
                moved_bytes(listed, listed.len() as int, bound) <= usize::MAX,
                entries_from(was.index, start.index, bound),
                merged.spec_id() == new_fid,
                merged@.len() == moved_bytes(listed, i as int, bound),
                t.wf(),
                t.active_fid == new_fid,
                t.files == kept.insert(new_fid, merged@),
                forall|k: Seq<u8>| #[trigger]
                    start.index.contains_key(k) ==> t.index.contains_key(k) && t.index[k]
                        == start.index[k],
                forall|k: Seq<u8>|
                    t.index.contains_key(k) <==> start.index.contains_key(k) || exists|j: int|
                        0 <= j < i && (#[trigger] listed[j]).0 == k && listed[j].1.file_id < bound,
                forall|k: Seq<u8>| #[trigger]
                    t.index.contains_key(k) ==> was.index.contains_key(k) && record_at(
                        t.files,
                        t.index[k],
                    ) == record_at(was.files, was.index[k]) && (if was.index[k].file_id >= bound {
                        t.index[k] == was.index[k]
                    } else {
                        t.index[k].file_id == new_fid
                    }),
                forall|k: Seq<u8>|
                    entries_of(&map).contains_key(k) <==> exists|j: int|
                        0 <= j < i && (#[trigger] listed[j]).0 == k,
                forall|k: Seq<u8>| #[trigger]
                    entries_of(&map).contains_key(k) ==> t.index.contains_key(k) && entries_of(
                        &map,
                    )[k] == t.index[k],
            decreases entries.len() - i,
        {
            let e: Index = entries[i].1;
            let ghost k = entries@[i as int].0@;
            let ghost before = entries_of(&map);
            proof {
                assert(listed[i as int].0 == k && listed[i as int].1 == e);
                assert(was.index.contains_key(k) && was.index[k] == e);
                assert forall|j: int| 0 <= j < i implies (#[trigger] listed[j]).0 != k by {
                    assert(listed[j].0 != listed[i as int].0);
                }
            }
            if e.file_id >= bound {
                proof {
                    assert(start.index.contains_key(k));
                }
                index_insert(&mut map, copy_of(entries[i].0.as_slice()), e);
                proof {
                    lemma_listed_one_more(listed, before, entries_of(&map), i as int);
                    assert forall|x: Seq<u8>|
                        t.index.contains_key(x) <==> start.index.contains_key(x) || exists|j: int|
                            0 <= j < i + 1 && (#[trigger] listed[j]).0 == x && listed[j].1.file_id
                                < bound by {
                        if exists|j: int|
                            0 <= j < i + 1 && (#[trigger] listed[j]).0 == x && listed[j].1.file_id
                                < bound {
                            let j = choose|j: int|
                                0 <= j < i + 1 && (#[trigger] listed[j]).0 == x
                                    && listed[j].1.file_id < bound;
                            assert(j < i);
                        }
                        if t.index.contains_key(x) && !start.index.contains_key(x) {
                            let j = choose|j: int|
                                0 <= j < i && (#[trigger] listed[j]).0 == x && listed[j].1.file_id
                                    < bound;
                            assert(listed[j].0 == x);
                        }
                    }
                }
            } else {
                let ghost tail = tail_from(was.files[e.file_id], e.pos as int);
                let ghost record = decode(tail)->record;
                proof {
                    assert(points_to(was.files, k, e));
                    lemma_decode_is_encoding(tail);
                    lemma_encode_len(record);
                    lemma_moved_bytes_grow(listed, i as int + 1, listed.len() as int, bound);
                    assert(self.files@.contains_key(e.file_id));
                    assert(!start.index.contains_key(k));
                }
                let file = match self.files.get(&e.file_id) {
                    Some(file) => file,
                    None => {
                        return Err(KvsError::Io(IoErrorKind::NotFound));
                    },
                };
                proof {
                    file.lemma_len_fits();
                    assert(file@ == was.files[e.file_id]);
                }
                let buf = match file.pread_exact(e.len as usize, e.pos) {
                    Ok(buf) => buf,
                    Err(e) => {
                        return Err(e);
                    },
                };
                let ghost grown = merged@;
                proof {
                    assert(buf@ =~= tail.subrange(0, e.len as int));
                    lemma_flatten_one(buf@);
                    lemma_append(t, record);
                }
                let pos: u64 = merged.pos() as u64;
                let mut iovec: Vec<Vec<u8>> = Vec::new();
                iovec.push(buf);
                proof {
                    assert(parts_of(iovec@) =~= seq![record.encode()]);
                }
                match merged.append(&iovec) {
                    Ok(_) => {},
                    Err(e) => {
                        return Err(e);
                    },
                }
                let entry = Index { file_id: new_fid, pos, len: e.len, timestamp: e.timestamp };
                index_insert(&mut map, copy_of(entries[i].0.as_slice()), entry);
                proof {
                    let next = t.append(record);
                    assert(next.files =~= kept.insert(new_fid, merged@));
                    assert(next.index == t.index.insert(k, entry));
                    lemma_listed_one_more(listed, before, entries_of(&map), i as int);
                    assert forall|x: Seq<u8>|
                        next.index.contains_key(x) <==> start.index.contains_key(x) || exists|
                            j: int,
                        |
                            0 <= j < i + 1 && (#[trigger] listed[j]).0 == x && listed[j].1.file_id
                                < bound by {
                        if x == k {
                            assert(listed[i as int].0 == x);
                        } else {
                            if t.index.contains_key(x) && !start.index.contains_key(x) {
                                let j = choose|j: int|
                                    0 <= j < i && (#[trigger] listed[j]).0 == x
                                        && listed[j].1.file_id < bound;
                                assert(listed[j].0 == x);
                            }
                            if exists|j: int|
                                0 <= j < i + 1 && (#[trigger] listed[j]).0 == x
                                    && listed[j].1.file_id < bound {
                                let j = choose|j: int|
                                    0 <= j < i + 1 && (#[trigger] listed[j]).0 == x
                                        && listed[j].1.file_id < bound;
                                assert(j < i);
                            }
                        }
                    }
                    assert forall|x: Seq<u8>| #[trigger]
                        next.index.contains_key(x) implies was.index.contains_key(x) && record_at(
                        next.files,
                        next.index[x],
                    ) == record_at(was.files, was.index[x]) && (if was.index[x].file_id >= bound {
                        next.index[x] == was.index[x]
                    } else {
                        next.index[x].file_id == new_fid
                    }) by {
                        if x == k {
                            assert(tail_from(grown + record.encode(), grown.len() as int)
                                =~= record.encode() + Seq::<u8>::empty());
                            lemma_decode_encode(record, Seq::empty());
                        } else {
                            assert(t.index.contains_key(x));
                            assert(points_to(t.files, x, t.index[x]));
                            lemma_points_to_append(
                                t.files,
                                new_fid,
                                record.encode(),
                                x,
                                t.index[x],
                            );
                        }
                    }
                    t = next;
                }
            }
            i = i + 1;
        }
        let mut kept_ids: Vec<u64> = Vec::new();
        let mut j: usize = 0;
        while j < self.ids.len()
            invariant
                0 <= j <= self.ids.len(),
                *self == *old(self),
                self.wf(),
                forall|a: int, b: int| 0 <= a < b < kept_ids@.len() ==> kept_ids@[a] < kept_ids@[b],
                forall|a: int|
                    0 <= a < kept_ids@.len() ==> (#[trigger] kept_ids@[a]) >= bound && exists|m: int|
                        0 <= m < j && #[trigger] self.ids@[m] == kept_ids@[a],
                forall|m: int|
                    0 <= m < j && (#[trigger] self.ids@[m]) >= bound ==> kept_ids@.contains(
                        self.ids@[m],
                    ),
            decreases self.ids.len() - j,
        {
            let id: u64 = self.ids[j];
            if id >= bound {
                let ghost before_ids = kept_ids@;
                proof {
                    assert forall|a: int| 0 <= a < before_ids.len() implies before_ids[a] < id by {
                        let m = choose|m: int|
                            0 <= m < j && #[trigger] self.ids@[m] == before_ids[a];
                        assert(self.ids@[m] < self.ids@[j as int]);
                    }
                }
                kept_ids.push(id);
                proof {
                    assert(kept_ids@[before_ids.len() as int] == id);
                    assert forall|a: int| 0 <= a < kept_ids@.len() implies (
                    #[trigger] kept_ids@[a]) >= bound && exists|m: int|
                        0 <= m < j + 1 && #[trigger] self.ids@[m] == kept_ids@[a] by {
                        if a < before_ids.len() {
                            let m = choose|m: int|
                                0 <= m < j && #[trigger] self.ids@[m] == before_ids[a];
                            assert(self.ids@[m] == kept_ids@[a]);
                        } else {
                            assert(self.ids@[j as int] == kept_ids@[a]);
                        }
                    }
                    assert forall|m: int|
                        0 <= m < j + 1 && (#[trigger] self.ids@[m]) >= bound implies kept_ids@.contains(
                        self.ids@[m],
                    ) by {
                        if m < j {
                            assert(before_ids.contains(self.ids@[m]));
                            let a = choose|a: int|
                                0 <= a < before_ids.len() && before_ids[a] == self.ids@[m];
                            assert(kept_ids@[a] == self.ids@[m]);
                        } else {
                            assert(kept_ids@[before_ids.len() as int] == self.ids@[m]);
                        }
                    }
                }
            } else {
                proof {
                    assert forall|a: int| 0 <= a < kept_ids@.len() implies (
                    #[trigger] kept_ids@[a]) >= bound && exists|m: int|
                        0 <= m < j + 1 && #[trigger] self.ids@[m] == kept_ids@[a] by {
                        let m = choose|m: int|
                            0 <= m < j && #[trigger] self.ids@[m] == kept_ids@[a];
                        assert(self.ids@[m] == kept_ids@[a]);
                    }
                }
            }
            j = j + 1;
        }
        let ghost chosen = kept_ids@;
        proof {
            assert forall|a: int| 0 <= a < chosen.len() implies (#[trigger] chosen[a]) >= bound
                && was_files.contains_key(chosen[a]) by {
                let m = choose|m: int| 0 <= m < j && #[trigger] self.ids@[m] == chosen[a];
                assert(self.ids@.contains(self.ids@[m]));
            }
            assert forall|id: u64| #[trigger]
                was_files.contains_key(id) && id >= bound implies chosen.contains(id) by {
                assert(self.ids@.contains(id));
                let m = choose|m: int| 0 <= m < self.ids@.len() && self.ids@[m] == id;
                assert(kept_ids@.contains(self.ids@[m]));
            }
        }
        let mut files: HashMap<u64, File> = HashMap::new();
        let mut m: usize = 0;
        while m < kept_ids.len()
            invariant
                0 <= m <= kept_ids.len(),
                kept_ids@ == chosen,
                forall|a: int, b: int| 0 <= a < b < chosen.len() ==> chosen[a] < chosen[b],
                forall|id: u64|
                    files@.contains_key(id) <==> exists|a: int|
                        0 <= a < m && #[trigger] chosen[a] == id,
                forall|id: u64| #[trigger] files@.contains_key(id) ==> files@[id] == was_files[id],
                forall|a: int|
                    m <= a < chosen.len() ==> self.files@.contains_key(#[trigger] chosen[a])
                        && self.files@[chosen[a]] == was_files[chosen[a]],
            decreases kept_ids.len() - m,
        {
            let id: u64 = kept_ids[m];
            let ghost had = files@;
            match self.files.remove(&id) {
                Some(file) => {
                    files.insert(id, file);
                },
                None => {},
            }
            proof {
                assert forall|a: int| m + 1 <= a < chosen.len() implies self.files@.contains_key(
                    #[trigger] chosen[a],
                ) && self.files@[chosen[a]] == was_files[chosen[a]] by {
                    assert(chosen[m as int] < chosen[a]);
                }
                assert forall|x: u64|
                    files@.contains_key(x) <==> exists|a: int|
                        0 <= a < m + 1 && #[trigger] chosen[a] == x by {
                    if x == id {
                        assert(chosen[m as int] == x);
                    } else if had.contains_key(x) {
                        let a = choose|a: int| 0 <= a < m && #[trigger] chosen[a] == x;
                        assert(chosen[a] == x);
                    }
                    if exists|a: int| 0 <= a < m + 1 && #[trigger] chosen[a] == x {
                        let a = choose|a: int| 0 <= a < m + 1 && #[trigger] chosen[a] == x;
                        if a < m {
                            assert(had.contains_key(x));
                        }
                    }
                }
            }
            m = m + 1;
        }
        files.insert(new_fid, merged);
        kept_ids.push(new_fid);
        self.files = files;
        self.ids = kept_ids;
        self.map = map;
        self.active_fid = new_fid;
        proof {
            let ids = self.ids@;
            assert(ids =~= chosen.push(new_fid));
            assert forall|id: u64| #[trigger] was_files.contains_key(id) implies id < new_fid by {
                assert(was.files.contains_key(id));
            }
            assert forall|a: int, b: int| 0 <= a < b < ids.len() implies ids[a] < ids[b] by {
                assert(was_files.contains_key(chosen[a]));
            }
            assert forall|id: u64| self.files@.contains_key(id) <==> ids.contains(id) by {
                if self.files@.contains_key(id) && id != new_fid {
                    let a = choose|a: int| 0 <= a < chosen.len() && #[trigger] chosen[a] == id;
                    assert(ids[a] == id);
                }
                if id == new_fid {
                    assert(ids[chosen.len() as int] == id);
                }
                if ids.contains(id) && id != new_fid {
                    let a = choose|a: int| 0 <= a < ids.len() && ids[a] == id;
                    assert(chosen[a] == id);
                }
            }
            assert forall|id: u64| #[trigger] self.files@.contains_key(id) implies self.files@[id].spec_id()
                == id by {
                if id != new_fid {
                    let a = choose|a: int| 0 <= a < chosen.len() && #[trigger] chosen[a] == id;
                    assert(was_files.contains_key(chosen[a]));
                }
            }
            assert(self@.files =~= t.files) by {
                assert forall|id: u64| t.files.contains_key(id) implies self@.files.contains_key(
                    id,
                ) by {
                    if id != new_fid {
                        assert(kept.contains_key(id));
                        assert(was.files.contains_key(id));
                        assert(was_files.contains_key(id));
                        assert(chosen.contains(id));
                        let a = choose|a: int| 0 <= a < chosen.len() && chosen[a] == id;
                        assert(chosen[a] == id);
                    }
                }
                assert forall|id: u64| self@.files.contains_key(id) implies t.files.contains_key(
                    id,
                ) && self@.files[id] == t.files[id] by {
                    if id != new_fid {
                        let a = choose|a: int| 0 <= a < chosen.len() && #[trigger] chosen[a] == id;
                        assert(was_files.contains_key(chosen[a]));
                        assert(was.files.contains_key(id));
                        assert(kept.contains_key(id));
                    }
                }
            }
            assert(self@.index =~= t.index) by {
                assert forall|x: Seq<u8>| t.index.contains_key(x) implies self@.index.contains_key(
                    x,
                ) by {
                    assert(was.index.contains_key(x));
                    let j = choose|j: int| 0 <= j < listed.len() && (#[trigger] listed[j]).0 == x;
                    assert(listed[j].0 == x);
                }
            }
            assert(self@ == t);
            lemma_merge_done(was, t, start, listed, bound);
        }
        Ok(())
    }

    /// Compacts the engine: copies the live record of every key, byte for
    /// byte, into a new segment, which becomes the active one, and drops
    /// every other segment. What the engine holds stays as it was, and the
    /// segments together do not grow. Fails, and changes nothing, where no
    /// id is left for the new segment or the live records together are
    /// longer than the machine can address.
    pub fn compact(&mut self) -> (done: Result<(), KvsError>)
        requires
            old(self).wf(),
        ensures
            final(self).wf(),
            old(self)@.active_fid == u64::MAX ==> done == Err::<(), KvsError>(
                KvsError::Io(IoErrorKind::StorageFull),
            ) && final(self)@ == old(self)@,
            old(self)@.active_fid < u64::MAX && live_bytes(old(self)@.index) > usize::MAX ==> done
                == Err::<(), KvsError>(KvsError::Io(IoErrorKind::FileTooLarge)) && final(self)@
                == old(self)@,
            old(self)@.active_fid < u64::MAX && live_bytes(old(self)@.index) <= usize::MAX ==> done
                == Ok::<(), KvsError>(()) && compacted(old(self)@, final(self)@),
    {
        if self.active_fid == u64::MAX {
            return Err(KvsError::Io(IoErrorKind::StorageFull));
        }
        let bound: u64 = self.active_fid + 1;
        proof {
            let s = self@;
            assert(entries_below(s.index, bound) =~= s.index) by {
                assert forall|k: Seq<u8>| s.index.contains_key(k) implies s.index[k].file_id
                    < bound by {
                    assert(points_to(s.files, k, s.index[k]));
                }
            }
        }
        let done = self.merge_below(bound);
        proof {
            if done is Ok {
                let new_fid = self@.active_fid;
                assert(self@.files.dom() =~= set![new_fid]);
                assert(self@.files =~= Map::<u64, Seq<u8>>::empty().insert(
                    new_fid,
                    self@.active(),
                ));
                lemma_size_single(new_fid, self@.active());
            }
        }
        done
    }

    /// Merges the sealed segments: copies the live record of every key that
    /// lies outside the active segment, byte for byte, into a new segment,
    /// which becomes the active one, seals the segment that was active and
    /// drops every other. What the engine holds stays as it was, and the
    /// segments together do not grow. Fails, and changes nothing, where no
    /// id is left for the new segment or the records to copy are together
    /// longer than the machine can address.
    pub fn merge(&mut self) -> (done: Result<(), KvsError>)
        requires
            old(self).wf(),
        ensures
            final(self).wf(),
            old(self)@.active_fid == u64::MAX ==> done == Err::<(), KvsError>(
                KvsError::Io(IoErrorKind::StorageFull),
            ) && final(self)@ == old(self)@,
            old(self)@.active_fid < u64::MAX && live_bytes(sealed_entries(old(self)@)) > usize::MAX
                ==> done == Err::<(), KvsError>(KvsError::Io(IoErrorKind::FileTooLarge))
                && final(self)@ == old(self)@,
            old(self)@.active_fid < u64::MAX && live_bytes(sealed_entries(old(self)@)) <= usize::MAX
                ==> done == Ok::<(), KvsError>(()) && merged(old(self)@, final(self)@),
    {
        let bound: u64 = self.active_fid;
        self.merge_below(bound)
    }

    /// Merges the chosen sealed segments into a new segment, which becomes
    /// the active one: the live record of every key that lies in one of them
    /// is copied, byte for byte, and the chosen segments are dropped. Every
    /// other segment, and every entry that names one, stays as it was. The
    /// chosen must be sealed segments of the engine, with no older segment
    /// left out; else the call fails with `InvalidInput`. It fails, too,
    /// where no id is left for the new segment or the records to copy are
    /// together longer than the machine can address. A call that fails
    /// changes nothing.
    pub fn merge_segments(&mut self, chosen: &Vec<u64>) -> (done: Result<(), KvsError>)
        requires
            old(self).wf(),
        ensures
            final(self).wf(),
            !old(self)@.can_merge(chosen@) ==> done == Err::<(), KvsError>(
                KvsError::Io(IoErrorKind::InvalidInput),
            ) && final(self)@ == old(self)@,
            old(self)@.can_merge(chosen@) && old(self)@.active_fid == u64::MAX ==> done == Err::<
                (),
                KvsError,
            >(KvsError::Io(IoErrorKind::StorageFull)) && final(self)@ == old(self)@,
            old(self)@.can_merge(chosen@) && old(self)@.active_fid < u64::MAX && live_bytes(
                entries_below(old(self)@.index, bound_of(chosen@) as u64),
            ) > usize::MAX ==> done == Err::<(), KvsError>(KvsError::Io(IoErrorKind::FileTooLarge))
                && final(self)@ == old(self)@,
            old(self)@.can_merge(chosen@) && old(self)@.active_fid < u64::MAX && live_bytes(
                entries_below(old(self)@.index, bound_of(chosen@) as u64),
            ) <= usize::MAX ==> done == Ok::<(), KvsError>(()) && merged_below(
                old(self)@,
                final(self)@,
                bound_of(chosen@) as u64,
            ),
    {
        let mut bound: u64 = 0;
        let mut i: usize = 0;
        proof {
            assert(chosen@.take(0) =~= Seq::<u64>::empty());
        }
        while i < chosen.len()
            invariant
                0 <= i <= chosen.len(),
                *self == *old(self),
                self.wf(),
                bound == bound_of(chosen@.take(i as int)),
                bound <= self.active_fid,
                forall|j: int|
                    0 <= j < i ==> self@.files.contains_key(#[trigger] chosen@[j]) && chosen@[j]
                        != self.active_fid,
            decreases chosen.len() - i,
        {
            let c: u64 = chosen[i];
            if c == self.active_fid || !self.files.contains_key(&c) {
                return Err(KvsError::Io(IoErrorKind::InvalidInput));
            }
            proof {
                assert(self@.files.contains_key(c));
                assert(chosen@.take(i as int + 1).drop_last() =~= chosen@.take(i as int));
            }
            if c + 1 > bound {
                bound = c + 1;
            }
            i = i + 1;
        }
        proof {
            assert(chosen@.take(chosen@.len() as int) =~= chosen@);
            lemma_bound_of(chosen@);
        }
        let mut j: usize = 0;
        while j < self.ids.len()
            invariant
                0 <= j <= self.ids.len(),
                *self == *old(self),
                self.wf(),
                bound == bound_of(chosen@),
                forall|m: int|
                    0 <= m < j && (#[trigger] self.ids@[m]) < bound ==> chosen@.contains(
                        self.ids@[m],
                    ),
            decreases self.ids.len() - j,
        {
            let id: u64 = self.ids[j];
            if id < bound && !is_chosen(chosen, id) {
                proof {
                    assert(self.ids@.contains(self.ids@[j as int]));
                    assert(self@.files.contains_key(id));
                    lemma_below_bound(chosen@, id);
                    let x = choose|x: int| 0 <= x < chosen@.len() && id <= #[trigger] chosen@[x];
                    assert(chosen@.contains(chosen@[x]));
                    assert(id < chosen@[x]);
                }
                return Err(KvsError::Io(IoErrorKind::InvalidInput));
            }
            j = j + 1;
        }
        proof {
            assert forall|x: int, id: u64|
                0 <= x < chosen@.len() && #[trigger] self@.files.contains_key(id) && id
                    < #[trigger] chosen@[x] implies chosen@.contains(id) by {
                assert(self.files@.contains_key(id));
                assert(self.ids@.contains(id));
                let m = choose|m: int| 0 <= m < self.ids@.len() && self.ids@[m] == id;
                assert(self.ids@[m] < bound);
            }
            assert(self@.can_merge(chosen@));
        }
        self.merge_below(bound)
    }

    /// The id of the active segment.
    pub fn active_fid(&self) -> (id: u64)
        ensures
            id == self@.active_fid,
    {
        self.active_fid
    }

    /// The ids of the segments, in ascending order.
    pub fn segment_ids(&self) -> (ids: Vec<u64>)
        requires
            self.wf(),
        ensures
            forall|i: int, j: int| 0 <= i < j < ids@.len() ==> ids@[i] < ids@[j],
            forall|id: u64| ids@.contains(id) <==> self@.files.contains_key(id),
    {
        let mut ids: Vec<u64> = Vec::new();
        let mut i: usize = 0;
        while i < self.ids.len()
            invariant
                0 <= i <= self.ids.len(),
                ids@ == self.ids@.take(i as int),
            decreases self.ids.len() - i,
        {
            ids.push(self.ids[i]);
            proof {
                assert(self.ids@.take(i as int + 1) =~= self.ids@.take(i as int).push(
                    self.ids@[i as int],
                ));
            }
            i = i + 1;
        }
        proof {
            assert(self.ids@.take(self.ids@.len() as int) =~= self.ids@);
        }
        ids
    }

    /// The segment with the given id, if there is one.
    pub fn segment(&self, id: u64) -> (file: Option<&File>)
        ensures
            (match file {
                Some(file) => self@.files.contains_key(id) && file@ == self@.files[id],
                None => !self@.files.contains_key(id),
            }),
    {
        self.files.get(&id)
    }

    /// Closes the engine and gives its segments, in ascending order of id.
    pub fn into_segments(self) -> (segments: Vec<File>)
        requires
            self.wf(),
        ensures
            ids_ascending(segments@),
            dir_map(listing(segments@)) == self@.files,
    {
        let ghost was = self.files@;
        let Store { active_fid, ids, mut files, map } = self;
        let mut out: Vec<File> = Vec::new();
        let mut i: usize = 0;
        proof {
            assert forall|j: int| 0 <= j < ids@.len() implies files@.contains_key(
                #[trigger] ids@[j],
            ) by {
                assert(ids@.contains(ids@[j]));
            }
        }
        while i < ids.len()
            invariant
                0 <= i <= ids.len(),
                out@.len() == i,
                forall|a: int, b: int| 0 <= a < b < ids@.len() ==> ids@[a] < ids@[b],
                forall|id: u64| was.contains_key(id) <==> ids@.contains(id),
                forall|id: u64| #[trigger] was.contains_key(id) ==> was[id].spec_id() == id,
                forall|j: int| 0 <= j < i ==> (#[trigger] out@[j]) == was[ids@[j]],
                forall|j: int|
                    i <= j < ids@.len() ==> files@.contains_key(#[trigger] ids@[j]) && files@[ids@[j]]
                        == was[ids@[j]],
            decreases ids.len() - i,
        {
            let id: u64 = ids[i];
            match files.remove(&id) {
                Some(file) => {
                    out.push(file);
                },
                None => {},
            }
            proof {
                assert forall|j: int| i + 1 <= j < ids@.len() implies files@.contains_key(
                    #[trigger] ids@[j],
                ) && files@[ids@[j]] == was[ids@[j]] by {
                    assert(ids@[i as int] < ids@[j]);
                }
            }
            i = i + 1;
        }
        proof {
            let list = listing(out@);
            let want = bytes_of(was);
            assert forall|a: int| 0 <= a < out@.len() implies (#[trigger] out@[a]).spec_id()
                == ids@[a] by {
                assert(ids@.contains(ids@[a]));
            }
            assert(ids_ascending(out@));
            lemma_listing_ascending(out@);
            assert forall|id: u64| dir_map(list).contains_key(id) == want.contains_key(id) by {
                lemma_dir_map_dom(list, id);
                if dir_map(list).contains_key(id) {
                    let j = choose|j: int| 0 <= j < list.len() && (#[trigger] list[j]).0 == id;
                    assert(out@[j].spec_id() == id);
                    assert(ids@.contains(ids@[j]));
                }
                if want.contains_key(id) {
                    let j = choose|j: int| 0 <= j < ids@.len() && ids@[j] == id;
                    assert(list[j].0 == id);
                }
            }
            assert forall|id: u64| want.contains_key(id) implies dir_map(list)[id] == want[id] by {
                let j = choose|j: int| 0 <= j < ids@.len() && ids@[j] == id;
                assert(list[j].0 == id);
                lemma_dir_map_first(list, j);
            }
            assert(dir_map(list) =~= want);
        }
        out
    }
}

/// A request to the engine.
#[derive(Debug)]
pub enum StoreReq {
    Get { key: Vec<u8> },
    Put { key: Vec<u8>, value: Vec<u8> },
    Del { key: Vec<u8> },
}

/// The engine's reply to a request, of the request's kind.
#[derive(Debug)]
pub enum StoreRep {
    Get(Result<Option<Vec<u8>>, KvsError>),
    Put(Result<(), KvsError>),
    Del(Result<(), KvsError>),
}

impl StoreRep {
    /// The reply answers a request of the kind of `req`.
    pub open spec fn answers(self, req: StoreReq) -> bool {
        match req {
            StoreReq::Get { .. } => self is Get,
            StoreReq::Put { .. } => self is Put,
            StoreReq::Del { .. } => self is Del,
        }
    }
}

impl Store {
    /// Serves one request, with `now` as the time of a write or deletion:
    /// the reply is of the request's kind and holds what the operation gave.
    pub fn serve_at(&mut self, req: StoreReq, now: i64) -> (rep: StoreRep)
        requires
            old(self).wf(),
        ensures
            final(self).wf(),
            rep.answers(req),
            (match req {
                StoreReq::Get { key } => final(self)@ == old(self)@ && (match old(self)@.get(key@) {
                    Some(value) => rep->Get_0.is_ok() && rep->Get_0.unwrap().is_some()
                        && rep->Get_0.unwrap().unwrap()@ == value,
                    None => rep->Get_0 == Ok::<Option<Vec<u8>>, KvsError>(None),
                }),
                StoreReq::Put { key, value } => if old(self)@.write_fits(key@, value@) {
                    rep->Put_0 == Ok::<(), KvsError>(()) && final(self)@ == old(self)@.set(
                        key@,
                        value@,
                        now,
                    ) && updates(old(self)@, final(self)@, key@, Some(value@))
                } else {
                    rep->Put_0 == Err::<(), KvsError>(KvsError::Io(IoErrorKind::FileTooLarge))
                        && final(self)@ == old(self)@
                },
                StoreReq::Del { key } => if !old(self)@.index.contains_key(key@) {
                    rep->Del_0 == Err::<(), KvsError>(KvsError::KeyNotFound) && final(self)@
                        == old(self)@
                } else if old(self)@.delete_fits(key@) {
                    rep->Del_0 == Ok::<(), KvsError>(()) && final(self)@ == old(self)@.remove(
                        key@,
                        now,
                    ) && updates(old(self)@, final(self)@, key@, None)
                } else {
                    rep->Del_0 == Err::<(), KvsError>(KvsError::Io(IoErrorKind::FileTooLarge))
                        && final(self)@ == old(self)@
                },
            }),
    {
        match req {
            StoreReq::Get { key } => StoreRep::Get(self.get(key)),
            StoreReq::Put { key, value } => StoreRep::Put(self.set_at(key, value, now)),
            StoreReq::Del { key } => StoreRep::Del(self.remove_at(key, now)),
        }
    }

    /// Serves one request at the time that the clock gives. The reply is of
    /// the request's kind; a request that fails changes nothing.
    pub fn serve(&mut self, req: StoreReq) -> (rep: StoreRep)
        requires
            old(self).wf(),
        ensures
            final(self).wf(),
            rep.answers(req),
            req is Get ==> final(self)@ == old(self)@ && (match old(self)@.get(req->Get_key@) {
                Some(value) => rep->Get_0.is_ok() && rep->Get_0.unwrap().is_some()
                    && rep->Get_0.unwrap().unwrap()@ == value,
                None => rep->Get_0 == Ok::<Option<Vec<u8>>, KvsError>(None),
            }),
            rep matches StoreRep::Put(Ok(_)) ==> old(self)@.write_fits(
                req->Put_key@,
                req->Put_value@,
            ) && final(self)@.contents() == old(self)@.contents().insert(
                req->Put_key@,
                req->Put_value@,
            ) && updates(old(self)@, final(self)@, req->Put_key@, Some(req->Put_value@))
                && exists|now: i64|
                final(self)@ == old(self)@.set(req->Put_key@, req->Put_value@, now),
            rep matches StoreRep::Put(Err(e)) ==> final(self)@ == old(self)@ && (e is Whatever || (e
                == KvsError::Io(IoErrorKind::FileTooLarge) && !old(self)@.write_fits(
                req->Put_key@,
                req->Put_value@,
            ))),
            req is Del && !old(self)@.index.contains_key(req->Del_key@) ==> rep->Del_0 == Err::<
                (),
                KvsError,
            >(KvsError::KeyNotFound),
            rep matches StoreRep::Del(Ok(_)) ==> old(self)@.index.contains_key(req->Del_key@)
                && old(self)@.delete_fits(req->Del_key@)
                && final(self)@.contents() == old(self)@.contents().remove(req->Del_key@)
                && updates(old(self)@, final(self)@, req->Del_key@, None) && exists|now: i64|
                final(self)@ == old(self)@.remove(req->Del_key@, now),
            rep matches StoreRep::Del(Err(e)) ==> final(self)@ == old(self)@ && (if !old(self)@.index.contains_key(req->Del_key@) {
                e == KvsError::KeyNotFound
            } else {
                e is Whatever || (e == KvsError::Io(IoErrorKind::FileTooLarge)
                    && !old(self)@.delete_fits(req->Del_key@))
            }),
    {
        match req {
            StoreReq::Get { key } => StoreRep::Get(self.get(key)),
            StoreReq::Put { key, value } => StoreRep::Put(self.set(key, value)),
            StoreReq::Del { key } => StoreRep::Del(self.remove(key)),
        }
    }
}

/// The handle of an engine: it owns the engine and serves every operation as
/// a request and its reply.
pub struct KvStore {
    store: Store,
}

impl KvStore {
    /// The engine's state.
    pub closed spec fn view(&self) -> StoreView {
        self.store@
    }

    /// The engine's state is consistent.
    pub closed spec fn wf(&self) -> bool {
        self.store.wf()
    }

    /// A consistent handle has a consistent state: every law of the state
    /// holds of it.
    pub proof fn lemma_wf(&self)
        requires
            self.wf(),
        ensures
            self@.wf(),
    {
    }

    /// Opens an engine over the listed segments; see `Store::open`.
    pub fn open(segments: Vec<File>) -> (opened: Result<KvStore, KvsError>)
        ensures
            (match replay_files(dir_map(listing(segments@)), u64::MAX as nat + 1) {
                None => opened == Err::<KvStore, KvsError>(KvsError::Corrupt),
                Some(index) => if dir_map(listing(segments@)).contains_key(u64::MAX) {
                    opened == Err::<KvStore, KvsError>(KvsError::Io(IoErrorKind::StorageFull))
                } else {
                    opened.is_ok() && opened.unwrap().wf() && is_next_id(
                        dir_map(listing(segments@)),
                        opened.unwrap()@.active_fid,
                    ) && opened.unwrap()@ == recovered(
                        dir_map(listing(segments@)),
                        opened.unwrap()@.active_fid,
                    )
                },
            }),
            segments@.len() == 0 ==> opened.is_ok() && opened.unwrap()@.active_fid == 0
                && opened.unwrap()@.index == Map::<Seq<u8>, Index>::empty(),
    {
        match Store::open(segments) {
            Ok(store) => Ok(KvStore { store }),
            Err(e) => Err(e),
        }
    }

    /// Gets the value of `key`, or `None` where the key has no live record.
    pub fn get(&self, key: Vec<u8>) -> (found: Result<Option<Vec<u8>>, KvsError>)
        requires
            self.wf(),
        ensures
            (match self@.get(key@) {
                Some(value) => found.is_ok() && found.unwrap().is_some()
                    && found.unwrap().unwrap()@ == value,
                None => found == Ok::<Option<Vec<u8>>, KvsError>(None),
            }),
    {
        self.store.get(key)
    }

    /// Sets the value of `key` to `value`. A call that fails changes nothing.
    pub fn set(&mut self, key: Vec<u8>, value: Vec<u8>) -> (done: Result<(), KvsError>)
        requires
            old(self).wf(),
        ensures
            final(self).wf(),
            done is Ok ==> old(self)@.write_fits(key@, value@)
                && final(self)@.contents() == old(self)@.contents().insert(key@, value@)
                && updates(old(self)@, final(self)@, key@, Some(value@))
                && exists|timestamp: i64| final(self)@ == old(self)@.set(key@, value@, timestamp),
            done is Err ==> final(self)@ == old(self)@ && (done->Err_0 is Whatever || (done->Err_0
                == KvsError::Io(IoErrorKind::FileTooLarge) && !old(self)@.write_fits(
                key@,
                value@,
            ))),
    {
        match self.store.serve(StoreReq::Put { key, value }) {
            StoreRep::Put(done) => done,
            _ => unreached(),
        }
    }

    /// Removes `key`. Fails with `KeyNotFound` where the key has no live
    /// record. A call that fails changes nothing.
    pub fn del(&mut self, key: Vec<u8>) -> (done: Result<(), KvsError>)
        requires
            old(self).wf(),
        ensures
            final(self).wf(),
            !old(self)@.index.contains_key(key@) ==> done == Err::<(), KvsError>(
                KvsError::KeyNotFound,
            ),
            done is Ok ==> old(self)@.index.contains_key(key@) && old(self)@.delete_fits(key@)
                && final(self)@.contents() == old(self)@.contents().remove(key@)
                && updates(old(self)@, final(self)@, key@, None)
                && exists|timestamp: i64| final(self)@ == old(self)@.remove(key@, timestamp),
            done is Err ==> final(self)@ == old(self)@,
            done is Err && old(self)@.index.contains_key(key@) ==> done->Err_0 is Whatever || (
            done->Err_0 == KvsError::Io(IoErrorKind::FileTooLarge) && !old(self)@.delete_fits(
                key@,
            )),
    {
        match self.store.serve(StoreReq::Del { key }) {
            StoreRep::Del(done) => done,
            _ => unreached(),
        }
    }

    /// Compacts the engine; see `Store::compact`.
    pub fn compact(&mut self) -> (done: Result<(), KvsError>)
        requires
            old(self).wf(),
        ensures
            final(self).wf(),
            done is Ok ==> compacted(old(self)@, final(self)@),
            done is Ok <==> old(self)@.active_fid < u64::MAX && live_bytes(old(self)@.index)
                <= usize::MAX,
            done is Err ==> final(self)@ == old(self)@,
    {
        self.store.compact()
    }

    /// Stops the engine and gives its segments, in ascending order of id.
    pub fn cancel(self) -> (segments: Vec<File>)
        requires
            self.wf(),
        ensures
            ids_ascending(segments@),
            dir_map(listing(segments@)) == self@.files,
    {
        self.store.into_segments()
    }
}

} // verus!
