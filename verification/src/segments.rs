//! Lists of segments: what a listing holds, and putting it in order of id.

use crate::fs::{copy_of, File};
use crate::replay::{lemma_replay_files_gap, replay_files, replay_list};
use crate::util::{id_of_name, segment_id};
use vstd::prelude::*;

verus! {

/// A list of segments as mathematics: each one's id and bytes.
pub open spec fn listing(files: Seq<File>) -> Seq<(u64, Seq<u8>)> {
    Seq::new(files.len(), |i: int| (files[i].spec_id(), files[i]@))
}

/// The ids of a list of segments grow strictly.
pub open spec fn ids_ascending(files: Seq<File>) -> bool {
    forall|i: int, j: int| 0 <= i < j < files.len() ==> files[i].spec_id() < files[j].spec_id()
}

/// The ids of a listing grow strictly.
pub open spec fn ascending(segs: Seq<(u64, Seq<u8>)>) -> bool {
    forall|i: int, j: int| 0 <= i < j < segs.len() ==> segs[i].0 < segs[j].0
}

/// The segments of a listing, by id. Where an id is listed twice, the first
/// listing stands.
pub open spec fn dir_map(segs: Seq<(u64, Seq<u8>)>) -> Map<u64, Seq<u8>>
    decreases segs.len(),
{
    if segs.len() == 0 {
        Map::empty()
    } else {
        let rest = dir_map(segs.drop_last());
        if rest.contains_key(segs.last().0) {
            rest
        } else {
            rest.insert(segs.last().0, segs.last().1)
        }
    }
}

/// `a` is the id that a new active segment gets: one more than the greatest
/// id there is, or 0 where there is none.
pub open spec fn is_next_id(files: Map<u64, Seq<u8>>, a: u64) -> bool {
    &&& forall|id: u64| #[trigger] files.contains_key(id) ==> id < a
    &&& a == 0 || files.contains_key((a - 1) as u64)
}

/// A list with ascending ids is an ascending listing.
pub proof fn lemma_listing_ascending(files: Seq<File>)
    requires
        ids_ascending(files),
    ensures
        ascending(listing(files)),
{
    let l = listing(files);
    assert forall|i: int, j: int| 0 <= i < j < l.len() implies l[i].0 < l[j].0 by {
        assert(files[i].spec_id() < files[j].spec_id());
    }
}

/// A listing holds a segment for exactly the ids that it lists.
pub proof fn lemma_dir_map_dom(segs: Seq<(u64, Seq<u8>)>, id: u64)
    ensures
        dir_map(segs).contains_key(id) <==> exists|i: int|
            0 <= i < segs.len() && (#[trigger] segs[i]).0 == id,
        dir_map(segs).dom().finite(),
    decreases segs.len(),
{
    if segs.len() > 0 {
        let front = segs.drop_last();
        lemma_dir_map_dom(front, id);
        if dir_map(segs).contains_key(id) {
            if dir_map(front).contains_key(id) {
                let i = choose|i: int| 0 <= i < front.len() && (#[trigger] front[i]).0 == id;
                assert(segs[i].0 == id);
            } else {
                assert(segs[segs.len() - 1].0 == id);
            }
        }
        if exists|i: int| 0 <= i < segs.len() && (#[trigger] segs[i]).0 == id {
            let i = choose|i: int| 0 <= i < segs.len() && (#[trigger] segs[i]).0 == id;
            if i < front.len() {
                assert(front[i].0 == id);
            }
        }
    }
}

/// The segment that a listing holds for an id is the first one listed with it.
pub proof fn lemma_dir_map_first(segs: Seq<(u64, Seq<u8>)>, i: int)
    requires
        0 <= i < segs.len(),
        forall|j: int| 0 <= j < i ==> (#[trigger] segs[j]).0 != segs[i].0,
    ensures
        dir_map(segs).contains_key(segs[i].0),
        dir_map(segs)[segs[i].0] == segs[i].1,
    decreases segs.len(),
{
    let front = segs.drop_last();
    if i < segs.len() - 1 {
        assert(front[i] == segs[i]);
        assert forall|j: int| 0 <= j < i implies (#[trigger] front[j]).0 != front[i].0 by {
            assert(front[j] == segs[j]);
        }
        lemma_dir_map_first(front, i);
    } else {
        lemma_dir_map_dom(front, segs[i].0);
        if dir_map(front).contains_key(segs[i].0) {
            let j = choose|j: int| 0 <= j < front.len() && (#[trigger] front[j]).0 == segs[i].0;
            assert(segs[j].0 == segs[i].0);
        }
    }
}

/// Replaying an ascending listing in its order is replaying its segments in
/// order of id.
pub proof fn lemma_replay_list_ascending(segs: Seq<(u64, Seq<u8>)>, n: nat)
    requires
        n <= segs.len(),
        ascending(segs),
    ensures
        replay_list(segs, n) == replay_files(
            dir_map(segs),
            if n == 0 {
                0
            } else {
                segs[n - 1].0 as nat + 1
            },
        ),
    decreases n,
{
    if n > 0 {
        let files = dir_map(segs);
        let id = segs[n - 1].0;
        let lo: nat = if n == 1 {
            0
        } else {
            segs[n - 2].0 as nat + 1
        };
        lemma_replay_list_ascending(segs, (n - 1) as nat);
        assert forall|other: u64| lo <= other < id implies !files.contains_key(other) by {
            lemma_dir_map_dom(segs, other);
        }
        lemma_replay_files_gap(files, lo, id as nat);
        lemma_dir_map_first(segs, n - 1);
    }
}

/// Copies the listed segments into ascending order of id. Of two segments
/// with one id the first listed is kept.
pub fn sort_segments(segs: &Vec<File>) -> (out: Vec<File>)
    ensures
        ids_ascending(out@),
        ascending(listing(out@)),
        dir_map(listing(out@)) == dir_map(listing(segs@)),
{
    let ghost given = listing(segs@);
    let ghost dir = dir_map(given);
    let mut out: Vec<File> = Vec::new();
    let mut next: u64 = 0;
    let mut more: bool = true;
    while more
        invariant
            given == listing(segs@),
            dir == dir_map(given),
            ids_ascending(out@),
            forall|j: int|
                0 <= j < out@.len() ==> dir.contains_key((#[trigger] out@[j]).spec_id())
                    && dir[out@[j].spec_id()] == out@[j]@,
            more ==> forall|j: int| 0 <= j < out@.len() ==> (#[trigger] out@[j]).spec_id() < next,
            forall|id: u64|
                #[trigger] dir.contains_key(id) && (more ==> id < next) ==> exists|j: int|
                    0 <= j < out@.len() && (#[trigger] out@[j]).spec_id() == id,
        decreases
                (if more {
                    u64::MAX - next + 1
                } else {
                    0
                }),
    {
        let mut best: Option<usize> = None;
        let mut i: usize = 0;
        while i < segs.len()
            invariant
                0 <= i <= segs.len(),
                match best {
                    None => forall|j: int| 0 <= j < i ==> (#[trigger] segs@[j]).spec_id() < next,
                    Some(b) => b < i && segs@[b as int].spec_id() >= next && (forall|j: int|
                        0 <= j < i && (#[trigger] segs@[j]).spec_id() >= next ==> segs@[j].spec_id()
                            >= segs@[b as int].spec_id()) && (forall|j: int|
                        0 <= j < b ==> (#[trigger] segs@[j]).spec_id() != segs@[b as int].spec_id()),
                },
            decreases segs.len() - i,
        {
            let id: u64 = segs[i].id();
            if id >= next {
                match best {
                    None => {
                        best = Some(i);
                    },
                    Some(b) => {
                        if id < segs[b].id() {
                            best = Some(i);
                        }
                    },
                }
            }
            i = i + 1;
        }
        match best {
            None => {
                proof {
                    assert forall|id: u64| #[trigger] dir.contains_key(id) implies id < next by {
                        lemma_dir_map_dom(given, id);
                        let j = choose|j: int| 0 <= j < given.len() && (#[trigger] given[j]).0 == id;
                        assert(segs@[j].spec_id() == id);
                    }
                }
                more = false;
            },
            Some(b) => {
                let id: u64 = segs[b].id();
                let ghost before = out@;
                proof {
                    assert forall|j: int| 0 <= j < b implies (#[trigger] given[j]).0
                        != given[b as int].0 by {
                        assert(segs@[j].spec_id() != segs@[b as int].spec_id());
                    }
                    lemma_dir_map_first(given, b as int);
                    assert forall|other: u64| next <= other < id implies !dir.contains_key(other) by {
                        lemma_dir_map_dom(given, other);
                        if dir.contains_key(other) {
                            let j = choose|j: int|
                                0 <= j < given.len() && (#[trigger] given[j]).0 == other;
                            assert(segs@[j].spec_id() == other);
                        }
                    }
                }
                out.push(File::new(id, copy_of(segs[b].bytes())));
                proof {
                    assert(out@[before.len() as int].spec_id() == id);
                    assert forall|k: u64|
                        #[trigger] dir.contains_key(k) && k <= id implies exists|j: int|
                        0 <= j < out@.len() && (#[trigger] out@[j]).spec_id() == k by {
                        if k < next {
                            let j = choose|j: int|
                                0 <= j < before.len() && (#[trigger] before[j]).spec_id() == k;
                            assert(out@[j].spec_id() == k);
                        } else {
                            assert(k == id);
                        }
                    }
                }
                if id == u64::MAX {
                    more = false;
                } else {
                    next = id + 1;
                }
            },
        }
    }
    proof {
        lemma_listing_ascending(out@);
        let sorted = listing(out@);
        assert forall|id: u64| dir_map(sorted).contains_key(id) == dir.contains_key(id) by {
            lemma_dir_map_dom(sorted, id);
            if dir_map(sorted).contains_key(id) {
                let j = choose|j: int| 0 <= j < sorted.len() && (#[trigger] sorted[j]).0 == id;
                assert(out@[j].spec_id() == id);
            }
            if dir.contains_key(id) {
                let j = choose|j: int| 0 <= j < out@.len() && (#[trigger] out@[j]).spec_id() == id;
                assert(sorted[j].0 == id);
            }
        }
        assert forall|id: u64| dir.contains_key(id) implies dir_map(sorted)[id] == dir[id] by {
            let j = choose|j: int| 0 <= j < out@.len() && (#[trigger] out@[j]).spec_id() == id;
            assert(sorted[j].0 == id);
            lemma_dir_map_first(sorted, j);
        }
        assert(dir_map(sorted) =~= dir);
    }
    out
}

/// One more than the greatest of the chosen ids, or 0 where none is chosen.
pub open spec fn bound_of(chosen: Seq<u64>) -> nat
    decreases chosen.len(),
{
    if chosen.len() == 0 {
        0
    } else {
        let rest = bound_of(chosen.drop_last());
        if chosen.last() + 1 > rest {
            (chosen.last() + 1) as nat
        } else {
            rest
        }
    }
}

/// Every chosen id lies below the bound of the chosen.
pub proof fn lemma_bound_of(chosen: Seq<u64>)
    ensures
        forall|i: int| 0 <= i < chosen.len() ==> (#[trigger] chosen[i]) < bound_of(chosen),
    decreases chosen.len(),
{
    if chosen.len() > 0 {
        let front = chosen.drop_last();
        lemma_bound_of(front);
        assert forall|i: int| 0 <= i < chosen.len() implies (#[trigger] chosen[i]) < bound_of(
            chosen,
        ) by {
            if i < front.len() {
                assert(front[i] == chosen[i]);
            }
        }
    }
}

/// An id below the bound of the chosen is at most some chosen id.
pub proof fn lemma_below_bound(chosen: Seq<u64>, id: u64)
    requires
        id < bound_of(chosen),
    ensures
        exists|i: int| 0 <= i < chosen.len() && id <= #[trigger] chosen[i],
    decreases chosen.len(),
{
    if chosen.len() > 0 {
        let front = chosen.drop_last();
        if id < bound_of(front) {
            lemma_below_bound(front, id);
            let i = choose|i: int| 0 <= i < front.len() && id <= #[trigger] front[i];
            assert(id <= chosen[i]);
        } else {
            assert(id <= chosen[chosen.len() - 1]);
        }
    }
}

/// Whether `id` is among the chosen ids.
pub fn is_chosen(chosen: &Vec<u64>, id: u64) -> (found: bool)
    ensures
        found == chosen@.contains(id),
{
    let mut i: usize = 0;
    while i < chosen.len()
        invariant
            0 <= i <= chosen.len(),
            forall|j: int| 0 <= j < i ==> chosen@[j] != id,
        decreases chosen.len() - i,
    {
        if chosen[i] == id {
            return true;
        }
        i = i + 1;
    }
    false
}

/// One file of a directory: its name and its bytes.
#[derive(Debug)]
pub struct DirEntry {
    pub name: Vec<u8>,
    pub data: Vec<u8>,
}

/// The segments among the files of a directory, in the order of the
/// directory: a file is a segment exactly when its name is the name of one,
/// and then has the id that the name gives. Every other file is ignored.
pub open spec fn segments_in(entries: Seq<DirEntry>) -> Seq<(u64, Seq<u8>)>
    decreases entries.len(),
{
    if entries.len() == 0 {
        Seq::empty()
    } else {
        let rest = segments_in(entries.drop_last());
        match id_of_name(entries.last().name@) {
            Some(id) => rest.push((id, entries.last().data@)),
            None => rest,
        }
    }
}

/// Picks the segments out of the files of a directory.
pub fn segments_of(entries: &Vec<DirEntry>) -> (segments: Vec<File>)
    ensures
        listing(segments@) == segments_in(entries@),
{
    let mut segments: Vec<File> = Vec::new();
    let mut i: usize = 0;
    proof {
        assert(entries@.take(0) =~= Seq::<DirEntry>::empty());
        assert(listing(segments@) =~= segments_in(entries@.take(0)));
    }
    while i < entries.len()
        invariant
            0 <= i <= entries.len(),
            listing(segments@) == segments_in(entries@.take(i as int)),
        decreases entries.len() - i,
    {
        let ghost before = segments@;
        proof {
            assert(entries@.take(i as int + 1).drop_last() =~= entries@.take(i as int));
        }
        match segment_id(entries[i].name.as_slice()) {
            Some(id) => {
                segments.push(File::new(id, copy_of(entries[i].data.as_slice())));
                proof {
                    assert(listing(segments@) =~= listing(before).push(
                        (id, entries@[i as int].data@),
                    ));
                }
            },
            None => {},
        }
        i = i + 1;
    }
    proof {
        assert(entries@.take(entries@.len() as int) =~= entries@);
    }
    segments
}

} // verus!
