//! Bringing a directory up to date with an engine: what to write and what to
//! delete, and in which order.

use crate::kv::Store;
use vstd::prelude::*;

verus! {

/// What a directory holds of a segment: its id and its length there.
#[derive(Clone, Copy, Debug, PartialEq, Eq, Structural)]
pub struct OnDisk {
    pub id: u64,
    pub len: usize,
}

/// One step of bringing a directory up to date.
#[derive(Clone, Copy, Debug, PartialEq, Eq, Structural)]
pub enum DiskOp {
    /// Write the bytes of segment `id` from offset `from` on, at that offset
    /// of its file; the file is created where it is not there.
    Append { id: u64, from: usize },
    /// Delete the file of segment `id`.
    Remove { id: u64 },
}

/// The length that the directory has of segment `id`, if it has the segment.
/// Of two listings of one id the later stands.
pub open spec fn disk_len(on_disk: Seq<OnDisk>, id: u64) -> Option<usize>
    decreases on_disk.len(),
{
    if on_disk.len() == 0 {
        None
    } else if on_disk.last().id == id {
        Some(on_disk.last().len)
    } else {
        disk_len(on_disk.drop_last(), id)
    }
}

/// The offset from which segment `id` is to be written: 0 where the
/// directory lacks it, its length there where the engine has more of it, and
/// none where the directory has all of it or the engine has no such segment.
pub open spec fn wanted(files: Map<u64, Seq<u8>>, on_disk: Seq<OnDisk>, id: u64) -> Option<usize> {
    if !files.contains_key(id) {
        None
    } else {
        match disk_len(on_disk, id) {
            None => Some(0),
            Some(len) => if len < files[id].len() {
                Some(len)
            } else {
                None
            },
        }
    }
}

/// The step is called for: a write of a segment of the engine from the
/// offset wanted, or the deletion of a segment that the directory has and
/// the engine has dropped.
pub open spec fn called_for(files: Map<u64, Seq<u8>>, on_disk: Seq<OnDisk>, op: DiskOp) -> bool {
    match op {
        DiskOp::Append { id, from } => wanted(files, on_disk, id) == Some(from),
        DiskOp::Remove { id } => disk_len(on_disk, id) is Some && !files.contains_key(id),
    }
}

/// A listed segment has a length in the directory.
pub proof fn lemma_listed_has_len(on_disk: Seq<OnDisk>, k: int)
    requires
        0 <= k < on_disk.len(),
    ensures
        disk_len(on_disk, on_disk[k].id) is Some,
    decreases on_disk.len(),
{
    if on_disk.last().id != on_disk[k].id {
        assert(on_disk.drop_last()[k] == on_disk[k]);
        lemma_listed_has_len(on_disk.drop_last(), k);
    }
}

/// The length that the directory has of segment `id`.
pub fn disk_length(on_disk: &Vec<OnDisk>, id: u64) -> (len: Option<usize>)
    ensures
        len == disk_len(on_disk@, id),
{
    let mut i: usize = on_disk.len();
    proof {
        assert(on_disk@.take(i as int) =~= on_disk@);
    }
    while i > 0
        invariant
            0 <= i <= on_disk.len(),
            disk_len(on_disk@, id) == disk_len(on_disk@.take(i as int), id),
        decreases i,
    {
        proof {
            assert(on_disk@.take(i as int).drop_last() =~= on_disk@.take(i as int - 1));
        }
        if on_disk[i - 1].id == id {
            return Some(on_disk[i - 1].len);
        }
        i = i - 1;
    }
    None
}

/// The steps that bring a directory up to date with the engine. Every write
/// comes before every deletion, so that no record is dropped from disk
/// before its copy is there. A segment is written from where the directory's
/// copy ends; a segment that the directory lacks is written whole, and
/// created even where it is empty; a segment that the engine has dropped is
/// deleted. Nothing else is touched.
pub fn sync_plan(store: &Store, on_disk: &Vec<OnDisk>) -> (plan: Vec<DiskOp>)
    requires
        store.wf(),
    ensures
        forall|i: int| 0 <= i < plan@.len() ==> called_for(store@.files, on_disk@, #[trigger] plan@[i]),
        forall|id: u64|
            #[trigger] wanted(store@.files, on_disk@, id) is Some ==> plan@.contains(
                DiskOp::Append { id, from: wanted(store@.files, on_disk@, id).unwrap() },
            ),
        forall|k: int|
            0 <= k < on_disk@.len() && !store@.files.contains_key((#[trigger] on_disk@[k]).id)
                ==> plan@.contains(DiskOp::Remove { id: on_disk@[k].id }),
        forall|i: int, j: int|
            0 <= i < j < plan@.len() && (#[trigger] plan@[i]) is Remove ==> (
            #[trigger] plan@[j]) is Remove,
{
    let ids = store.segment_ids();
    let ghost files = store@.files;
    let mut plan: Vec<DiskOp> = Vec::new();
    let mut i: usize = 0;
    while i < ids.len()
        invariant
            0 <= i <= ids.len(),
            files == store@.files,
            forall|id: u64| ids@.contains(id) <==> files.contains_key(id),
            forall|a: int|
                0 <= a < plan@.len() ==> called_for(files, on_disk@, #[trigger] plan@[a])
                    && plan@[a] is Append,
            forall|m: int|
                0 <= m < i && wanted(files, on_disk@, #[trigger] ids@[m]) is Some ==> plan@.contains(
                    DiskOp::Append { id: ids@[m], from: wanted(files, on_disk@, ids@[m]).unwrap() },
                ),
        decreases ids.len() - i,
    {
        let id: u64 = ids[i];
        let ghost before = plan@;
        proof {
            assert(ids@.contains(ids@[i as int]));
        }
        match store.segment(id) {
            Some(file) => {
                let len: usize = file.pos();
                match disk_length(on_disk, id) {
                    None => {
                        plan.push(DiskOp::Append { id, from: 0 });
                    },
                    Some(there) => {
                        if there < len {
                            plan.push(DiskOp::Append { id, from: there });
                        }
                    },
                }
            },
            None => {},
        }
        proof {
            assert forall|m: int|
                0 <= m < i + 1 && wanted(files, on_disk@, #[trigger] ids@[m]) is Some implies plan@.contains(
                DiskOp::Append { id: ids@[m], from: wanted(files, on_disk@, ids@[m]).unwrap() },
            ) by {
                let op = DiskOp::Append {
                    id: ids@[m],
                    from: wanted(files, on_disk@, ids@[m]).unwrap(),
                };
                if m < i {
                    assert(before.contains(op));
                    let a = choose|a: int| 0 <= a < before.len() && before[a] == op;
                    assert(plan@[a] == op);
                } else {
                    assert(plan@[before.len() as int] == op);
                }
            }
        }
        i = i + 1;
    }
    let ghost writes = plan@;
    proof {
        assert forall|id: u64| #[trigger] wanted(files, on_disk@, id) is Some implies writes.contains(
            DiskOp::Append { id, from: wanted(files, on_disk@, id).unwrap() },
        ) by {
            assert(ids@.contains(id));
            let m = choose|m: int| 0 <= m < ids@.len() && ids@[m] == id;
            assert(wanted(files, on_disk@, ids@[m]) is Some);
        }
    }
    let mut k: usize = 0;
    while k < on_disk.len()
        invariant
            0 <= k <= on_disk.len(),
            files == store@.files,
            writes.len() <= plan@.len(),
            forall|a: int|
                0 <= a < writes.len() ==> (#[trigger] plan@[a]) == writes[a] && writes[a] is Append,
            forall|a: int| writes.len() <= a < plan@.len() ==> (#[trigger] plan@[a]) is Remove,
            forall|a: int|
                0 <= a < plan@.len() ==> called_for(files, on_disk@, #[trigger] plan@[a]),
            forall|m: int|
                0 <= m < k && !files.contains_key((#[trigger] on_disk@[m]).id) ==> plan@.contains(
                    DiskOp::Remove { id: on_disk@[m].id },
                ),
        decreases on_disk.len() - k,
    {
        let id: u64 = on_disk[k].id;
        let ghost before = plan@;
        proof {
            lemma_listed_has_len(on_disk@, k as int);
        }
        if store.segment(id).is_none() {
            plan.push(DiskOp::Remove { id });
        }
        proof {
            assert forall|m: int|
                0 <= m < k + 1 && !files.contains_key((#[trigger] on_disk@[m]).id) implies plan@.contains(
                DiskOp::Remove { id: on_disk@[m].id },
            ) by {
                let op = DiskOp::Remove { id: on_disk@[m].id };
                if m < k {
                    assert(before.contains(op));
                    let a = choose|a: int| 0 <= a < before.len() && before[a] == op;
                    assert(plan@[a] == op);
                } else {
                    assert(plan@[before.len() as int] == op);
                }
            }
        }
        k = k + 1;
    }
    proof {
        assert forall|id: u64| #[trigger] wanted(files, on_disk@, id) is Some implies plan@.contains(
            DiskOp::Append { id, from: wanted(files, on_disk@, id).unwrap() },
        ) by {
            let op = DiskOp::Append { id, from: wanted(files, on_disk@, id).unwrap() };
            let a = choose|a: int| 0 <= a < writes.len() && writes[a] == op;
            assert(plan@[a] == op);
        }
        assert forall|i: int, j: int|
            0 <= i < j < plan@.len() && (#[trigger] plan@[i]) is Remove implies (
        #[trigger] plan@[j]) is Remove by {
            if i < writes.len() {
                assert(plan@[i] == writes[i]);
            }
        }
    }
    plan
}

} // verus!
