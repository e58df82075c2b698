//! Counting bytes: the live records against the segments that hold them.

use crate::fs::tail_from;
use crate::replay::{apply, lemma_replay_files_finite, replay_files, replay_segment};
use crate::xchg::{decode, lemma_decode_is_encoding, Decoded, Index, Record};
use vstd::prelude::*;

verus! {

/// Adds the weight of `k` to `sum`.
pub open spec fn weigh<K>(w: spec_fn(K) -> nat) -> spec_fn(nat, K) -> nat {
    |sum: nat, k: K| sum + w(k)
}

/// The sum of the weights of the members of a finite set.
pub open spec fn sum_over<K>(s: Set<K>, w: spec_fn(K) -> nat) -> nat {
    s.fold(0nat, weigh(w))
}

/// The length of the record that the index names for `k`.
pub open spec fn len_of(index: Map<Seq<u8>, Index>) -> spec_fn(Seq<u8>) -> nat {
    |k: Seq<u8>| index[k].len as nat
}

/// The sum of the lengths of the records that the index names.
pub open spec fn live_bytes(index: Map<Seq<u8>, Index>) -> nat {
    sum_over(index.dom(), len_of(index))
}

/// The sum of the lengths of the segments with an id below `bound`.
pub open spec fn size_below(files: Map<u64, Seq<u8>>, bound: nat) -> nat
    decreases bound,
{
    if bound == 0 {
        0
    } else {
        let id = (bound - 1) as u64;
        size_below(files, (bound - 1) as nat) + if files.contains_key(id) {
            files[id].len()
        } else {
            0
        }
    }
}

/// `entries` lists every entry of `index` once, each with its key.
pub open spec fn enumerates(entries: Seq<(Seq<u8>, Index)>, index: Map<Seq<u8>, Index>) -> bool {
    &&& forall|i: int|
        0 <= i < entries.len() ==> index.contains_key((#[trigger] entries[i]).0) && index[entries[i].0]
            == entries[i].1
    &&& forall|k: Seq<u8>|
        index.contains_key(k) ==> exists|i: int| 0 <= i < entries.len() && (#[trigger] entries[i]).0 == k
    &&& forall|i: int, j: int|
        0 <= i < j < entries.len() ==> (#[trigger] entries[i]).0 != (#[trigger] entries[j]).0
}

/// The sum over a set with one more member is the sum over the set, plus
/// the member's weight.
pub proof fn lemma_sum_insert<K>(s: Set<K>, w: spec_fn(K) -> nat, k: K)
    requires
        s.finite(),
        !s.contains(k),
    ensures
        sum_over(s.insert(k), w) == sum_over(s, w) + w(k),
{
    let f = weigh(w);
    assert(vstd::set::fold::is_fun_commutative(f)) by {
        assert forall|a1: K, a2: K, b: nat| #[trigger] f(f(b, a2), a1) == f(f(b, a1), a2) by {}
    }
    vstd::set::fold::lemma_fold_insert(s, 0nat, f, k);
}

/// The sum over a set is the sum over the set without one member, plus that
/// member's weight.
pub proof fn lemma_sum_remove<K>(s: Set<K>, w: spec_fn(K) -> nat, k: K)
    requires
        s.finite(),
        s.contains(k),
    ensures
        sum_over(s, w) == sum_over(s.remove(k), w) + w(k),
{
    lemma_sum_insert(s.remove(k), w, k);
    assert(s.remove(k).insert(k) =~= s);
}

/// Weights that agree on a set give the same sum over it.
pub proof fn lemma_sum_congruent<K>(s: Set<K>, v: spec_fn(K) -> nat, w: spec_fn(K) -> nat)
    requires
        s.finite(),
        forall|k: K| s.contains(k) ==> #[trigger] v(k) == w(k),
    ensures
        sum_over(s, v) == sum_over(s, w),
    decreases s.len(),
{
    if s.len() == 0 {
        assert(s =~= Set::<K>::empty());
        vstd::set::fold::lemma_fold_empty::<K, nat>(0nat, weigh(v));
        vstd::set::fold::lemma_fold_empty::<K, nat>(0nat, weigh(w));
    } else {
        let x = s.choose();
        lemma_sum_remove(s, v, x);
        lemma_sum_remove(s, w, x);
        lemma_sum_congruent(s.remove(x), v, w);
    }
}

/// Pointing a key at a record adds at most the record's length to the live
/// bytes.
pub proof fn lemma_live_insert(index: Map<Seq<u8>, Index>, k: Seq<u8>, e: Index)
    requires
        index.dom().finite(),
    ensures
        live_bytes(index.insert(k, e)) <= live_bytes(index) + e.len,
        !index.contains_key(k) ==> live_bytes(index.insert(k, e)) == live_bytes(index) + e.len,
{
    let next = index.insert(k, e);
    let v = len_of(index);
    let w = len_of(next);
    if index.contains_key(k) {
        assert(next.dom() =~= index.dom());
        lemma_sum_remove(index.dom(), v, k);
        lemma_sum_remove(index.dom(), w, k);
        lemma_sum_congruent(index.dom().remove(k), v, w);
    } else {
        assert(next.dom() =~= index.dom().insert(k));
        lemma_sum_insert(index.dom(), w, k);
        lemma_sum_congruent(index.dom(), v, w);
    }
}

/// Dropping a key adds nothing to the live bytes.
pub proof fn lemma_live_remove(index: Map<Seq<u8>, Index>, k: Seq<u8>)
    requires
        index.dom().finite(),
    ensures
        live_bytes(index.remove(k)) <= live_bytes(index),
{
    let next = index.remove(k);
    if index.contains_key(k) {
        assert(next.dom() =~= index.dom().remove(k));
        lemma_sum_remove(index.dom(), len_of(index), k);
        lemma_sum_congruent(next.dom(), len_of(index), len_of(next));
    } else {
        assert(next =~= index);
    }
}

/// Changing one segment changes the sizes by the change of its length.
pub proof fn lemma_size_insert(files: Map<u64, Seq<u8>>, id: u64, data: Seq<u8>, bound: nat)
    requires
        bound <= u64::MAX + 1,
    ensures
        size_below(files.insert(id, data), bound) + (if id < bound && files.contains_key(id) {
            files[id].len()
        } else {
            0
        }) == size_below(files, bound) + (if id < bound {
            data.len()
        } else {
            0
        }),
    decreases bound,
{
    if bound > 0 {
        lemma_size_insert(files, id, data, (bound - 1) as nat);
    }
}

/// Segments with ids at or above `bound` do not count below `bound`.
pub proof fn lemma_size_frame(a: Map<u64, Seq<u8>>, b: Map<u64, Seq<u8>>, bound: nat)
    requires
        bound <= u64::MAX + 1,
        forall|id: u64| id < bound ==> a.contains_key(id) == b.contains_key(id),
        forall|id: u64| id < bound && a.contains_key(id) ==> a[id] == b[id],
    ensures
        size_below(a, bound) == size_below(b, bound),
    decreases bound,
{
    if bound > 0 {
        lemma_size_frame(a, b, (bound - 1) as nat);
    }
}

/// Where no segment has an id from `lo` up to `hi`, the sizes below `hi` are
/// those below `lo`.
pub proof fn lemma_size_gap(files: Map<u64, Seq<u8>>, lo: nat, hi: nat)
    requires
        lo <= hi <= u64::MAX + 1,
        forall|id: u64| lo <= id < hi ==> !files.contains_key(id),
    ensures
        size_below(files, hi) == size_below(files, lo),
    decreases hi - lo,
{
    if lo < hi {
        lemma_size_gap(files, lo, (hi - 1) as nat);
    }
}

/// The sizes grow with the bound.
pub proof fn lemma_size_grows(files: Map<u64, Seq<u8>>, lo: nat, hi: nat)
    requires
        lo <= hi,
    ensures
        size_below(files, lo) <= size_below(files, hi),
    decreases hi - lo,
{
    if lo < hi {
        lemma_size_grows(files, lo, (hi - 1) as nat);
    }
}

/// A single segment is all the size there is.
pub proof fn lemma_size_single(id: u64, data: Seq<u8>)
    ensures
        size_below(Map::<u64, Seq<u8>>::empty().insert(id, data), u64::MAX as nat + 1)
            == data.len(),
{
    let none = Map::<u64, Seq<u8>>::empty();
    lemma_size_gap(none, 0, u64::MAX as nat + 1);
    lemma_size_insert(none, id, data, u64::MAX as nat + 1);
}

/// Replaying a segment adds to the live bytes no more than the bytes that
/// were read.
pub proof fn lemma_replay_segment_bytes(
    index: Map<Seq<u8>, Index>,
    fid: u64,
    data: Seq<u8>,
    pos: nat,
)
    requires
        index.dom().finite(),
        pos <= data.len() <= usize::MAX,
        replay_segment(index, fid, data, pos) is Some,
    ensures
        live_bytes(replay_segment(index, fid, data, pos).unwrap()) <= live_bytes(index)
            + data.len() - pos,
    decreases data.len() - pos,
{
    match decode(tail_from(data, pos as int)) {
        Decoded::Entry { record, len } => {
            lemma_decode_is_encoding(tail_from(data, pos as int));
            let next = apply(index, fid, pos, record);
            match record {
                Record::Write { key, value, timestamp } => {
                    lemma_live_insert(index, key, next[key]);
                },
                Record::Delete { key, .. } => {
                    lemma_live_remove(index, key);
                },
            }
            lemma_replay_segment_bytes(next, fid, data, pos + len);
        },
        _ => {},
    }
}

/// The records that replaying leaves live are together no longer than the
/// segments replayed.
pub proof fn lemma_replay_files_bytes(files: Map<u64, Seq<u8>>, bound: nat)
    requires
        bound <= u64::MAX + 1,
        forall|id: u64| #[trigger] files.contains_key(id) ==> files[id].len() <= usize::MAX,
        replay_files(files, bound) is Some,
    ensures
        live_bytes(replay_files(files, bound).unwrap()) <= size_below(files, bound),
    decreases bound,
{
    if bound > 0 {
        lemma_replay_files_bytes(files, (bound - 1) as nat);
        lemma_replay_files_finite(files, (bound - 1) as nat);
        let id = (bound - 1) as u64;
        if files.contains_key(id) {
            lemma_replay_segment_bytes(
                replay_files(files, (bound - 1) as nat).unwrap(),
                id,
                files[id],
                0,
            );
        }
    } else {
        vstd::set::fold::lemma_fold_empty::<Seq<u8>, nat>(
            0nat,
            weigh(len_of(Map::<Seq<u8>, Index>::empty())),
        );
        assert(Map::<Seq<u8>, Index>::empty().dom() =~= Set::<Seq<u8>>::empty());
    }
}

/// The sum over a part of a set is no more than the sum over the set.
pub proof fn lemma_sum_subset<K>(part: Set<K>, all: Set<K>, w: spec_fn(K) -> nat)
    requires
        all.finite(),
        part.subset_of(all),
    ensures
        part.finite(),
        sum_over(part, w) <= sum_over(all, w),
    decreases all.len(),
{
    vstd::set_lib::lemma_len_subset(part, all);
    if part =~= all {
    } else {
        let x = choose|x: K| all.contains(x) && !part.contains(x);
        lemma_sum_remove(all, w, x);
        lemma_sum_subset(part, all.remove(x), w);
    }
}

/// An index that holds some of the entries of another has no more live
/// bytes.
pub proof fn lemma_live_subset(part: Map<Seq<u8>, Index>, all: Map<Seq<u8>, Index>)
    requires
        all.dom().finite(),
        forall|k: Seq<u8>| #[trigger] part.contains_key(k) ==> all.contains_key(k) && all[k] == part[k],
    ensures
        part.dom().finite(),
        live_bytes(part) <= live_bytes(all),
{
    lemma_sum_subset(part.dom(), all.dom(), len_of(all));
    lemma_sum_congruent(part.dom(), len_of(part), len_of(all));
}

/// The sum of the lengths of those of the first `n` listed entries that name
/// a segment below `bound`.
pub open spec fn moved_bytes(entries: Seq<(Seq<u8>, Index)>, n: int, bound: u64) -> nat
    decreases n,
{
    if n <= 0 {
        0
    } else {
        moved_bytes(entries, n - 1, bound) + if entries[n - 1].1.file_id < bound {
            entries[n - 1].1.len as nat
        } else {
            0
        }
    }
}

/// The keys of those of the first `n` listed entries that name a segment
/// below `bound`.
pub open spec fn moved_keys(entries: Seq<(Seq<u8>, Index)>, n: int, bound: u64) -> Set<Seq<u8>> {
    Set::new(
        |k: Seq<u8>|
            exists|i: int|
                0 <= i < n && (#[trigger] entries[i]).0 == k && entries[i].1.file_id < bound,
    )
}

/// The moved sums grow with the number of entries.
pub proof fn lemma_moved_bytes_grow(entries: Seq<(Seq<u8>, Index)>, i: int, j: int, bound: u64)
    requires
        i <= j,
    ensures
        moved_bytes(entries, i, bound) <= moved_bytes(entries, j, bound),
    decreases j - i,
{
    if i < j {
        lemma_moved_bytes_grow(entries, i, j - 1, bound);
    }
}

/// The moved ones among the first `n` entries of a listing of the index sum
/// up as the index does over their keys.
pub proof fn lemma_moved_prefix(
    entries: Seq<(Seq<u8>, Index)>,
    index: Map<Seq<u8>, Index>,
    n: int,
    bound: u64,
)
    requires
        enumerates(entries, index),
        0 <= n <= entries.len(),
    ensures
        moved_keys(entries, n, bound).finite(),
        moved_bytes(entries, n, bound) == sum_over(moved_keys(entries, n, bound), len_of(index)),
    decreases n,
{
    if n == 0 {
        assert(moved_keys(entries, 0, bound) =~= Set::<Seq<u8>>::empty());
        vstd::set::fold::lemma_fold_empty::<Seq<u8>, nat>(0nat, weigh(len_of(index)));
    } else {
        lemma_moved_prefix(entries, index, n - 1, bound);
        let before = moved_keys(entries, n - 1, bound);
        let k = entries[n - 1].0;
        if entries[n - 1].1.file_id < bound {
            assert(moved_keys(entries, n, bound) =~= before.insert(k)) by {
                assert forall|x: Seq<u8>| before.insert(k).contains(x) implies moved_keys(
                    entries,
                    n,
                    bound,
                ).contains(x) by {
                    if x == k {
                        assert(entries[n - 1].0 == x);
                    } else {
                        let i = choose|i: int|
                            0 <= i < n - 1 && (#[trigger] entries[i]).0 == x && entries[i].1.file_id
                                < bound;
                        assert(entries[i].0 == x);
                    }
                }
            }
            assert(!before.contains(k));
            lemma_sum_insert(before, len_of(index), k);
        } else {
            assert(moved_keys(entries, n, bound) =~= before) by {
                assert forall|x: Seq<u8>| moved_keys(entries, n, bound).contains(
                    x,
                ) implies before.contains(x) by {
                    let i = choose|i: int|
                        0 <= i < n && (#[trigger] entries[i]).0 == x && entries[i].1.file_id
                            < bound;
                    assert(i < n - 1);
                    assert(entries[i].0 == x);
                }
                assert forall|x: Seq<u8>| before.contains(x) implies moved_keys(
                    entries,
                    n,
                    bound,
                ).contains(x) by {
                    let i = choose|i: int|
                        0 <= i < n - 1 && (#[trigger] entries[i]).0 == x && entries[i].1.file_id
                            < bound;
                    assert(entries[i].0 == x);
                }
            }
        }
    }
}

/// The part of the index whose entries name a segment below `bound`.
pub open spec fn entries_below(index: Map<Seq<u8>, Index>, bound: u64) -> Map<Seq<u8>, Index> {
    index.restrict(Set::new(|k: Seq<u8>| index[k].file_id < bound))
}

/// The moved ones of a listing of the index sum up to the live bytes of the
/// entries that name a segment below `bound`.
pub proof fn lemma_moved_is_below(
    entries: Seq<(Seq<u8>, Index)>,
    index: Map<Seq<u8>, Index>,
    bound: u64,
)
    requires
        enumerates(entries, index),
    ensures
        moved_bytes(entries, entries.len() as int, bound) == live_bytes(
            entries_below(index, bound),
        ),
{
    let part = entries_below(index, bound);
    let n = entries.len() as int;
    lemma_moved_prefix(entries, index, n, bound);
    assert(moved_keys(entries, n, bound) =~= part.dom()) by {
        assert forall|k: Seq<u8>| part.dom().contains(k) implies moved_keys(
            entries,
            n,
            bound,
        ).contains(k) by {
            let i = choose|i: int| 0 <= i < entries.len() && (#[trigger] entries[i]).0 == k;
            assert(entries[i].0 == k);
        }
        assert forall|k: Seq<u8>| moved_keys(entries, n, bound).contains(
            k,
        ) implies part.dom().contains(k) by {
            let i = choose|i: int|
                0 <= i < n && (#[trigger] entries[i]).0 == k && entries[i].1.file_id < bound;
            assert(index.contains_key(entries[i].0));
        }
    }
    lemma_sum_congruent(part.dom(), len_of(index), len_of(part));
}

/// The moved ones among the first `n` entries sum up to no more than all
/// the moved ones.
pub proof fn lemma_moved_bound(
    entries: Seq<(Seq<u8>, Index)>,
    index: Map<Seq<u8>, Index>,
    n: int,
    bound: u64,
)
    requires
        enumerates(entries, index),
        0 <= n <= entries.len(),
    ensures
        moved_bytes(entries, n, bound) <= live_bytes(entries_below(index, bound)),
{
    lemma_moved_bytes_grow(entries, n, entries.len() as int, bound);
    lemma_moved_is_below(entries, index, bound);
}

/// The segments from `lo` on: `kept` holds them and no others.
pub open spec fn holds_from(files: Map<u64, Seq<u8>>, kept: Map<u64, Seq<u8>>, lo: u64) -> bool {
    &&& forall|id: u64| #[trigger] kept.contains_key(id) <==> files.contains_key(id) && id >= lo
    &&& forall|id: u64| #[trigger] kept.contains_key(id) ==> kept[id] == files[id]
}

/// The sizes split at `lo`: below any bound from `lo` on, the segments are as
/// long as those below `lo` and those kept from `lo` on together.
pub proof fn lemma_size_split(
    files: Map<u64, Seq<u8>>,
    kept: Map<u64, Seq<u8>>,
    lo: u64,
    bound: nat,
)
    requires
        holds_from(files, kept, lo),
        lo <= bound <= u64::MAX + 1,
    ensures
        size_below(files, bound) == size_below(files, lo as nat) + size_below(kept, bound),
    decreases bound,
{
    if bound > lo {
        lemma_size_split(files, kept, lo, (bound - 1) as nat);
        let id = (bound - 1) as u64;
        assert(kept.contains_key(id) <==> files.contains_key(id) && id >= lo);
    } else {
        assert forall|id: u64| 0 <= id < lo implies !kept.contains_key(id) by {
            assert(kept.contains_key(id) <==> files.contains_key(id) && id >= lo);
        }
        lemma_size_gap(kept, 0, lo as nat);
    }
}

} // verus!
