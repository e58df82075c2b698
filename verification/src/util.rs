//! Segment file names, and the spreading of keys over worker threads.

use std::collections::hash_map::DefaultHasher;
use std::hash::Hash;
use std::hash::Hasher;
use vstd::prelude::*;

verus! {

/// The byte is an ASCII digit.
pub open spec fn is_digit(b: u8) -> bool {
    48 <= b <= 57
}

/// Every byte is an ASCII digit.
pub open spec fn all_digits(s: Seq<u8>) -> bool {
    forall|i: int| 0 <= i < s.len() ==> is_digit(#[trigger] s[i])
}

/// The number that a string of digits stands for.
pub open spec fn decimal(s: Seq<u8>) -> nat
    decreases s.len(),
{
    if s.len() == 0 {
        0
    } else {
        decimal(s.drop_last()) * 10 + (s.last() - 48) as nat
    }
}

/// A number as it is written: digits, at least one, and no leading zero but
/// for zero itself.
pub open spec fn canonical(s: Seq<u8>) -> bool {
    s.len() > 0 && all_digits(s) && (s.len() > 1 ==> s[0] != 48)
}

/// The digits of `n`.
pub open spec fn digits_of(n: nat) -> Seq<u8>
    decreases n,
{
    if n < 10 {
        seq![(48 + n) as u8]
    } else {
        digits_of(n / 10).push((48 + n % 10) as u8)
    }
}

/// The ending of a segment's file name: `.log`.
pub open spec fn suffix() -> Seq<u8> {
    seq![46u8, 108u8, 111u8, 103u8]
}

/// The id that a file name gives: the name is a number as it is written,
/// within 64 bits, followed by `.log`. Every other name gives none.
pub open spec fn id_of_name(name: Seq<u8>) -> Option<u64> {
    let n = name.len() - 4;
    if name.len() > 4 && name.subrange(n, name.len() as int) == suffix() && canonical(name.take(n))
        && decimal(name.take(n)) <= u64::MAX {
        Some(decimal(name.take(n)) as u64)
    } else {
        None
    }
}

/// The file name of the segment with the given id.
pub open spec fn name_of_id(id: u64) -> Seq<u8> {
    digits_of(id as nat) + suffix()
}

/// The digits of a number are written as a number is, and stand for it.
pub proof fn lemma_digits(n: nat)
    ensures
        canonical(digits_of(n)),
        decimal(digits_of(n)) == n,
    decreases n,
{
    if n < 10 {
        let s = digits_of(n);
        assert(s.drop_last() =~= Seq::<u8>::empty());
        assert(decimal(s.drop_last()) == 0);
    } else {
        lemma_digits(n / 10);
        let front = digits_of(n / 10);
        let s = digits_of(n);
        assert(s.drop_last() =~= front);
        assert(s[0] == front[0]);
        if front.len() == 1 {
            assert(front.drop_last() =~= Seq::<u8>::empty());
            assert(decimal(front.drop_last()) == 0);
        }
    }
}

/// A longer string of digits stands for no smaller number.
pub proof fn lemma_decimal_grows(s: Seq<u8>, i: int)
    requires
        all_digits(s),
        0 <= i <= s.len(),
    ensures
        decimal(s.take(i)) <= decimal(s),
    decreases s.len() - i,
{
    if i < s.len() {
        let front = s.drop_last();
        assert(front.take(i) =~= s.take(i));
        assert(all_digits(front)) by {
            assert forall|j: int| 0 <= j < front.len() implies is_digit(#[trigger] front[j]) by {
                assert(front[j] == s[j]);
            }
        }
        lemma_decimal_grows(front, i);
    } else {
        assert(s.take(i) =~= s);
    }
}

/// The name of a segment gives its id back.
pub proof fn lemma_name_round_trip(id: u64)
    ensures
        id_of_name(name_of_id(id)) == Some(id),
{
    let digits = digits_of(id as nat);
    let name = name_of_id(id);
    lemma_digits(id as nat);
    assert(name.take(name.len() - 4) =~= digits);
    assert(name.subrange(name.len() - 4, name.len() as int) =~= suffix());
}

/// Reads the id out of a segment's file name, or gives `None` for any other
/// name.
pub fn segment_id(name: &[u8]) -> (id: Option<u64>)
    ensures
        id == id_of_name(name@),
{
    let len: usize = name.len();
    if len <= 4 {
        return None;
    }
    let n: usize = len - 4;
    proof {
        assert(name@.subrange(n as int, len as int) == suffix() ==> name@[n as int] == 46u8
            && name@[n + 1] == 108u8 && name@[n + 2] == 111u8 && name@[n + 3] == 103u8) by {
            if name@.subrange(n as int, len as int) == suffix() {
                let t = name@.subrange(n as int, len as int);
                assert(t[0] == 46u8 && t[1] == 108u8 && t[2] == 111u8 && t[3] == 103u8);
            }
        }
    }
    if name[n] != 46 || name[n + 1] != 108 || name[n + 2] != 111 || name[n + 3] != 103 {
        return None;
    }
    proof {
        assert(name@.subrange(n as int, len as int) =~= suffix());
    }
    let ghost digits = name@.take(n as int);
    if n > 1 && name[0] == 48 {
        return None;
    }
    let mut acc: u64 = 0;
    let mut i: usize = 0;
    while i < n
        invariant
            0 <= i <= n,
            n + 4 == name@.len(),
            digits == name@.take(n as int),
            all_digits(digits.take(i as int)),
            acc == decimal(digits.take(i as int)),
        decreases n - i,
    {
        let b: u8 = name[i];
        proof {
            assert(digits.take(i as int + 1).drop_last() =~= digits.take(i as int));
            assert(digits.take(i as int + 1).last() == b);
        }
        if b < 48 || b > 57 {
            proof {
                assert(!is_digit(digits[i as int]));
            }
            return None;
        }
        let d: u64 = (b - 48) as u64;
        if acc > (u64::MAX - d) / 10 {
            proof {
                if all_digits(digits) {
                    lemma_decimal_grows(digits, i as int + 1);
                }
            }
            return None;
        }
        acc = acc * 10 + d;
        proof {
            assert forall|j: int| 0 <= j < i + 1 implies is_digit(
                #[trigger] digits.take(i as int + 1)[j],
            ) by {
                if j < i {
                    assert(digits.take(i as int)[j] == digits[j]);
                }
            }
        }
        i = i + 1;
    }
    proof {
        assert(digits.take(n as int) =~= digits);
    }
    Some(acc)
}

/// Appends the digits of `n` to `out`.
fn push_digits(n: u64, out: &mut Vec<u8>)
    ensures
        final(out)@ == old(out)@ + digits_of(n as nat),
    decreases n,
{
    if n >= 10 {
        push_digits(n / 10, out);
    }
    out.push(48 + (n % 10) as u8);
    proof {
        assert(final(out)@ =~= old(out)@ + digits_of(n as nat));
    }
}

/// The file name of the segment with the given id: its digits, then `.log`.
pub fn segment_name(id: u64) -> (name: Vec<u8>)
    ensures
        name@ == name_of_id(id),
        id_of_name(name@) == Some(id),
{
    let mut name: Vec<u8> = Vec::new();
    push_digits(id, &mut name);
    name.push(46);
    name.push(108);
    name.push(111);
    name.push(103);
    proof {
        assert(name@ =~= name_of_id(id));
        lemma_name_round_trip(id);
    }
    name
}

/// What carries a segment id in its name.
pub trait ParseId {
    /// The id that the name gives, if it is the name of a segment.
    spec fn spec_parse_id(&self) -> Option<u64>;

    /// The id of the segment with this name. The name must be that of a
    /// segment.
    fn parse_id(&self) -> (id: u64)
        requires
            self.spec_parse_id() is Some,
        ensures
            Some(id) == self.spec_parse_id(),
    ;
}

impl ParseId for [u8] {
    open spec fn spec_parse_id(&self) -> Option<u64> {
        id_of_name(self@)
    }

    fn parse_id(&self) -> (id: u64) {
        match segment_id(self) {
            Some(id) => id,
            None => 0,
        }
    }
}

/// The number of worker threads on a machine with `cpus` physical cores: one
/// less than the cores, and at least one.
pub open spec fn spec_worker_threads(cpus: usize) -> usize {
    if cpus >= 2 {
        (cpus - 1) as usize
    } else {
        1
    }
}

/// The number of worker threads on a machine with `cpus` physical cores.
pub fn worker_threads(cpus: usize) -> (threads: usize)
    ensures
        threads == spec_worker_threads(cpus),
{
    if cpus >= 2 {
        cpus - 1
    } else {
        1
    }
}

/// The worker thread, among `threads`, that a key with the given hash goes to.
pub fn thread_of_hash(hash: u64, threads: usize) -> (thread: u64)
    requires
        threads > 0,
    ensures
        thread == hash % (threads as u64),
        thread < threads,
{
    hash % (threads as u64)
}

/// Calls `num_cpus::get_physical`. Trusted: the number of physical cores,
/// which the crate documents to be at least one; it is the machine's.
#[verifier::external_body]
pub(crate) fn physical_cpus() -> (cpus: usize)
    ensures
        cpus >= 1,
{
    num_cpus::get_physical()
}

/// Calls `Hash::hash` of a byte slice on std's default hasher. Trusted, with
/// nothing claimed of what it feeds the hasher.
#[verifier::external_body]
pub(crate) fn feed(key: &[u8], state: &mut DefaultHasher) {
    key.hash(state);
}

/// The worker thread, among `threads`, that `key` goes to: its hash, modulo
/// the number of threads.
pub fn thread_among(key: &[u8], threads: usize) -> (thread: u64)
    requires
        threads > 0,
    ensures
        thread < threads,
{
    let mut hasher = DefaultHasher::new();
    feed(key, &mut hasher);
    thread_of_hash(hasher.finish(), threads)
}

/// The worker thread that `key` goes to: its hash, modulo the number of
/// worker threads of this machine.
pub fn thread_of(key: &[u8]) -> (thread: u64)
    ensures
        exists|cpus: usize| cpus >= 1 && thread < spec_worker_threads(cpus),
{
    let cpus = physical_cpus();
    thread_among(key, worker_threads(cpus))
}

} // verus!
