//! Comparing log entries: two entries are alike when they are of one kind,
//! and entries of one kind are ordered by their keys.

use crate::index::lex_less;
use crate::xchg::Command;
use core::cmp::Ordering;
use vstd::prelude::*;
use vstd::std_specs::cmp::{PartialEqSpecImpl, PartialOrdSpecImpl};

verus! {

/// How two byte strings compare: -1 where `a` comes first, 0 where they are
/// the same, 1 where `b` comes first.
pub open spec fn lex_code(a: Seq<u8>, b: Seq<u8>) -> int {
    if a == b {
        0
    } else if lex_less(a, b) {
        -1
    } else {
        1
    }
}

/// The first `n` bytes of the two strings are the same.
pub open spec fn agree_upto(a: Seq<u8>, b: Seq<u8>, n: usize) -> bool {
    n <= a.len() && n <= b.len() && a.take(n as int) == b.take(n as int)
}

/// The byte at place `n` of `a` is below that of `b`.
pub open spec fn below_at(a: Seq<u8>, b: Seq<u8>, n: usize) -> bool {
    n < a.len() && n < b.len() && a[n as int] < b[n as int]
}

/// Strings that agree on their first `n` bytes and at the next one agree on
/// their first `n + 1`.
pub proof fn lemma_agree_step(a: Seq<u8>, b: Seq<u8>, n: usize)
    requires
        agree_upto(a, b, n),
        n < a.len(),
        n < b.len(),
        a[n as int] == b[n as int],
        n < usize::MAX,
    ensures
        agree_upto(a, b, (n + 1) as usize),
{
    assert(a.take(n + 1) =~= a.take(n as int).push(a[n as int]));
    assert(b.take(n + 1) =~= b.take(n as int).push(b[n as int]));
}

proof fn lemma_less_at(a: Seq<u8>, b: Seq<u8>, n: int)
    requires
        0 <= n < a.len(),
        n < b.len(),
        a.take(n) == b.take(n),
        a[n] < b[n],
    ensures
        lex_less(a, b),
        !lex_less(b, a),
        a != b,
    decreases n,
{
    if n > 0 {
        assert(a[0] == a.take(n)[0]);
        assert(b[0] == b.take(n)[0]);
        assert(a.drop_first().take(n - 1) =~= a.take(n).drop_first());
        assert(b.drop_first().take(n - 1) =~= b.take(n).drop_first());
        lemma_less_at(a.drop_first(), b.drop_first(), n - 1);
    }
}

proof fn lemma_prefix(a: Seq<u8>, b: Seq<u8>)
    requires
        a.len() <= b.len(),
        a == b.take(a.len() as int),
    ensures
        a.len() < b.len() ==> lex_less(a, b) && !lex_less(b, a) && a != b,
        a.len() == b.len() ==> a == b,
    decreases a.len(),
{
    if a.len() == b.len() {
        assert(b.take(a.len() as int) =~= b);
    } else if a.len() > 0 {
        assert(a[0] == b.take(a.len() as int)[0]);
        assert(a.drop_first() =~= b.drop_first().take(a.len() - 1));
        lemma_prefix(a.drop_first(), b.drop_first());
    }
}

/// Where the strings first differ at place `n`, the one with the smaller
/// byte there comes first.
pub proof fn lemma_code_at(a: Seq<u8>, b: Seq<u8>, n: usize)
    requires
        agree_upto(a, b, n),
    ensures
        below_at(a, b, n) ==> lex_code(a, b) == -1,
        below_at(b, a, n) ==> lex_code(a, b) == 1,
{
    if below_at(a, b, n) {
        lemma_less_at(a, b, n as int);
    }
    if below_at(b, a, n) {
        lemma_less_at(b, a, n as int);
    }
}

/// Where one string is the start of the other, the shorter comes first.
pub proof fn lemma_code_end(a: Seq<u8>, b: Seq<u8>, n: usize)
    requires
        agree_upto(a, b, n),
        n == a.len() || n == b.len(),
    ensures
        a.len() < b.len() ==> lex_code(a, b) == -1,
        a.len() == b.len() ==> lex_code(a, b) == 0,
        a.len() > b.len() ==> lex_code(a, b) == 1,
{
    if a.len() <= b.len() {
        assert(a.take(a.len() as int) =~= a);
        lemma_prefix(a, b);
    } else {
        assert(b.take(b.len() as int) =~= b);
        lemma_prefix(b, a);
    }
}

/// The ordering that a code stands for.
pub open spec fn ordering_of(code: int) -> Ordering {
    if code < 0 {
        Ordering::Less
    } else if code == 0 {
        Ordering::Equal
    } else {
        Ordering::Greater
    }
}

/// Orders two byte strings as `lex_code` says.
pub fn key_order(a: &[u8], b: &[u8]) -> (o: Ordering)
    ensures
        o == ordering_of(lex_code(a@, b@)),
{
    let mut i: usize = 0;
    proof {
        assert(a@.take(0) =~= b@.take(0));
    }
    while i < a.len() && i < b.len()
        invariant
            agree_upto(a@, b@, i),
        decreases a.len() - i,
    {
        proof {
            lemma_code_at(a@, b@, i);
        }
        if a[i] < b[i] {
            return Ordering::Less;
        }
        if a[i] > b[i] {
            return Ordering::Greater;
        }
        proof {
            lemma_agree_step(a@, b@, i);
        }
        i = i + 1;
    }
    proof {
        lemma_code_end(a@, b@, i);
    }
    if a.len() < b.len() {
        Ordering::Less
    } else if a.len() > b.len() {
        Ordering::Greater
    } else {
        Ordering::Equal
    }
}

impl PartialEq for Command {
    /// Two entries are alike when both are writes or both are deletions.
    fn eq(&self, other: &Self) -> (alike: bool) {
        match (self, other) {
            (Command::Write { .. }, Command::Write { .. }) => true,
            (Command::Delete { .. }, Command::Delete { .. }) => true,
            _ => false,
        }
    }
}

impl PartialEqSpecImpl for Command {
    open spec fn obeys_eq_spec() -> bool {
        true
    }

    open spec fn eq_spec(&self, other: &Self) -> bool {
        (self is Write) == (other is Write)
    }
}

impl PartialOrd for Command {
    /// Entries of one kind are ordered by their keys; a write and a deletion
    /// are not ordered.
    fn partial_cmp(&self, other: &Self) -> (o: Option<Ordering>) {
        match (self, other) {
            (Command::Write { key: lhs, .. }, Command::Write { key: rhs, .. }) => Some(
                key_order(lhs.as_slice(), rhs.as_slice()),
            ),
            (Command::Delete { key: lhs, .. }, Command::Delete { key: rhs, .. }) => Some(
                key_order(lhs.as_slice(), rhs.as_slice()),
            ),
            _ => None,
        }
    }
}

impl PartialOrdSpecImpl for Command {
    open spec fn obeys_partial_cmp_spec() -> bool {
        true
    }

    open spec fn partial_cmp_spec(&self, other: &Self) -> Option<Ordering> {
        if (self is Write) == (other is Write) {
            Some(ordering_of(lex_code(self@.key(), other@.key())))
        } else {
            None
        }
    }
}

} // verus!
