//! Little-endian integers on the wire.

use bytes::Buf;
use vstd::bytes::{
    lemma_auto_spec_u32_to_from_le_bytes, lemma_auto_spec_u64_to_from_le_bytes,
    spec_u32_from_le_bytes, spec_u32_to_le_bytes, spec_u64_from_le_bytes, spec_u64_to_le_bytes,
};
use vstd::prelude::*;

verus! {

/// The eight bytes that stand for a signed 64-bit integer.
pub open spec fn spec_i64_to_le_bytes(x: i64) -> Seq<u8> {
    spec_u64_to_le_bytes(x as u64)
}

/// The signed 64-bit integer that the first eight bytes of `s` stand for.
pub open spec fn spec_i64_from_le_bytes(s: Seq<u8>) -> i64 {
    spec_u64_from_le_bytes(s) as i64
}

/// Calls `bytes::Buf::get_u32_le` on a byte slice. Trusted: the result is the
/// little-endian reading of the first four bytes. The outside function panics
/// on a shorter slice, which `requires` leaves out.
#[verifier::external_body]
pub(crate) fn get_u32_le(buf: &[u8]) -> (x: u32)
    requires
        buf@.len() >= 4,
    ensures
        x == spec_u32_from_le_bytes(buf@.subrange(0, 4)),
{
    let mut cursor = buf;
    cursor.get_u32_le()
}

/// Calls `bytes::Buf::get_u64_le` on a byte slice. Trusted: the result is the
/// little-endian reading of the first eight bytes. The outside function panics
/// on a shorter slice, which `requires` leaves out.
#[verifier::external_body]
pub(crate) fn get_u64_le(buf: &[u8]) -> (x: u64)
    requires
        buf@.len() >= 8,
    ensures
        x == spec_u64_from_le_bytes(buf@.subrange(0, 8)),
{
    let mut cursor = buf;
    cursor.get_u64_le()
}

/// Calls `bytes::Buf::get_i64_le` on a byte slice. Trusted: the result is the
/// two's-complement little-endian reading of the first eight bytes. The outside
/// function panics on a shorter slice, which `requires` leaves out.
#[verifier::external_body]
pub(crate) fn get_i64_le(buf: &[u8]) -> (x: i64)
    requires
        buf@.len() >= 8,
    ensures
        x == spec_i64_from_le_bytes(buf@.subrange(0, 8)),
{
    let mut cursor = buf;
    cursor.get_i64_le()
}

/// Writing an integer and reading it back gives the integer; the written form
/// has the width of its type.
pub proof fn lemma_le_round_trip()
    ensures
        forall|x: u32| #[trigger] spec_u32_to_le_bytes(x).len() == 4,
        forall|x: u32| spec_u32_from_le_bytes(#[trigger] spec_u32_to_le_bytes(x)) == x,
        forall|x: u64| #[trigger] spec_u64_to_le_bytes(x).len() == 8,
        forall|x: u64| spec_u64_from_le_bytes(#[trigger] spec_u64_to_le_bytes(x)) == x,
        forall|x: i64| #[trigger] spec_i64_to_le_bytes(x).len() == 8,
        forall|x: i64| spec_i64_from_le_bytes(#[trigger] spec_i64_to_le_bytes(x)) == x,
        forall|s: Seq<u8>|
            s.len() == 4 ==> spec_u32_to_le_bytes(#[trigger] spec_u32_from_le_bytes(s)) == s,
        forall|s: Seq<u8>|
            s.len() == 8 ==> spec_u64_to_le_bytes(#[trigger] spec_u64_from_le_bytes(s)) == s,
        forall|s: Seq<u8>|
            s.len() == 8 ==> spec_i64_to_le_bytes(#[trigger] spec_i64_from_le_bytes(s)) == s,
{
    lemma_auto_spec_u32_to_from_le_bytes();
    lemma_auto_spec_u64_to_from_le_bytes();
    assert forall|x: u32| spec_u32_from_le_bytes(#[trigger] spec_u32_to_le_bytes(x)) == x by {
        assert(spec_u32_to_le_bytes(x).len() == 4);
    }
    assert forall|x: u64| spec_u64_from_le_bytes(#[trigger] spec_u64_to_le_bytes(x)) == x by {
        assert(spec_u64_to_le_bytes(x).len() == 8);
    }
    assert forall|x: i64| spec_i64_from_le_bytes(#[trigger] spec_i64_to_le_bytes(x)) == x by {
        assert(spec_u64_to_le_bytes(x as u64).len() == 8);
        assert((x as u64) as i64 == x) by (bit_vector);
    }
    assert forall|s: Seq<u8>| s.len() == 4 implies spec_u32_to_le_bytes(
        #[trigger] spec_u32_from_le_bytes(s),
    ) == s by {
        assert(spec_u32_to_le_bytes(spec_u32_from_le_bytes(s)) == s);
    }
    assert forall|s: Seq<u8>| s.len() == 8 implies spec_u64_to_le_bytes(
        #[trigger] spec_u64_from_le_bytes(s),
    ) == s by {
        assert(spec_u64_to_le_bytes(spec_u64_from_le_bytes(s)) == s);
    }
    assert forall|s: Seq<u8>| s.len() == 8 implies spec_i64_to_le_bytes(
        #[trigger] spec_i64_from_le_bytes(s),
    ) == s by {
        let u = spec_u64_from_le_bytes(s);
        assert((u as i64) as u64 == u) by (bit_vector);
        assert(spec_u64_to_le_bytes(spec_u64_from_le_bytes(s)) == s);
    }
}

} // verus!
