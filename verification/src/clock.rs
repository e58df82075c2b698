//! The wall clock.

use vstd::prelude::*;

verus! {

/// Calls `chrono::Utc::now` and `DateTime::timestamp_nanos_opt`: the
/// nanoseconds since the Unix epoch, or `None` where they do not fit 64 bits.
/// Trusted, with nothing claimed of the result: it is the machine's time.
#[verifier::external_body]
pub(crate) fn now_nanos() -> (now: Option<i64>) {
    chrono::Utc::now().timestamp_nanos_opt()
}

} // verus!
