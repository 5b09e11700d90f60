//! The clock of the store.

use vstd::prelude::*;

verus! {

/// The wall clock, in milliseconds since the epoch: `chrono::Utc::now()` and
/// `timestamp_millis()` on it.
///
/// Trusted, and nothing is claimed of the result: two readings may differ in
/// either direction.
#[verifier::external_body]
pub(crate) fn now_ms() -> i64 {
    chrono::Utc::now().timestamp_millis()
}

} // verus!
