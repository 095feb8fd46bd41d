//! When a whole operation is retried after the store aborted its transaction
//! for lock contention. The waiting itself is the caller's.

use vstd::prelude::*;

use crate::error::ApiError;
use crate::text;

verus! {

/// Pauses before each retry, in milliseconds.
pub open spec fn backoff_ms() -> Seq<u64> {
    seq![20u64, 50u64, 100u64]
}

/// A storage failure caused by lock contention: a deadlock the store broke,
/// or a lock it could not acquire in time.
pub open spec fn transient_failure(code: &'static str, message: Seq<char>) -> bool {
    code@ == "storage_error"@ && (text::occurs_in(
        message,
        "Neo.TransientError.Transaction.DeadlockDetected"@,
    ) || text::occurs_in(message, "Neo.TransientError.Transaction.LockAcquisitionTimeout"@))
}

/// Only lock contention is retried; compare-and-set, domain and other
/// storage errors never are.
pub fn is_transient_lock_error(error: &ApiError) -> (r: bool)
    ensures
        r == transient_failure(error.code, error.message@),
{
    text::str_eq(error.code, "storage_error") && (text::contains_text(
        error.message.as_str(),
        "Neo.TransientError.Transaction.DeadlockDetected",
    ) || text::contains_text(
        error.message.as_str(),
        "Neo.TransientError.Transaction.LockAcquisitionTimeout",
    ))
}

/// How long to wait before retrying after attempt `attempt` (from 0) failed
/// with `error`; `None` when the failure is final. At most three retries.
pub fn retry_delay(attempt: usize, error: &ApiError) -> (r: Option<u64>)
    ensures
        r is Some <==> attempt < 3 && transient_failure(error.code, error.message@),
        r matches Some(ms) ==> ms == backoff_ms()[attempt as int],
{
    if attempt >= 3 || !is_transient_lock_error(error) {
        return None;
    }
    let delays: [u64; 3] = [20, 50, 100];
    assert(delays@ =~= backoff_ms());
    Some(delays[attempt])
}

} // verus!
