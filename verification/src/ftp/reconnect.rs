//! The reconnect policy: the system's sole resilience mechanism.
//!
//! After a transport reset the channel waits out a settle delay, then
//! attempts to connect again at a fixed interval until the budget is
//! spent.  There is no backoff: the interval is constant.

use vstd::prelude::*;

verus! {

/// How long to wait before the first reconnect attempt, in seconds.
pub const SETTLE_DELAY_SECS: u64 = 5;

/// How long to wait between reconnect attempts, in seconds.
pub const RETRY_INTERVAL_SECS: u64 = 5;

/// The whole reconnect budget, in seconds: attempts beyond it fail the
/// reconnect for good.
pub const RETRY_BUDGET_SECS: u64 = 300;

/// Whether another reconnect attempt is still within the budget.
pub fn reconnect_should_retry(elapsed_secs: u64) -> (r: bool)
    ensures
        r == (elapsed_secs < RETRY_BUDGET_SECS),
{
    elapsed_secs < RETRY_BUDGET_SECS
}

} // verus!
