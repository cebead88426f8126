//! Retry windows after failed transactions.

use vstd::prelude::*;

verus! {

/// Seconds per squared failure in the backoff window.
pub const BACKOFF_STEP_SECS: u64 = 60;

/// Upper bound of the backoff window: one day.
pub const BACKOFF_CEILING_SECS: u64 = 86400;

/// min(60·n², 86400) seconds.
pub open spec fn window_spec(failures: nat) -> nat {
    if 60 * failures * failures < 86400 {
        60 * failures * failures
    } else {
        86400
    }
}

/// Whether a destination with `failures` failures, the last one at
/// `last_failure`, may be tried again at `now` (times in seconds).
pub open spec fn admits_spec(failures: nat, last_failure: nat, now: nat) -> bool {
    failures == 0 || (now >= last_failure && now - last_failure >= window_spec(failures))
}

/// The backoff window, in seconds, after `failures` consecutive failures.
pub fn backoff_window(failures: u32) -> (r: u64)
    ensures
        r == window_spec(failures as nat),
{
    if failures >= 38 {
        assert(60 * (failures as nat) * (failures as nat) >= 86400) by (nonlinear_arith)
            requires
                failures >= 38,
        ;
        BACKOFF_CEILING_SECS
    } else {
        let f = failures as u64;
        assert(f * f <= 37 * 37) by (nonlinear_arith)
            requires
                f <= 37,
        ;
        let sq = f * f;
        let w = BACKOFF_STEP_SECS * sq;
        assert(w == 60 * (failures as nat) * (failures as nat)) by (nonlinear_arith)
            requires
                sq == f * f,
                w == 60 * sq,
                f == failures,
        ;
        if w < BACKOFF_CEILING_SECS {
            w
        } else {
            BACKOFF_CEILING_SECS
        }
    }
}

/// Whether a new dispatch may start at `now`.
pub fn admits(failures: u32, last_failure: u64, now: u64) -> (r: bool)
    ensures
        r == admits_spec(failures as nat, last_failure as nat, now as nat),
{
    if failures == 0 {
        return true;
    }
    now >= last_failure && now - last_failure >= backoff_window(failures)
}

/// The window grows with the number of failures, up to its ceiling.
pub proof fn lemma_window_monotonic(a: nat, b: nat)
    requires
        a <= b,
    ensures
        window_spec(a) <= window_spec(b),
{
    assert(60 * a * a <= 60 * b * b) by (nonlinear_arith)
        requires
            a <= b,
    ;
}

} // verus!
