//! How long to wait before dialing again.

use vstd::arithmetic::power2::{lemma2_to64, lemma_pow2_unfold, pow2};
use vstd::prelude::*;

verus! {

/// The first delay, in milliseconds.
pub const FIRST_DELAY_MS: u64 = 200;

/// The longest delay, in milliseconds.
pub const MAX_DELAY_MS: u64 = 5000;

/// The delay that follows a delay of `ms`.
pub open spec fn next_delay(ms: nat) -> nat {
    if 2 * ms > MAX_DELAY_MS {
        MAX_DELAY_MS as nat
    } else {
        2 * ms
    }
}

/// The delay after `failures` earlier ones.
pub open spec fn delay_after(failures: nat) -> nat
    decreases failures,
{
    if failures == 0 {
        FIRST_DELAY_MS as nat
    } else {
        next_delay(delay_after((failures - 1) as nat))
    }
}

/// Delays that double up to a limit.
pub struct Backoff {
    ms: u64,
}

impl Backoff {
    /// The next delay.
    pub closed spec fn delay(&self) -> nat {
        self.ms as nat
    }

    pub open spec fn wf(&self) -> bool {
        FIRST_DELAY_MS <= self.delay() <= MAX_DELAY_MS
    }

    pub fn new() -> (b: Backoff)
        ensures
            b.wf(),
            b.delay() == delay_after(0),
    {
        Backoff { ms: FIRST_DELAY_MS }
    }

    /// Counts one failure, and says how long to wait after it.
    pub fn on_failure(&mut self) -> (ms: u64)
        requires
            old(self).wf(),
        ensures
            final(self).wf(),
            ms == old(self).delay(),
            final(self).delay() == next_delay(old(self).delay()),
    {
        let ms: u64 = self.ms;
        self.ms = if 2 * ms > MAX_DELAY_MS {
            MAX_DELAY_MS
        } else {
            2 * ms
        };
        ms
    }
}

/// The delays double with each failure until they reach the limit, and stay
/// there.
pub proof fn law_delays_double_up_to_the_limit(failures: nat)
    ensures
        delay_after(failures) == if FIRST_DELAY_MS * pow2(failures) > MAX_DELAY_MS {
            MAX_DELAY_MS as int
        } else {
            FIRST_DELAY_MS * pow2(failures)
        },
    decreases failures,
{
    if failures == 0 {
        lemma2_to64();
    } else {
        law_delays_double_up_to_the_limit((failures - 1) as nat);
        lemma_pow2_unfold(failures);
    }
}

/// Each delay is twice the one before, but five seconds at most; the first is a
/// fifth of a second.
pub proof fn law_each_delay_follows_from_the_last(ms: nat, failures: nat)
    ensures
        delay_after(0) == 200,
        delay_after(failures + 1) == next_delay(delay_after(failures)),
        next_delay(ms) <= 5000,
        next_delay(ms) == 2 * ms || next_delay(ms) == 5000 && 2 * ms > 5000,
        200 <= delay_after(failures) <= 5000,
    decreases failures,
{
    if failures > 0 {
        law_each_delay_follows_from_the_last(ms, (failures - 1) as nat);
    }
}

} // verus!
