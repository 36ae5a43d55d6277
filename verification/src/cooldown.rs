//! A repeating timer over a caller-supplied monotonic clock.
//!
//! The clock is plain data: every query takes the current instant in ticks,
//! so the arithmetic is exact and the caller chooses the time source.

use vstd::prelude::*;

verus! {

pub struct Cooldown {
    pub timer: u64,
    pub delay: u64,
}

impl Cooldown {
    /// A cooldown of `delay` ticks, started at `now`.
    pub fn new(delay: u64, now: u64) -> (r: Cooldown)
        ensures
            r.timer == now,
            r.delay == delay,
    {
        Cooldown { timer: now, delay }
    }

    /// Ticks elapsed since the timer mark, saturating at zero when the mark
    /// lies in the future (as after `next`).
    pub open spec fn spec_dt(&self, now: u64) -> u64 {
        if now >= self.timer {
            (now - self.timer) as u64
        } else {
            0
        }
    }

    #[verifier::when_used_as_spec(spec_dt)]
    pub fn dt(&self, now: u64) -> (r: u64)
        ensures
            r == self.spec_dt(now),
    {
        if now >= self.timer {
            now - self.timer
        } else {
            0
        }
    }

    /// Whether a full delay has elapsed.
    pub fn ready(&self, now: u64) -> (r: bool)
        ensures
            r == (self.spec_dt(now) >= self.delay),
    {
        self.dt(now) >= self.delay
    }

    /// Restart the delay from `now`.
    pub fn reset(&mut self, now: u64)
        ensures
            final(self).timer == now,
            final(self).delay == old(self).delay,
    {
        self.timer = now;
    }

    /// Advance the mark by one whole delay, keeping an exact cadence.
    pub fn next(&mut self)
        requires
            old(self).timer + old(self).delay <= u64::MAX,
        ensures
            final(self).timer == old(self).timer + old(self).delay,
            final(self).delay == old(self).delay,
    {
        self.timer = self.timer + self.delay;
    }
}

} // verus!
