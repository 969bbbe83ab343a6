use vstd::prelude::*;

verus! {

/// A platform timer, over a monotonic clock read as nanoseconds: when it was
/// started, how long one interval lasts, whether it repeats, and how many
/// intervals have already fired.
#[derive(Clone, Copy, PartialEq, Eq, Structural, Debug)]
pub struct Timer {
    pub start_time: u64,
    pub interval: u64,
    pub repeats: bool,
    pub step: u64,
}

/// Whether a timer is due at clock reading `now`: more than `step + 1` whole
/// intervals have elapsed since it started.
pub open spec fn timer_due(t: Timer, now: u64) -> bool {
    now > t.start_time + t.interval * (t.step + 1)
}

impl Timer {
    pub fn new(start_time: u64, interval: u64, repeats: bool) -> (r: Timer)
        ensures
            r == (Timer { start_time, interval, repeats, step: 0 }),
    {
        Timer { start_time, interval, repeats, step: 0 }
    }

    /// Whether this timer is due at clock reading `now`.
    pub fn is_due(&self, now: u64) -> (r: bool)
        requires
            self.step < u64::MAX,
            self.start_time + self.interval * (self.step + 1) <= u64::MAX,
        ensures
            r == timer_due(*self, now),
    {
        let steps = self.step + 1;
        assert(self.interval * steps <= u64::MAX) by (nonlinear_arith)
            requires
                self.start_time + self.interval * (self.step + 1) <= u64::MAX,
                steps == self.step + 1,
        ;
        let next_due = self.start_time + self.interval * steps;
        now > next_due
    }

    /// Fires a due timer: a repeating timer advances one step and stays; a
    /// one-shot timer is spent. Returns whether the timer stays alive.
    pub fn fire(&mut self) -> (r: bool)
        requires
            old(self).step < u64::MAX,
        ensures
            r == old(self).repeats,
            final(self).repeats == old(self).repeats,
            final(self).start_time == old(self).start_time,
            final(self).interval == old(self).interval,
            old(self).repeats ==> final(self).step == old(self).step + 1,
            !old(self).repeats ==> final(self).step == old(self).step,
    {
        if self.repeats {
            self.step = self.step + 1;
            true
        } else {
            false
        }
    }
}

} // verus!
