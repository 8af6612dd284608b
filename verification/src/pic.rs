use vstd::prelude::*;

verus! {

/// The number of timer interrupts in one round of the countdown.
pub const TIMER_PERIOD: usize = 5;

/// The countdown after one more timer interrupt: it starts a new round
/// after reaching zero.
pub open spec fn next_tick(tick: int) -> int {
    if tick == 0 {
        TIMER_PERIOD - 1
    } else {
        tick - 1
    }
}

/// The countdown the timer interrupt keeps: it counts down from
/// `TIMER_PERIOD - 1` to zero and starts over.
pub struct TimerTick {
    tick: usize,
}

impl TimerTick {
    pub closed spec fn value(&self) -> int {
        self.tick as int
    }

    pub open spec fn wf(&self) -> bool {
        0 <= self.value() <= TIMER_PERIOD
    }

    /// A countdown about to start its first round.
    pub fn new() -> (t: TimerTick)
        ensures
            t.wf(),
            t.value() == TIMER_PERIOD,
    {
        TimerTick { tick: TIMER_PERIOD }
    }

    /// Counts one timer interrupt and returns the new value.
    pub fn timer_tick(&mut self) -> (r: usize)
        requires
            old(self).wf(),
        ensures
            final(self).wf(),
            r == final(self).value(),
            r == next_tick(old(self).value()),
            r < TIMER_PERIOD,
    {
        if self.tick == 0 {
            self.tick = TIMER_PERIOD;
        }
        self.tick -= 1;
        self.tick
    }
}

/// The countdown repeats itself every `TIMER_PERIOD` interrupts.
pub proof fn lemma_timer_period(tick: int)
    requires
        0 <= tick < TIMER_PERIOD,
    ensures
        next_tick(next_tick(next_tick(next_tick(next_tick(tick))))) == tick,
{
}

} // verus!
