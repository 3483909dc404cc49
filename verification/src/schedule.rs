use vstd::prelude::*;

verus! {

/// How often the pass is repeated.
#[derive(Clone, Copy, Debug, PartialEq, Eq, Structural)]
pub enum RepeatPolicy {
    Once,
    Count(u64),
    Forever,
}

/// A run schedule: how long to block between passes, and how many passes
/// are owed.
#[derive(Clone, Copy, Debug, PartialEq, Eq, Structural)]
pub struct Schedule {
    pub interval_seconds: u64,
    pub repeat: RepeatPolicy,
}

/// Counts completed passes and decides whether another pass is owed. The
/// caller performs a pass, records it, and asks again; it sleeps for the
/// schedule's interval only between passes.
#[derive(Clone, Copy, Debug, PartialEq, Eq, Structural)]
pub struct Scheduler {
    pub schedule: Schedule,
    pub completed: u64,
}

/// Another pass is owed after `s.completed` passes: never for a one-shot
/// schedule, while under the count for a counted one, always for an
/// unbounded one.
pub open spec fn scheduler_continues(s: Scheduler) -> bool {
    match s.schedule.repeat {
        RepeatPolicy::Once => false,
        RepeatPolicy::Count(n) => s.completed < n,
        RepeatPolicy::Forever => true,
    }
}

impl Scheduler {
    /// A scheduler that has not yet run a pass.
    pub fn new(schedule: Schedule) -> (s: Self)
        ensures
            s.schedule == schedule,
            s.completed == 0,
    {
        Scheduler { schedule, completed: 0 }
    }

    /// Records one completed pass.
    pub fn record_pass(&mut self)
        requires
            old(self).completed < u64::MAX,
        ensures
            final(self).schedule == old(self).schedule,
            final(self).completed == old(self).completed + 1,
    {
        self.completed = self.completed + 1;
    }

    /// Whether one more pass is owed.
    pub fn wants_another(&self) -> (r: bool)
        ensures
            r == scheduler_continues(*self),
    {
        match self.schedule.repeat {
            RepeatPolicy::Once => false,
            RepeatPolicy::Count(n) => self.completed < n,
            RepeatPolicy::Forever => true,
        }
    }
}

} // verus!
