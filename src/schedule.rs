//! The iteration schedule of the chaos game: a fixed number of warm-up
//! iterations that record nothing, while the point falls onto the attractor,
//! then the configured number of recorded iterations.
use vstd::prelude::*;

verus! {

/// Number of iterations run before any is recorded.
pub const WARM_UP: u32 = 20;

/// Phase of a run.
#[derive(Debug, Clone, Copy, PartialEq, Eq, Structural)]
pub enum Phase {
    Warming,
    Sampling,
    Done,
}

/// What the engine does next.
#[derive(Debug, Clone, Copy, PartialEq, Eq, Structural)]
pub enum Step {
    /// Run one iteration and record nothing.
    Iterate,
    /// Run one iteration and record where the point lands.
    IterateAndRecord,
    /// The run is over.
    Stop,
}

/// The step taken after `k` steps of a run of `n` recorded iterations.
pub open spec fn step_at(k: int, n: int) -> Step {
    if k < WARM_UP as int {
        Step::Iterate
    } else if k < WARM_UP as int + n {
        Step::IterateAndRecord
    } else {
        Step::Stop
    }
}

/// The phase of a run of `n` recorded iterations after `k` steps.
pub open spec fn phase_at(k: int, n: int) -> Phase {
    if k < WARM_UP as int {
        Phase::Warming
    } else if k < WARM_UP as int + n {
        Phase::Sampling
    } else {
        Phase::Done
    }
}

/// Where a run stands.
pub struct Schedule {
    iterations: usize,
    warm_left: u32,
    sample_left: usize,
}

impl Schedule {
    /// Number of recorded iterations of the run.
    pub closed spec fn iterations_spec(&self) -> int {
        self.iterations as int
    }

    /// Number of iterations run so far.
    pub closed spec fn position(&self) -> int {
        (WARM_UP - self.warm_left) + (self.iterations - self.sample_left)
    }

    /// Warm-up comes first, and neither count exceeds its total.
    pub closed spec fn wf(&self) -> bool {
        &&& self.warm_left <= WARM_UP
        &&& self.sample_left <= self.iterations
        &&& self.warm_left > 0 ==> self.sample_left == self.iterations
    }

    /// A run of `iterations` recorded iterations, not started.
    pub fn new(iterations: usize) -> (r: Schedule)
        ensures
            r.wf(),
            r.iterations_spec() == iterations,
            r.position() == 0,
    {
        Schedule { iterations, warm_left: WARM_UP, sample_left: iterations }
    }

    /// The phase the run is in.
    pub fn phase(&self) -> (r: Phase)
        requires
            self.wf(),
        ensures
            r == phase_at(self.position(), self.iterations_spec()),
    {
        if self.warm_left > 0 {
            Phase::Warming
        } else if self.sample_left > 0 {
            Phase::Sampling
        } else {
            Phase::Done
        }
    }

    /// The next step of the run; the run moves on by one iteration unless it
    /// is over.
    pub fn next(&mut self) -> (r: Step)
        requires
            old(self).wf(),
        ensures
            final(self).wf(),
            final(self).iterations_spec() == old(self).iterations_spec(),
            r == step_at(old(self).position(), old(self).iterations_spec()),
            final(self).position() == if r == Step::Stop {
                old(self).position()
            } else {
                old(self).position() + 1
            },
    {
        if self.warm_left > 0 {
            self.warm_left = self.warm_left - 1;
            Step::Iterate
        } else if self.sample_left > 0 {
            self.sample_left = self.sample_left - 1;
            Step::IterateAndRecord
        } else {
            Step::Stop
        }
    }
}

} // verus!
