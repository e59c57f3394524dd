use vstd::prelude::*;

verus! {

/// Logical simulation rate.
///
/// This is deliberately separate from the day/night presentation clock's ticks per second. The
/// two happen to share a value; changing simulation speed must never change the day cycle.
pub const SIMULATION_TICKS_PER_SECOND: u64 = 20;

/// Logical steps a single rendered frame may execute.
pub const MAX_STEPS_PER_FRAME: u32 = 4;

/// Nanoseconds in one second.
pub const NANOS_PER_SECOND: u64 = 1_000_000_000;

/// Nanoseconds of virtual time one logical step consumes.
pub const NANOS_PER_STEP: u64 = 50_000_000;

/// Wall time the accumulator may hold: `MAX_STEPS_PER_FRAME` step durations, so sustained
/// overload slows game time instead of skipping logical ticks or attempting unbounded catch-up.
pub const MAX_ACCUMULATED_NANOS: u64 = 200_000_000;

/// Converts rendered frame time into whole logical simulation steps.
///
/// The clock owns no world state: it only decides how many steps a frame may run. Time
/// accumulates in whole nanoseconds, so repeated frames never drift and lose a tick.
#[derive(Debug, Clone, Copy, PartialEq, Eq, Structural)]
pub struct SimulationClock {
    accumulated_nanos: u64,
}

impl SimulationClock {
    /// The nanoseconds held back for the next frame.
    pub closed spec fn spec_nanos(&self) -> u64 {
        self.accumulated_nanos
    }

    /// The accumulator never exceeds its cap.
    pub open spec fn wf(&self) -> bool {
        self.spec_nanos() <= MAX_ACCUMULATED_NANOS
    }

    /// A clock with nothing accumulated.
    pub fn new() -> (result: SimulationClock)
        ensures
            result.wf(),
            result.spec_nanos() == 0,
    {
        SimulationClock { accumulated_nanos: 0 }
    }

    /// Adds one frame of virtual time, in whole nanoseconds, clamping the total so a stalled
    /// frame cannot buy a catch-up burst.
    pub fn accumulate_nanos(&mut self, nanos: u64)
        requires
            old(self).wf(),
        ensures
            final(self).wf(),
            final(self).spec_nanos() == if old(self).spec_nanos() + nanos >= MAX_ACCUMULATED_NANOS {
                MAX_ACCUMULATED_NANOS as int
            } else {
                old(self).spec_nanos() + nanos
            },
            final(self).spec_nanos() == nanos_after(old(self).spec_nanos() as int, ClockCall::Accumulate(nanos)),
    {
        let nanos = if nanos >= MAX_ACCUMULATED_NANOS {
            MAX_ACCUMULATED_NANOS
        } else {
            nanos
        };
        let sum = self.accumulated_nanos + nanos;
        self.accumulated_nanos = if sum >= MAX_ACCUMULATED_NANOS {
            MAX_ACCUMULATED_NANOS
        } else {
            sum
        };
    }

    /// Removes and returns the whole steps this frame may execute: every whole step held,
    /// but never more than `MAX_STEPS_PER_FRAME`.
    pub fn take_steps(&mut self) -> (steps: u32)
        requires
            old(self).wf(),
        ensures
            final(self).wf(),
            steps == if old(self).spec_nanos() / NANOS_PER_STEP <= MAX_STEPS_PER_FRAME {
                (old(self).spec_nanos() / NANOS_PER_STEP) as int
            } else {
                MAX_STEPS_PER_FRAME as int
            },
            steps <= MAX_STEPS_PER_FRAME,
            final(self).spec_nanos() == old(self).spec_nanos() - steps * NANOS_PER_STEP,
            final(self).spec_nanos() == nanos_after(old(self).spec_nanos() as int, ClockCall::TakeSteps),
    {
        let whole = self.accumulated_nanos / NANOS_PER_STEP;
        let steps: u64 = if whole <= MAX_STEPS_PER_FRAME as u64 {
            whole
        } else {
            MAX_STEPS_PER_FRAME as u64
        };
        self.accumulated_nanos = self.accumulated_nanos - steps * NANOS_PER_STEP;
        steps as u32
    }

    /// Time held back for the next frame, in nanoseconds.
    pub fn accumulated_nanos(&self) -> (result: u64)
        ensures
            result == self.spec_nanos(),
    {
        self.accumulated_nanos
    }
}

impl Default for SimulationClock {
    fn default() -> (result: SimulationClock)
        ensures
            result.wf(),
            result.spec_nanos() == 0,
    {
        SimulationClock::new()
    }
}

/// One call on a simulation clock.
#[derive(Debug, Clone, Copy, PartialEq, Eq, Structural)]
pub enum ClockCall {
    /// `accumulate_nanos` with a frame of this many nanoseconds.
    Accumulate(u64),
    /// `take_steps`.
    TakeSteps,
}

/// The steps `take_steps` releases from `nanos`.
pub open spec fn steps_released(nanos: int) -> int {
    if nanos / (NANOS_PER_STEP as int) <= MAX_STEPS_PER_FRAME {
        nanos / (NANOS_PER_STEP as int)
    } else {
        MAX_STEPS_PER_FRAME as int
    }
}

/// The time a clock holding `nanos` holds after one call.
pub open spec fn nanos_after(nanos: int, call: ClockCall) -> int {
    match call {
        ClockCall::Accumulate(frame) => if nanos + frame >= MAX_ACCUMULATED_NANOS {
            MAX_ACCUMULATED_NANOS as int
        } else {
            nanos + frame
        },
        ClockCall::TakeSteps => nanos - steps_released(nanos) * NANOS_PER_STEP,
    }
}

/// The time a clock holding `nanos` holds after a sequence of calls, in order.
pub open spec fn nanos_after_calls(nanos: int, calls: Seq<ClockCall>) -> int
    decreases calls.len(),
{
    if calls.len() == 0 {
        nanos
    } else {
        nanos_after(nanos_after_calls(nanos, calls.drop_last()), calls.last())
    }
}

/// The accumulator never exceeds its cap: from any clock within the cap (a new or default
/// clock holds nothing), every sequence of `accumulate_nanos` and `take_steps` calls leaves it
/// between zero and `MAX_ACCUMULATED_NANOS`.
pub proof fn lemma_cap_holds_over_calls(start: int, calls: Seq<ClockCall>)
    requires
        0 <= start <= MAX_ACCUMULATED_NANOS,
    ensures
        0 <= nanos_after_calls(start, calls) <= MAX_ACCUMULATED_NANOS,
    decreases calls.len(),
{
    if calls.len() > 0 {
        lemma_cap_holds_over_calls(start, calls.drop_last());
        let n = nanos_after_calls(start, calls.drop_last());
        if calls.last() is TakeSteps {
            let q = n / (NANOS_PER_STEP as int);
            assert(q * (NANOS_PER_STEP as int) <= n) by (nonlinear_arith)
                requires
                    0 <= n,
                    q == n / (NANOS_PER_STEP as int),
            ;
            assert(steps_released(n) <= q);
            assert(steps_released(n) * (NANOS_PER_STEP as int) <= q * (NANOS_PER_STEP as int)) by (nonlinear_arith)
                requires
                    0 <= steps_released(n) <= q,
            ;
        }
    }
}

/// The clock keeps less than one step once a frame has taken every step it may: what is left
/// after `take_steps` is below one step whenever fewer than `MAX_STEPS_PER_FRAME` steps ran, so
/// no whole tick is ever held back while the frame budget allowed it.
pub proof fn lemma_no_whole_step_held_back(before: u64, steps: int, after: u64)
    requires
        before <= MAX_ACCUMULATED_NANOS,
        steps == if before / NANOS_PER_STEP <= MAX_STEPS_PER_FRAME {
            (before / NANOS_PER_STEP) as int
        } else {
            MAX_STEPS_PER_FRAME as int
        },
        after == before - steps * NANOS_PER_STEP,
    ensures
        steps < MAX_STEPS_PER_FRAME ==> after < NANOS_PER_STEP,
        steps * NANOS_PER_STEP + after == before,
{
}

} // verus!
