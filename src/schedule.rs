//! What the driver loop decides on each tick: whether to take a generation,
//! restart the interval timer, or emit a frame.
use vstd::prelude::*;

verus! {

/// What the driver loop does on one tick.
#[derive(Clone, Copy, Debug, PartialEq, Eq, Structural)]
pub struct TickPlan {
    /// Advance the grid by one generation.
    pub step: bool,
    /// Restart the timer that measures the interval between generations.
    pub reset_timer: bool,
    /// Hand the rendered frame to the recording.
    pub emit_frame: bool,
}

/// The decisions of the driver loop: whether the simulation runs, whether it is
/// recorded, and how generations are paced.
#[derive(Clone, Copy, Debug, PartialEq, Eq, Structural)]
pub struct Controls {
    /// The simulation is running (not paused).
    pub run_sim: bool,
    /// Frames go to a recording.
    pub record: bool,
    /// While recording, take a generation only once the interval has passed,
    /// rather than on every frame.
    pub output_still_frame: bool,
    /// The interval between generations, in milliseconds.
    pub next_simulation: u64,
}

/// The plan for a tick, `elapsed` milliseconds after the timer was last reset.
/// Without recording a generation is taken once the interval has passed. While
/// recording, every frame is emitted, and a generation is taken on every frame,
/// or once the interval has passed where still frames are asked for. A paused
/// simulation does nothing.
pub open spec fn plan_spec(c: Controls, elapsed: int) -> TickPlan {
    let due = elapsed >= c.next_simulation;
    TickPlan {
        step: c.run_sim && if c.record {
            !c.output_still_frame || due
        } else {
            due
        },
        reset_timer: c.run_sim && due && (!c.record || c.output_still_frame),
        emit_frame: c.run_sim && c.record,
    }
}

impl Controls {
    /// Controls for a paused simulation.
    pub fn new(record: bool, output_still_frame: bool, next_simulation: u64) -> (r: Controls)
        ensures
            r == (Controls { run_sim: false, record, output_still_frame, next_simulation }),
    {
        Controls { run_sim: false, record, output_still_frame, next_simulation }
    }

    /// The start/pause key: it toggles the simulation, except while recording,
    /// where it can only start it.
    pub fn press_run(&mut self)
        ensures
            *final(self) == (Controls {
                run_sim: if old(self).record {
                    true
                } else {
                    !old(self).run_sim
                },
                ..*old(self)
            }),
    {
        if self.record {
            self.run_sim = true;
        } else {
            self.run_sim = !self.run_sim;
        }
    }

    /// Whether the grid may be edited by hand (drawn, cleared, randomised): only
    /// while the simulation is paused.
    pub fn editing_allowed(&self) -> (r: bool)
        ensures
            r == !self.run_sim,
    {
        !self.run_sim
    }

    /// The plan for a tick, `elapsed` milliseconds after the timer was last reset.
    pub fn plan(&self, elapsed: u128) -> (r: TickPlan)
        ensures
            r == plan_spec(*self, elapsed as int),
    {
        let due = elapsed >= self.next_simulation as u128;
        if due && !self.record && self.run_sim {
            TickPlan { step: true, reset_timer: true, emit_frame: false }
        } else if self.run_sim {
            if self.output_still_frame && self.record {
                TickPlan { step: due, reset_timer: due, emit_frame: true }
            } else if self.record {
                TickPlan { step: true, reset_timer: false, emit_frame: true }
            } else {
                TickPlan { step: false, reset_timer: false, emit_frame: false }
            }
        } else {
            TickPlan { step: false, reset_timer: false, emit_frame: false }
        }
    }
}

/// Whether a recording of `encoded` milliseconds has reached its target length;
/// a recording without a target never has.
pub fn recording_complete(encoded: u128, target: Option<u128>) -> (r: bool)
    ensures
        r == match target {
            Some(t) => encoded >= t,
            None => false,
        },
{
    match target {
        Some(t) => encoded >= t,
        None => false,
    }
}

} // verus!
