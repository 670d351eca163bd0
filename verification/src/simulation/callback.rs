//! Observers of a run.

use crate::schedule::SchedulerArgs;
use crate::simulation::sim_event::SimEvent;
use crate::simulation::state::Plan;
use vstd::prelude::*;

verus! {

/// An observer of a run. It is told of every event before the event changes
/// anything, of what the scheduler is given, and of what the scheduler plans.
pub trait SimulationCallback {
    fn visit_event(&mut self, event: &SimEvent) {
    }

    fn visit_dispatch_input(&mut self, input: &SchedulerArgs) {
    }

    fn visit_dispatch_output(&mut self, output: &Plan) {
    }
}

} // verus!
