//! The scheduler that plans nothing.

use crate::model::table::MapType;
use crate::schedule::{Scheduler, SchedulerArgs};
use crate::simulation::state::Plan;
use vstd::prelude::*;

verus! {

/// A scheduler whose plan is always empty.
#[derive(Debug, Default)]
pub struct NoopScheduler;

impl Scheduler for NoopScheduler {
    fn schedule(&mut self, args: SchedulerArgs) -> (plan: Plan)
        ensures
            plan.keys().len() == 0,
    {
        MapType::new()
    }
}

} // verus!
