//! What the kernel hands to a scheduler, what it takes back, and how it
//! brings a plan into its canonical form.

pub mod naive;
pub mod noop;

use crate::model::order_item::{OrderItemId, OrderItemMap};
use crate::model::table::MapType;
use crate::model::vehicle_info::VehicleId;
use crate::simulation::simulator::Simulator;
use crate::simulation::state::{
    OrderItemStateMap, Plan, VehiclePosition, VehicleRoute, VehicleRouteView,
};
use vstd::prelude::*;

verus! {

/// What a scheduler sees when it is called.
pub struct SchedulerArgs {
    /// The items that have become available, with what is known of them.
    pub items: OrderItemMap,
    /// The state of every item.
    pub item_states: OrderItemStateMap,
    /// The planned stack of every vehicle.
    pub vehicle_stacks: MapType<VehicleId, Vec<OrderItemId>>,
    /// Where every vehicle is.
    pub vehicle_positions: MapType<VehicleId, VehiclePosition>,
    /// A copy of the simulator that knows only the orders placed so far, to look ahead with.
    pub static_simulator: Simulator,
    /// The instant of the call.
    pub time: i64,
    /// The distance driven since the call before.
    pub elapsed_distance: i64,
}

/// A scheduler: given the view of the moment, it plans stops for vehicles.
/// A vehicle that the plan does not name keeps the stops it has.
pub trait Scheduler {
    fn schedule(&mut self, args: SchedulerArgs) -> Plan;
}

/// The stops of a vehicle with every run of stops at one place made one stop.
pub open spec fn dedup_routes(routes: Seq<VehicleRouteView>) -> Seq<VehicleRouteView>
    decreases routes.len(),
{
    if routes.len() == 0 {
        Seq::empty()
    } else {
        let head = dedup_routes(routes.drop_last());
        let r = routes.last();
        if head.len() > 0 && head.last().destination == r.destination {
            head.drop_last().push(head.last().merge(r))
        } else {
            head.push(r)
        }
    }
}

/// No two stops that follow one another are at the same place.
pub open spec fn canonical(routes: Seq<VehicleRouteView>) -> bool {
    forall|i: int|
        0 <= i < routes.len() - 1 ==> (#[trigger] routes[i]).destination != routes[i
            + 1].destination
}

/// The stops of every vehicle of a plan in canonical form.
pub open spec fn dedup_all(values: Seq<Seq<VehicleRouteView>>) -> Seq<Seq<VehicleRouteView>> {
    Seq::new(values.len(), |i: int| dedup_routes(values[i]))
}

/// The canonical form of a list of stops.
#[verifier::loop_isolation(false)]
pub fn deduplicate_routes(routes: &Vec<VehicleRoute>) -> (plan: Vec<VehicleRoute>)
    ensures
        plan.deep_view() == dedup_routes(routes.deep_view()),
{
    let ghost list = routes.deep_view();
    let mut plan: Vec<VehicleRoute> = Vec::new();
    assert(plan.deep_view() =~= dedup_routes(list.take(0)));
    let mut i: usize = 0;
    while i < routes.len()
        invariant
            i <= routes.len(),
            plan.deep_view() == dedup_routes(list.take(i as int)),
        decreases routes.len() - i,
    {
        proof {
            assert(list.take(i + 1).drop_last() =~= list.take(i as int));
            assert(list.take(i + 1).last() == list[i as int]);
        }
        let ghost head = plan.deep_view();
        let route = routes[i].clone();
        let n: usize = plan.len();
        if n > 0 {
            match plan[n - 1].try_merge(route) {
                Ok(()) => {
                    assert(plan.deep_view() =~= head.drop_last().push(
                        head.last().merge(list[i as int]),
                    ));
                },
                Err(route) => {
                    assert(plan.deep_view() =~= head);
                    plan.push(route);
                    assert(plan.deep_view() =~= head.push(list[i as int]));
                },
            }
        } else {
            plan.push(route);
            assert(plan.deep_view() =~= head.push(list[i as int]));
        }
        i += 1;
    }
    assert(list.take(i as int) =~= list);
    plan
}

/// Brings a plan into canonical form: for every vehicle, stops that follow
/// one another at one place become one stop that does the work of all.
#[verifier::loop_isolation(false)]
pub fn deduplicate(plans: &mut Plan)
    ensures
        final(plans).keys() == old(plans).keys(),
        final(plans).values() == dedup_all(old(plans).values()),
{
    let ghost keys = plans.keys();
    let ghost values = plans.values();
    let n: usize = plans.len();
    let mut i: usize = 0;
    while i < n
        invariant
            i <= n,
            plans.keys() == keys,
            plans.values().len() == n,
            forall|j: int| 0 <= j < i ==> plans.values()[j] == dedup_routes(values[j]),
            forall|j: int| i <= j < n ==> plans.values()[j] == values[j],
        decreases n - i,
    {
        let slot = plans.value_mut_at(i);
        let canonical = deduplicate_routes(slot);
        *slot = canonical;
        i += 1;
    }
    assert(plans.values() =~= dedup_all(values));
}

} // verus!
