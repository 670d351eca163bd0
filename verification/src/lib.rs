//! Discrete-event simulation kernel for a dynamic pickup-and-delivery problem:
//! capacitated vehicles serve factories with bounded docks, items travel on a
//! last-in-first-out stack, and a pluggable scheduler proposes plans that the
//! kernel validates before it executes them.
//!
//! - `model` holds the reference data of an instance: factories, vehicles,
//!   orders, items and roads, in maps that keep their keys in order.
//! - `simulation` holds the kernel: the event queue, the state of vehicles,
//!   docks and items, the rule of each event, the plan validator, the event
//!   loop, and the laws that hold of all of them.
//! - `schedule` holds what a scheduler is given and gives back, and two schedulers.
//! - `callbacks` holds what observers need to keep records of a run.
//!
//! Times are whole seconds; an instant is counted from an epoch that the
//! user picks, a time of day from midnight. Demand and capacity are counted
//! in boxes, distances in a unit that the instance picks.

pub mod callbacks;
pub mod model;
pub mod schedule;
pub mod simulation;
