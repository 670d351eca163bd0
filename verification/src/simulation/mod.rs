//! The event-driven kernel: its events, its queue, its state and its handlers.

pub mod accounting;
pub mod callback;
pub mod custody;
pub mod dispatch;
pub mod engagement;
pub mod event_queue;
pub mod fitting;
pub mod inspect;
pub mod laws;
pub mod lifecycle;
pub mod rules;
pub mod setup;
pub mod sim_event;
pub mod simulator;
pub mod soundness;
pub mod state;
pub mod summary;
pub mod validator;
pub mod wall_clock;
