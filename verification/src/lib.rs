//! Driver core of a discrete-event network simulator.
//!
//! The library advances a global emulated clock in bounded, non-overlapping
//! windows: every host whose next event falls inside the current window
//! executes, the per-worker minima of the hosts' next-event times and of the
//! in-flight messages are folded into one global next-event time, and a
//! controller decides from it how far the next window may reach — or that
//! the run is over. An interactive run-control facility can pause, step,
//! continue and restart the simulation, always at window boundaries, never
//! in the middle of a host's execution.

pub mod simtime;
pub mod support;
pub mod event_queue;
pub mod run_control;
pub mod dns;
pub mod host;
pub mod sched;
pub mod manager;
pub mod namespace;
pub mod inotify;
