//! Talps Manager: a task execution service.
//!
//! Clients submit named command tasks, optionally related by dependency
//! edges forming a DAG, and the scheduler executes them in dependency
//! order under an explicit run/stop/shutdown lifecycle.  This crate holds
//! the verified core: the task registry with its in-degree bookkeeping,
//! the ready queue, and the lifecycle state machine that drives the
//! worker protocol.  Process spawning, threads and the wake/wait
//! plumbing live outside the library and call into it.

pub mod decimal;
pub mod form;
pub mod graph;
pub mod manager;
pub mod select;
pub mod spmc_queue;
pub mod task;
mod time;
