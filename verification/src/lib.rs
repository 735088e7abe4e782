//! A work-stealing async task runtime: task lifecycle, scheduling decisions,
//! the reactor's waker registry and the `main` attribute's argument grammar.

pub mod executor;
pub mod main_attr;
pub mod queues;
pub mod reactor;
pub mod task;
