//! A discrete-event simulation kernel.
//!
//! An [`environment::Environment`] owns a clock, a queue of pending events in
//! time order, a registry of processes, and the resources that the processes
//! contend for: pools of units, buffers of a commodity and queues of items.
//! It dispatches the events one by one: it resumes the process of each event
//! and carries out what the process asks for when it yields.
//!
//! [`kernel::Kernel`] is the same simulation as a transition system over
//! mathematical values. Every operation of the environment is stated as a
//! step of that system, and the invariant of the system is proved to hold of
//! everything that the operations reach.

pub mod distribution;
pub mod environment;
pub mod error;
pub mod kernel;
pub mod manager;
pub mod process;
pub mod resources;
pub mod schedule;
