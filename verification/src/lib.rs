//! A single-threaded cooperative reactor whose only event source is time.
//!
//! Computations suspend by registering a timer and reporting
//! [`poll::Poll::Pending`]; the reactor fires the timers that are due, posts
//! wake signals and resumes the tasks they name, until no task is suspended.
//! The reactor never blocks and never reads a clock: time is a number that
//! its driver supplies. [`reactor::Reactor::run`] drives it on its own clock,
//! moving the clock forward where a driver on the wall clock would sleep.
//!
//! The crate also holds a few small containers: a linked stack, a growable
//! array with its slices, cells, and a family of iterators with their
//! adaptors.

pub mod poll;
pub mod waker;
pub mod timer;
pub mod timer_order;
pub mod state;
pub mod computation;
pub mod reactor;
pub mod timeout;
pub mod sleep_task;
pub mod undisturbed;
pub mod laws;
pub mod timeout_laws;
pub mod sleep_task_laws;
pub mod linklist;
pub mod myvec;
pub mod myslice;
pub mod myiterator;
pub mod myrefcell;
