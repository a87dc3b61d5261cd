// Concurrency primitives as verified state machines: spawned tasks and their
// one-shot join handles, a multi-producer single-consumer channel, a value
// shared through counted handles behind a lock, and an executor that runs
// cooperative tasks on a worker pool beside a separate pool for blocking work.
// Each operation states, over an abstract view, the exact next state; the
// threads that carry the operations out live with the caller.

use vstd::prelude::*;

pub mod account;
pub mod auth;
pub mod channel;
pub mod counter;
pub mod executor;
pub mod shared;
pub mod task;
pub mod text;
pub mod work;

verus! {

} // verus!
