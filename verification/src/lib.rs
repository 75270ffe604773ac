//! A behavior-oriented concurrency core: reference-counted concurrent owners
//! ("cowns") granting exclusive access to their values, and a task/executor
//! bridge that maps cooperative futures onto a queue-based scheduling engine.
//!
//! Every public operation is one atomic step of the engine; a concurrent
//! execution is an arbitrary interleaving of such steps, so the contracts and
//! invariants proved here hold for every interleaving.

pub mod cown;
pub mod executor;
pub mod runtime;

