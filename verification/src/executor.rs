//! The user-facing executor: a thin facade over the engine runtime that
//! ties the lifecycle together — start the engine, spawn futures as tasks,
//! run until drained, signal shutdown.

use crate::runtime::{
    verona_runtime_init, verona_runtime_shutdown, verona_scheduler_run, Runtime, TaskState,
};
use vstd::prelude::*;

verus! {

/// Owns the engine runtime. Creating one starts the engine with the
/// requested worker count; dropping it abandons the engine state.
pub struct Executor {
    rt: Runtime,
}

impl Executor {
    /// The wrapped engine runtime, for specification purposes.
    pub closed spec fn rt(self) -> Runtime {
        self.rt
    }

    /// Every executor wraps an initialized, well-formed runtime in which no
    /// poll is in flight: the executor never leaves a poll guard dangling.
    pub open spec fn wf(self) -> bool {
        &&& self.rt().wf()
        &&& self.rt().spec_initialized()
        &&& forall|t: int|
            0 <= t < self.rt().n_tasks() ==> !(#[trigger] self.rt().state_of(t) is Polling)
    }

    /// Start the engine with `threads` workers and hand back its executor.
    pub fn new(threads: usize) -> (e: Executor)
        ensures
            e.wf(),
            e.rt().spec_workers() == threads,
            e.rt().n_tasks() == 0,
            e.rt().queue_seq().len() == 0,
            !e.rt().spec_stopping(),
    {
        let mut rt = Runtime::new();
        verona_runtime_init(&mut rt, threads);
        Executor { rt }
    }

    /// Spawn a future — given as its poll behaviour, `pends` pending steps
    /// then completion or, if `fault`, a fault — wrapping it in a task and
    /// submitting the task to the engine's run queue.
    pub fn spawn(&mut self, pends: usize, fault: bool) -> (t: usize)
        requires
            old(self).wf(),
            old(self).rt().n_tasks() < usize::MAX,
        ensures
            final(self).wf(),
            t == old(self).rt().n_tasks(),
            final(self).rt().n_tasks() == old(self).rt().n_tasks() + 1,
            final(self).rt().state_of(t as int) is Queued,
            final(self).rt().pends_of(t as int) == pends,
            final(self).rt().task_seq()[t as int].fault == fault,
            !final(self).rt().faulted_of(t as int),
            forall|t2: int|
                0 <= t2 < old(self).rt().n_tasks() ==> final(self).rt().task_seq()[t2] == old(
                    self,
                ).rt().task_seq()[t2],
            final(self).rt().spec_workers() == old(self).rt().spec_workers(),
            final(self).rt().spec_stopping() == old(self).rt().spec_stopping(),
    {
        let t = self.rt.spawn_task(pends, fault);
        proof {
            assert forall|t2: int|
                0 <= t2 < self.rt().n_tasks() implies !(#[trigger] self.rt().state_of(
                t2,
            ) is Polling) by {
                if t2 < old(self).rt().n_tasks() {
                    assert(!(old(self).rt().state_of(t2) is Polling));
                }
            }
        }
        t
    }

    /// Block until the engine has no more runnable work: every spawned task
    /// has completed when this returns, faulting tasks marked as
    /// completed-with-failure without harming the rest.
    pub fn run(&mut self)
        requires
            old(self).wf(),
        ensures
            final(self).wf(),
            final(self).rt().n_tasks() == old(self).rt().n_tasks(),
            final(self).rt().queue_seq().len() == 0,
            forall|t: int|
                0 <= t < old(self).rt().n_tasks() ==> final(self).rt().state_of(t) is Completed,
            forall|t: int|
                0 <= t < old(self).rt().n_tasks() ==> final(self).rt().faulted_of(t) == (if old(
                    self,
                ).rt().state_of(t) is Completed {
                    old(self).rt().faulted_of(t)
                } else {
                    old(self).rt().task_seq()[t].fault
                }),
            final(self).rt().spec_workers() == old(self).rt().spec_workers(),
            final(self).rt().spec_stopping() == old(self).rt().spec_stopping(),
    {
        verona_scheduler_run(&mut self.rt);
        proof {
            assert forall|t2: int|
                0 <= t2 < self.rt().n_tasks() implies !(#[trigger] self.rt().state_of(
                t2,
            ) is Polling) by {
                assert(self.rt().state_of(t2) is Completed);
            }
        }
    }

    /// Ask the engine to stop accepting new top-level work. Nothing
    /// in flight is cancelled; `run` still lets outstanding tasks finish.
    pub fn shutdown(&mut self)
        requires
            old(self).wf(),
        ensures
            final(self).wf(),
            final(self).rt().spec_stopping(),
            final(self).rt().task_seq() == old(self).rt().task_seq(),
            final(self).rt().queue_seq() == old(self).rt().queue_seq(),
            final(self).rt().spec_workers() == old(self).rt().spec_workers(),
    {
        verona_runtime_shutdown(&mut self.rt);
        proof {
            assert forall|t2: int|
                0 <= t2 < self.rt().n_tasks() implies !(#[trigger] self.rt().state_of(
                t2,
            ) is Polling) by {
                assert(!(old(self).rt().state_of(t2) is Polling));
            }
        }
    }

    /// How many tasks were ever spawned on this executor.
    pub fn task_count(&self) -> (r: usize)
        ensures
            r == self.rt().n_tasks(),
    {
        self.rt.task_count()
    }

    /// The scheduling state of task `t`.
    pub fn task_state(&self, t: usize) -> (r: TaskState)
        requires
            (t as int) < self.rt().n_tasks(),
        ensures
            r == self.rt().state_of(t as int),
    {
        self.rt.task_state(t)
    }

    /// Whether task `t` completed with a contained fault.
    pub fn task_faulted(&self, t: usize) -> (r: bool)
        requires
            (t as int) < self.rt().n_tasks(),
        ensures
            r == self.rt().faulted_of(t as int),
    {
        self.rt.task_faulted(t)
    }

    /// The worker count the engine was started with.
    pub fn worker_count(&self) -> (r: usize)
        ensures
            r == self.rt().spec_workers(),
    {
        self.rt.worker_count()
    }

    /// Whether shutdown has been requested.
    pub fn is_stopping(&self) -> (r: bool)
        ensures
            r == self.rt().spec_stopping(),
    {
        self.rt.is_stopping()
    }
}

} // verus!
