//! The task side of the engine: schedulable tasks wrapping cooperative
//! futures, the run queue, the wake-to-reschedule bridge, and the runtime
//! lifecycle (idempotent init, run-until-drained, shutdown).
//!
//! A future is modelled by its observable poll behaviour: how many more
//! polls report "pending" before its final step, and whether that final
//! step completes or faults. Stepping a real future is a driver's work; the
//! scheduling discipline around the step — the poll guard, the queue, wake
//! coalescing, fault containment — is the verified logic here.
//!
//! Each public operation is one atomic step of the engine; a concurrent
//! history is any interleaving of such steps, so the invariants hold for
//! every interleaving.

use crate::cown::seq_has;
use vstd::prelude::*;

verus! {

/// What one resumption step of a task's future reported.
#[derive(Clone, Copy, PartialEq, Eq, Structural, Debug)]
pub enum PollResult {
    /// Not ready: the task suspends until a wake arrives.
    Pending,
    /// The future finished normally; the task is complete.
    Completed,
    /// The future raised a fault; it is contained at the task boundary and
    /// the task is treated as completed-with-failure.
    Faulted,
}

/// The scheduling state of one task.
#[derive(Clone, Copy, PartialEq, Eq, Structural, Debug)]
pub enum TaskState {
    /// In the run queue, waiting for a worker.
    Queued,
    /// A worker holds the poll guard and is stepping the future right now.
    Polling,
    /// Parked after reporting pending; waiting for a wake.
    Suspended,
    /// Finished, normally or by a contained fault; never polled again.
    Completed,
}

/// A schedulable unit wrapping one future, guarded against concurrent
/// re-entrant polling. The wrapped future appears as its remaining poll
/// behaviour: `pends` steps that report pending, then one final step.
#[derive(Clone, Copy)]
pub struct Task {
    pub state: TaskState,
    /// How many more polls report pending before the final step.
    pub pends: usize,
    /// Whether the final step faults instead of completing.
    pub fault: bool,
    /// A wake arrived while a poll was in flight: re-queue on suspension
    /// instead of parking, so coalesced wakes are never lost.
    pub rewake: bool,
    /// Completed with a contained fault.
    pub faulted: bool,
}

/// The engine-facing runtime: lifecycle flags, the task table and the run
/// queue.
pub struct Runtime {
    initialized: bool,
    workers: usize,
    stopping: bool,
    tasks: Vec<Task>,
    queue: Vec<usize>,
}

/// How much polling a task can still require: nothing once completed, else
/// its pending steps plus the final one.
pub open spec fn task_work(t: Task) -> nat {
    if t.state is Completed {
        0nat
    } else {
        t.pends as nat + 1
    }
}

/// Total polling the table can still require.
pub open spec fn total_work(ts: Seq<Task>) -> nat
    decreases ts.len(),
{
    if ts.len() <= 0 {
        0nat
    } else {
        total_work(ts.drop_last()) + task_work(ts.last())
    }
}

/// How many tasks are parked waiting for a wake.
pub open spec fn count_suspended(ts: Seq<Task>) -> nat
    decreases ts.len(),
{
    if ts.len() <= 0 {
        0nat
    } else {
        count_suspended(ts.drop_last()) + (if ts.last().state is Suspended {
            1nat
        } else {
            0nat
        })
    }
}

proof fn lemma_total_work_update(ts: Seq<Task>, i: int, t2: Task)
    requires
        0 <= i < ts.len(),
    ensures
        total_work(ts.update(i, t2)) + task_work(ts[i]) == total_work(ts) + task_work(t2),
    decreases ts.len(),
{
    let q2 = ts.update(i, t2);
    if i == ts.len() - 1 {
        assert(q2.drop_last() =~= ts.drop_last());
        assert(q2.last() == t2);
    } else {
        assert(q2.drop_last() =~= ts.drop_last().update(i, t2));
        assert(q2.last() == ts.last());
        lemma_total_work_update(ts.drop_last(), i, t2);
    }
}

proof fn lemma_count_suspended_update(ts: Seq<Task>, i: int, t2: Task)
    requires
        0 <= i < ts.len(),
    ensures
        count_suspended(ts.update(i, t2)) + (if ts[i].state is Suspended {
            1nat
        } else {
            0nat
        }) == count_suspended(ts) + (if t2.state is Suspended {
            1nat
        } else {
            0nat
        }),
    decreases ts.len(),
{
    let q2 = ts.update(i, t2);
    if i == ts.len() - 1 {
        assert(q2.drop_last() =~= ts.drop_last());
        assert(q2.last() == t2);
    } else {
        assert(q2.drop_last() =~= ts.drop_last().update(i, t2));
        assert(q2.last() == ts.last());
        lemma_count_suspended_update(ts.drop_last(), i, t2);
    }
}

impl Runtime {
    // ---- spec-level observables ----

    pub closed spec fn task_seq(self) -> Seq<Task> {
        self.tasks@
    }

    pub closed spec fn queue_seq(self) -> Seq<usize> {
        self.queue@
    }

    pub closed spec fn spec_initialized(self) -> bool {
        self.initialized
    }

    pub closed spec fn spec_workers(self) -> nat {
        self.workers as nat
    }

    pub closed spec fn spec_stopping(self) -> bool {
        self.stopping
    }

    pub open spec fn n_tasks(self) -> nat {
        self.task_seq().len()
    }

    pub open spec fn state_of(self, t: int) -> TaskState {
        self.task_seq()[t].state
    }

    pub open spec fn pends_of(self, t: int) -> nat {
        self.task_seq()[t].pends as nat
    }

    pub open spec fn faulted_of(self, t: int) -> bool {
        self.task_seq()[t].faulted
    }

    /// One run-queue entry is sane: in range and pointing at a queued task.
    pub open spec fn queue_wf(self, k: int) -> bool {
        &&& (self.queue_seq()[k] as int) < self.n_tasks()
        &&& self.state_of(self.queue_seq()[k] as int) is Queued
    }

    /// Per-task invariant: a queued task is in the run queue; the rewake
    /// mark only exists while a poll is in flight; a fault record only
    /// exists on a completed task.
    pub open spec fn task_inv(self, t: int) -> bool {
        &&& (self.state_of(t) is Queued ==> seq_has(self.queue_seq(), t))
        &&& (self.task_seq()[t].rewake ==> self.state_of(t) is Polling)
        &&& (self.task_seq()[t].faulted ==> self.state_of(t) is Completed)
    }

    /// The invariant every operation preserves. The queue holds exactly the
    /// queued tasks, each at most once: the source of poll exclusivity.
    pub open spec fn wf(self) -> bool {
        &&& forall|k: int| 0 <= k < self.queue_seq().len() ==> #[trigger] self.queue_wf(k)
        &&& forall|k1: int, k2: int|
            0 <= k1 < k2 < self.queue_seq().len() ==> self.queue_seq()[k1] != self.queue_seq()[k2]
        &&& forall|t: int| 0 <= t < self.n_tasks() ==> #[trigger] self.task_inv(t)
    }

    /// A fresh, uninitialized runtime with no tasks.
    pub fn new() -> (rt: Runtime)
        ensures
            rt.wf(),
            !rt.spec_initialized(),
            !rt.spec_stopping(),
            rt.spec_workers() == 0,
            rt.n_tasks() == 0,
            rt.queue_seq().len() == 0,
    {
        Runtime {
            initialized: false,
            workers: 0,
            stopping: false,
            tasks: Vec::new(),
            queue: Vec::new(),
        }
    }

    /// Create a task wrapping a future (given as its poll behaviour:
    /// `pends` pending steps, then completion or, if `fault`, a fault) and
    /// submit it to the run queue. Spawning demands an initialized engine:
    /// a driver must check `is_initialized` first and fail loudly, as
    /// queueing work against an uninitialized engine is a programming error.
    pub fn spawn_task(&mut self, pends: usize, fault: bool) -> (t: usize)
        requires
            old(self).wf(),
            old(self).spec_initialized(),
            old(self).n_tasks() < usize::MAX,
        ensures
            final(self).wf(),
            t == old(self).n_tasks(),
            final(self).task_seq() == old(self).task_seq().push(
                (Task { state: TaskState::Queued, pends, fault, rewake: false, faulted: false }),
            ),
            final(self).queue_seq() == old(self).queue_seq().push(t),
            final(self).spec_initialized() == old(self).spec_initialized(),
            final(self).spec_workers() == old(self).spec_workers(),
            final(self).spec_stopping() == old(self).spec_stopping(),
    {
        let t = self.tasks.len();
        self.tasks.push(Task { state: TaskState::Queued, pends, fault, rewake: false, faulted: false });
        self.queue.push(t);
        proof {
            assert forall|k: int| 0 <= k < self.queue_seq().len() implies self.queue_wf(k) by {
                if k < old(self).queue_seq().len() {
                    assert(old(self).queue_wf(k));
                }
            }
            assert forall|k1: int, k2: int|
                0 <= k1 < k2 < self.queue_seq().len() implies self.queue_seq()[k1]
                != self.queue_seq()[k2] by {
                if k2 < old(self).queue_seq().len() {
                } else {
                    assert(self.queue_seq()[k2] == t);
                    if k1 < old(self).queue_seq().len() {
                        assert(old(self).queue_wf(k1));
                    }
                }
            }
            assert forall|t2: int| 0 <= t2 < self.n_tasks() implies self.task_inv(t2) by {
                if t2 < old(self).n_tasks() {
                    assert(old(self).task_inv(t2));
                    if old(self).state_of(t2) is Queued {
                        let k = choose|k: int|
                            0 <= k < old(self).queue_seq().len() && old(self).queue_seq()[k] == t2;
                        assert(self.queue_seq()[k] == t2);
                    }
                } else {
                    assert(self.queue_seq()[self.queue_seq().len() - 1] == t2);
                }
            }
        }
        t
    }

    /// Whether the engine has been started.
    pub fn is_initialized(&self) -> (r: bool)
        ensures
            r == self.spec_initialized(),
    {
        self.initialized
    }

    /// The worker count the engine was started with.
    pub fn worker_count(&self) -> (r: usize)
        ensures
            r == self.spec_workers(),
    {
        self.workers
    }

    /// Whether shutdown has been requested.
    pub fn is_stopping(&self) -> (r: bool)
        ensures
            r == self.spec_stopping(),
    {
        self.stopping
    }

    /// How many tasks were ever spawned.
    pub fn task_count(&self) -> (r: usize)
        ensures
            r == self.n_tasks(),
    {
        self.tasks.len()
    }

    /// The scheduling state of task `t`.
    pub fn task_state(&self, t: usize) -> (r: TaskState)
        requires
            (t as int) < self.n_tasks(),
        ensures
            r == self.state_of(t as int),
    {
        self.tasks[t].state
    }

    /// Whether task `t` completed with a contained fault.
    pub fn task_faulted(&self, t: usize) -> (r: bool)
        requires
            (t as int) < self.n_tasks(),
        ensures
            r == self.faulted_of(t as int),
    {
        self.tasks[t].faulted
    }

    /// Take the next runnable task off the queue and acquire its poll
    /// guard: from this moment until `poll_future` reports the outcome, no
    /// other worker can obtain the same task.
    pub fn next_task(&mut self) -> (r: Option<usize>)
        requires
            old(self).wf(),
        ensures
            final(self).wf(),
            final(self).n_tasks() == old(self).n_tasks(),
            final(self).spec_initialized() == old(self).spec_initialized(),
            final(self).spec_workers() == old(self).spec_workers(),
            final(self).spec_stopping() == old(self).spec_stopping(),
            r is None <==> old(self).queue_seq().len() == 0,
            r is None ==> final(self).task_seq() == old(self).task_seq() && final(self).queue_seq()
                == old(self).queue_seq(),
            r is Some ==> r->0 == old(self).queue_seq()[0] && old(self).state_of(r->0 as int)
                is Queued && final(self).queue_seq() == old(self).queue_seq().subrange(
                1,
                old(self).queue_seq().len() as int,
            ) && final(self).task_seq() == old(self).task_seq().update(
                r->0 as int,
                (Task { state: TaskState::Polling, ..old(self).task_seq()[r->0 as int] }),
            ),
    {
        if self.queue.len() == 0 {
            return None;
        }
        let t = self.queue.remove(0);
        proof {
            assert(old(self).queue_wf(0));
        }
        let mut task = self.tasks[t];
        task.state = TaskState::Polling;
        self.tasks.set(t, task);
        proof {
            let q0 = old(self).queue_seq();
            assert(self.queue_seq() =~= q0.subrange(1, q0.len() as int));
            assert forall|k: int| 0 <= k < self.queue_seq().len() implies self.queue_wf(k) by {
                assert(old(self).queue_wf(k + 1));
                assert(q0[k + 1] != q0[0]);
            }
            assert forall|k1: int, k2: int|
                0 <= k1 < k2 < self.queue_seq().len() implies self.queue_seq()[k1]
                != self.queue_seq()[k2] by {
                assert(q0[k1 + 1] != q0[k2 + 1]);
            }
            assert forall|t2: int| 0 <= t2 < self.n_tasks() implies self.task_inv(t2) by {
                assert(old(self).task_inv(t2));
                if t2 != t as int && self.state_of(t2) is Queued {
                    let k = choose|k: int| 0 <= k < q0.len() && q0[k] == t2;
                    assert(k != 0);
                    assert(self.queue_seq()[k - 1] == t2);
                }
            }
        }
        Some(t)
    }

    /// Find a parked task, if any. This stands for the external conditions
    /// (a timer, an I/O readiness) that would wake parked tasks: the drain
    /// loop uses it to model every pending wait eventually resolving.
    fn first_suspended(&self) -> (r: Option<usize>)
        ensures
            r is Some ==> (r->0 as int) < self.n_tasks() && self.state_of(r->0 as int)
                is Suspended,
            r is None ==> forall|t: int|
                0 <= t < self.n_tasks() ==> !(self.state_of(t) is Suspended),
    {
        let n = self.tasks.len();
        let mut t: usize = 0;
        while t < n
            invariant
                0 <= t <= n,
                n == self.n_tasks(),
                forall|t2: int| 0 <= t2 < t ==> !(self.state_of(t2) is Suspended),
            decreases n - t,
        {
            if self.tasks[t].state == TaskState::Suspended {
                return Some(t);
            }
            t = t + 1;
        }
        None
    }
}

/// Start the engine if it has not been started: only the first call takes
/// effect, and the worker count it asked for is kept; any later call — from
/// any thread, in any order — is a silent no-op by design, not an error.
pub fn verona_runtime_init(rt: &mut Runtime, threads: usize)
    requires
        old(rt).wf(),
    ensures
        final(rt).wf(),
        final(rt).spec_initialized(),
        final(rt).spec_workers() == if old(rt).spec_initialized() {
            old(rt).spec_workers()
        } else {
            threads as nat
        },
        final(rt).spec_stopping() == old(rt).spec_stopping(),
        final(rt).task_seq() == old(rt).task_seq(),
        final(rt).queue_seq() == old(rt).queue_seq(),
{
    if !rt.initialized {
        rt.initialized = true;
        rt.workers = threads;
    }
    proof {
        lemma_flags_preserve_wf(*old(rt), *rt);
    }
}

/// Ask the engine to stop: no forcible cancellation, outstanding tasks are
/// left to run to completion or suspension.
pub fn verona_runtime_shutdown(rt: &mut Runtime)
    requires
        old(rt).wf(),
    ensures
        final(rt).wf(),
        final(rt).spec_stopping(),
        final(rt).spec_initialized() == old(rt).spec_initialized(),
        final(rt).spec_workers() == old(rt).spec_workers(),
        final(rt).task_seq() == old(rt).task_seq(),
        final(rt).queue_seq() == old(rt).queue_seq(),
{
    rt.stopping = true;
    proof {
        lemma_flags_preserve_wf(*old(rt), *rt);
    }
}

/// The invariant does not look at the lifecycle flags.
proof fn lemma_flags_preserve_wf(pre: Runtime, post: Runtime)
    requires
        pre.wf(),
        post.task_seq() == pre.task_seq(),
        post.queue_seq() == pre.queue_seq(),
    ensures
        post.wf(),
{
    assert forall|k: int| 0 <= k < post.queue_seq().len() implies post.queue_wf(k) by {
        assert(pre.queue_wf(k));
    }
    assert forall|t: int| 0 <= t < post.n_tasks() implies post.task_inv(t) by {
        assert(pre.task_inv(t));
    }
}

/// The wake-to-reschedule bridge: a waking task re-enters the run queue
/// instead of running inline on the waker's thread. Wakes are coalesced: a
/// wake for a parked task queues it; a wake during an in-flight poll only
/// marks the task, and `poll_future` re-queues it on suspension, so the
/// wake is never lost; a wake for a queued or completed task changes
/// nothing.
pub fn verona_schedule_task(rt: &mut Runtime, t: usize)
    requires
        old(rt).wf(),
        old(rt).spec_initialized(),
        (t as int) < old(rt).n_tasks(),
    ensures
        final(rt).wf(),
        final(rt).n_tasks() == old(rt).n_tasks(),
        final(rt).spec_initialized() == old(rt).spec_initialized(),
        final(rt).spec_workers() == old(rt).spec_workers(),
        final(rt).spec_stopping() == old(rt).spec_stopping(),
        old(rt).state_of(t as int) is Suspended ==> final(rt).task_seq() == old(rt).task_seq()
            .update(
            t as int,
            (Task { state: TaskState::Queued, ..old(rt).task_seq()[t as int] }),
        ) && final(rt).queue_seq() == old(rt).queue_seq().push(t),
        old(rt).state_of(t as int) is Polling ==> final(rt).task_seq() == old(rt).task_seq()
            .update(
            t as int,
            (Task { rewake: true, ..old(rt).task_seq()[t as int] }),
        ) && final(rt).queue_seq() == old(rt).queue_seq(),
        (old(rt).state_of(t as int) is Queued || old(rt).state_of(t as int) is Completed)
            ==> final(rt).task_seq() == old(rt).task_seq() && final(rt).queue_seq() == old(
            rt,
        ).queue_seq(),
{
    let st = rt.tasks[t].state;
    if st == TaskState::Suspended {
        let mut task = rt.tasks[t];
        task.state = TaskState::Queued;
        rt.tasks.set(t, task);
        rt.queue.push(t);
        proof {
            assert forall|k: int| 0 <= k < rt.queue_seq().len() implies rt.queue_wf(k) by {
                if k < old(rt).queue_seq().len() {
                    assert(old(rt).queue_wf(k));
                }
            }
            assert forall|k1: int, k2: int|
                0 <= k1 < k2 < rt.queue_seq().len() implies rt.queue_seq()[k1] != rt.queue_seq()[k2] by {
                if k2 < old(rt).queue_seq().len() {
                } else {
                    if k1 < old(rt).queue_seq().len() {
                        assert(old(rt).queue_wf(k1));
                    }
                }
            }
            assert forall|t2: int| 0 <= t2 < rt.n_tasks() implies rt.task_inv(t2) by {
                assert(old(rt).task_inv(t2));
                if t2 == t as int {
                    assert(rt.queue_seq()[rt.queue_seq().len() - 1] == t2);
                } else if rt.state_of(t2) is Queued {
                    let k = choose|k: int|
                        0 <= k < old(rt).queue_seq().len() && old(rt).queue_seq()[k] == t2;
                    assert(rt.queue_seq()[k] == t2);
                }
            }
        }
    } else if st == TaskState::Polling {
        let mut task = rt.tasks[t];
        task.rewake = true;
        rt.tasks.set(t, task);
        proof {
            assert forall|k: int| 0 <= k < rt.queue_seq().len() implies rt.queue_wf(k) by {
                assert(old(rt).queue_wf(k));
                assert(old(rt).queue_seq()[k] != t);
            }
            assert forall|t2: int| 0 <= t2 < rt.n_tasks() implies rt.task_inv(t2) by {
                assert(old(rt).task_inv(t2));
                if t2 != t as int && rt.state_of(t2) is Queued {
                    assert(seq_has(old(rt).queue_seq(), t2));
                }
            }
        }
    }
}

/// One poll of task `t`, whose poll guard the caller must hold (it was
/// handed out by `next_task` and not yet reported back). Steps the wrapped
/// future once. A pending step parks the task — or re-queues it at once if
/// a wake arrived mid-poll. The final step completes the task; a fault in
/// it is contained right here: the task is marked completed-with-failure
/// and the calling worker carries on unharmed, so one task's fault never
/// halts the engine or other tasks.
pub fn poll_future(rt: &mut Runtime, t: usize) -> (r: PollResult)
    requires
        old(rt).wf(),
        (t as int) < old(rt).n_tasks(),
        old(rt).state_of(t as int) is Polling,
    ensures
        final(rt).wf(),
        final(rt).n_tasks() == old(rt).n_tasks(),
        final(rt).spec_initialized() == old(rt).spec_initialized(),
        final(rt).spec_workers() == old(rt).spec_workers(),
        final(rt).spec_stopping() == old(rt).spec_stopping(),
        old(rt).pends_of(t as int) > 0 ==> r is Pending && final(rt).task_seq() == old(rt)
            .task_seq().update(
            t as int,
            (Task {
                state: if old(rt).task_seq()[t as int].rewake {
                    TaskState::Queued
                } else {
                    TaskState::Suspended
                },
                pends: (old(rt).pends_of(t as int) - 1) as usize,
                rewake: false,
                ..old(rt).task_seq()[t as int]
            }),
        ) && final(rt).queue_seq() == if old(rt).task_seq()[t as int].rewake {
            old(rt).queue_seq().push(t)
        } else {
            old(rt).queue_seq()
        },
        old(rt).pends_of(t as int) == 0 ==> final(rt).task_seq() == old(rt).task_seq().update(
            t as int,
            (Task {
                state: TaskState::Completed,
                rewake: false,
                faulted: old(rt).task_seq()[t as int].fault,
                ..old(rt).task_seq()[t as int]
            }),
        ) && final(rt).queue_seq() == old(rt).queue_seq() && r == (if old(
            rt,
        ).task_seq()[t as int].fault {
            PollResult::Faulted
        } else {
            PollResult::Completed
        }),
{
    let mut task = rt.tasks[t];
    if task.pends > 0 {
        task.pends = task.pends - 1;
        let requeue = task.rewake;
        task.rewake = false;
        if requeue {
            task.state = TaskState::Queued;
        } else {
            task.state = TaskState::Suspended;
        }
        rt.tasks.set(t, task);
        if requeue {
            rt.queue.push(t);
        }
        proof {
            assert(old(rt).task_inv(t as int));
            lemma_poll_step_wf(*old(rt), *rt, t, requeue);
        }
        PollResult::Pending
    } else {
        let was_fault = task.fault;
        task.state = TaskState::Completed;
        task.rewake = false;
        task.faulted = was_fault;
        rt.tasks.set(t, task);
        proof {
            assert(old(rt).task_inv(t as int));
            lemma_poll_step_wf(*old(rt), *rt, t, false);
        }
        if was_fault {
            PollResult::Faulted
        } else {
            PollResult::Completed
        }
    }
}

/// Reporting a poll keeps the invariant: the polled task was not in the
/// queue (it was `Polling`), so parking or completing it, or pushing it
/// back once, leaves the queue sane and duplicate-free.
proof fn lemma_poll_step_wf(pre: Runtime, post: Runtime, t: usize, requeued: bool)
    requires
        pre.wf(),
        (t as int) < pre.n_tasks(),
        pre.state_of(t as int) is Polling,
        post.n_tasks() == pre.n_tasks(),
        forall|t2: int|
            0 <= t2 < pre.n_tasks() && t2 != t as int ==> post.task_seq()[t2] == pre.task_seq()[t2],
        !(post.state_of(t as int) is Polling),
        !post.task_seq()[t as int].rewake,
        post.task_seq()[t as int].faulted ==> post.state_of(t as int) is Completed,
        requeued ==> post.state_of(t as int) is Queued && post.queue_seq() == pre.queue_seq().push(
            t,
        ),
        !requeued ==> !(post.state_of(t as int) is Queued) && post.queue_seq() == pre.queue_seq(),
    ensures
        post.wf(),
{
    assert forall|k: int| 0 <= k < post.queue_seq().len() implies post.queue_wf(k) by {
        if k < pre.queue_seq().len() {
            assert(pre.queue_wf(k));
            assert(pre.queue_seq()[k] != t);
        } else {
            assert(post.queue_seq()[k] == t);
        }
    }
    assert forall|k1: int, k2: int|
        0 <= k1 < k2 < post.queue_seq().len() implies post.queue_seq()[k1] != post.queue_seq()[k2] by {
        if k2 < pre.queue_seq().len() {
            assert(pre.queue_wf(k1));
            assert(pre.queue_wf(k2));
        } else {
            assert(post.queue_seq()[k2] == t);
            if k1 < pre.queue_seq().len() {
                assert(pre.queue_wf(k1));
            }
        }
    }
    assert forall|t2: int| 0 <= t2 < post.n_tasks() implies post.task_inv(t2) by {
        assert(pre.task_inv(t2));
        if t2 == t as int {
            if requeued {
                assert(post.queue_seq()[post.queue_seq().len() - 1] == t);
            }
        } else if post.state_of(t2) is Queued {
            let k = choose|k: int| 0 <= k < pre.queue_seq().len() && pre.queue_seq()[k] == t2;
            assert(post.queue_seq()[k] == t2);
        }
    }
}

/// Report the outcome of stepping task `t`'s future outside the engine:
/// the seam for a driver that polls real futures. `next_task` hands out
/// the poll guard, the driver performs one poll — containing any fault at
/// that boundary and turning it into `Faulted` — and this call applies the
/// outcome: a pending task parks, or re-enters the queue at once if a wake
/// arrived mid-poll; any other outcome completes the task for good.
pub fn finish_poll(rt: &mut Runtime, t: usize, outcome: PollResult)
    requires
        old(rt).wf(),
        (t as int) < old(rt).n_tasks(),
        old(rt).state_of(t as int) is Polling,
    ensures
        final(rt).wf(),
        final(rt).n_tasks() == old(rt).n_tasks(),
        final(rt).spec_initialized() == old(rt).spec_initialized(),
        final(rt).spec_workers() == old(rt).spec_workers(),
        final(rt).spec_stopping() == old(rt).spec_stopping(),
        outcome is Pending ==> final(rt).task_seq() == old(rt).task_seq().update(
            t as int,
            (Task {
                state: if old(rt).task_seq()[t as int].rewake {
                    TaskState::Queued
                } else {
                    TaskState::Suspended
                },
                rewake: false,
                ..old(rt).task_seq()[t as int]
            }),
        ) && final(rt).queue_seq() == if old(rt).task_seq()[t as int].rewake {
            old(rt).queue_seq().push(t)
        } else {
            old(rt).queue_seq()
        },
        !(outcome is Pending) ==> final(rt).task_seq() == old(rt).task_seq().update(
            t as int,
            (Task {
                state: TaskState::Completed,
                rewake: false,
                faulted: outcome is Faulted,
                ..old(rt).task_seq()[t as int]
            }),
        ) && final(rt).queue_seq() == old(rt).queue_seq(),
{
    let mut task = rt.tasks[t];
    match outcome {
        PollResult::Pending => {
            let requeue = task.rewake;
            task.rewake = false;
            if requeue {
                task.state = TaskState::Queued;
            } else {
                task.state = TaskState::Suspended;
            }
            rt.tasks.set(t, task);
            if requeue {
                rt.queue.push(t);
            }
            proof {
                assert(old(rt).task_inv(t as int));
                lemma_poll_step_wf(*old(rt), *rt, t, requeue);
            }
        },
        PollResult::Completed => {
            task.state = TaskState::Completed;
            task.rewake = false;
            task.faulted = false;
            rt.tasks.set(t, task);
            proof {
                assert(old(rt).task_inv(t as int));
                lemma_poll_step_wf(*old(rt), *rt, t, false);
            }
        },
        PollResult::Faulted => {
            task.state = TaskState::Completed;
            task.rewake = false;
            task.faulted = true;
            rt.tasks.set(t, task);
            proof {
                assert(old(rt).task_inv(t as int));
                lemma_poll_step_wf(*old(rt), *rt, t, false);
            }
        },
    }
}

/// What the drain loop may do to one task: a completed task is never
/// touched again; a live one keeps its scripted fault flag until it
/// completes, and records exactly that flag when it does.
pub open spec fn run_track(pre: Task, cur: Task) -> bool {
    if pre.state is Completed {
        cur == pre
    } else {
        cur.fault == pre.fault && (cur.state is Completed ==> cur.faulted == pre.fault)
    }
}

/// Run the scheduler until it is drained: the process's main wait point.
/// Workers poll queued tasks; a task that suspends is re-queued as soon as
/// its wake arrives (every modelled wait eventually resolves, here at
/// once); the loop returns only when no task is runnable or parked. On
/// return every task has completed — the ones whose futures faulted are
/// marked completed-with-failure, and their faults, contained at the task
/// boundary, never prevented any other task from completing.
#[verifier::rlimit(60)]
pub fn verona_scheduler_run(rt: &mut Runtime)
    requires
        old(rt).wf(),
        old(rt).spec_initialized(),
        forall|t: int| 0 <= t < old(rt).n_tasks() ==> !(#[trigger] old(rt).state_of(t) is Polling),
    ensures
        final(rt).wf(),
        final(rt).n_tasks() == old(rt).n_tasks(),
        final(rt).spec_initialized() == old(rt).spec_initialized(),
        final(rt).spec_workers() == old(rt).spec_workers(),
        final(rt).spec_stopping() == old(rt).spec_stopping(),
        final(rt).queue_seq().len() == 0,
        forall|t: int| 0 <= t < old(rt).n_tasks() ==> final(rt).state_of(t) is Completed,
        forall|t: int|
            0 <= t < old(rt).n_tasks() ==> final(rt).faulted_of(t) == (if old(rt).state_of(t)
                is Completed {
                old(rt).faulted_of(t)
            } else {
                old(rt).task_seq()[t].fault
            }),
{
    let mut running = true;
    while running
        invariant
            rt.wf(),
            rt.spec_initialized(),
            rt.n_tasks() == old(rt).n_tasks(),
            rt.spec_initialized() == old(rt).spec_initialized(),
            rt.spec_workers() == old(rt).spec_workers(),
            rt.spec_stopping() == old(rt).spec_stopping(),
            forall|t: int| 0 <= t < rt.n_tasks() ==> !(#[trigger] rt.state_of(t) is Polling),
            forall|t: int|
                0 <= t < rt.n_tasks() ==> #[trigger] run_track(
                    old(rt).task_seq()[t],
                    rt.task_seq()[t],
                ),
            !running ==> rt.queue_seq().len() == 0 && (forall|t: int|
                0 <= t < rt.n_tasks() ==> !(#[trigger] rt.state_of(t) is Suspended)),
        decreases
                total_work(rt.task_seq()),
                count_suspended(rt.task_seq()),
                (if running {
                    1int
                } else {
                    0int
                }),
    {
        let ghost rt0 = *rt;
        let nxt = rt.next_task();
        match nxt {
            Some(t) => {
                let ghost rt1 = *rt;
                proof {
                    assert(rt0.queue_wf(0));
                    lemma_total_work_update(rt0.task_seq(), t as int, rt1.task_seq()[t as int]);
                    lemma_count_suspended_update(
                        rt0.task_seq(),
                        t as int,
                        rt1.task_seq()[t as int],
                    );
                }
                poll_future(rt, t);
                proof {
                    lemma_total_work_update(rt1.task_seq(), t as int, rt.task_seq()[t as int]);
                    lemma_count_suspended_update(
                        rt1.task_seq(),
                        t as int,
                        rt.task_seq()[t as int],
                    );
                    assert(task_work(rt.task_seq()[t as int]) + 1 == task_work(
                        rt1.task_seq()[t as int],
                    ));
                    assert(total_work(rt.task_seq()) < total_work(rt0.task_seq()));
                    assert forall|t2: int|
                        0 <= t2 < rt.n_tasks() implies !(#[trigger] rt.state_of(
                        t2,
                    ) is Polling) by {
                        if t2 != t as int {
                            assert(!(rt0.state_of(t2) is Polling));
                        }
                    }
                    assert forall|t2: int| 0 <= t2 < rt.n_tasks() implies #[trigger] run_track(
                        old(rt).task_seq()[t2],
                        rt.task_seq()[t2],
                    ) by {
                        assert(run_track(old(rt).task_seq()[t2], rt0.task_seq()[t2]));
                        if t2 == t as int {
                            assert(rt0.state_of(t2) is Queued);
                        }
                    }
                }
            },
            None => {
                let sus = rt.first_suspended();
                match sus {
                    Some(t) => {
                        verona_schedule_task(rt, t);
                        proof {
                            lemma_total_work_update(
                                rt0.task_seq(),
                                t as int,
                                rt.task_seq()[t as int],
                            );
                            lemma_count_suspended_update(
                                rt0.task_seq(),
                                t as int,
                                rt.task_seq()[t as int],
                            );
                            assert forall|t2: int|
                                0 <= t2 < rt.n_tasks() implies !(#[trigger] rt.state_of(
                                t2,
                            ) is Polling) by {
                                assert(!(rt0.state_of(t2) is Polling));
                            }
                            assert forall|t2: int|
                                0 <= t2 < rt.n_tasks() implies #[trigger] run_track(
                                old(rt).task_seq()[t2],
                                rt.task_seq()[t2],
                            ) by {
                                assert(run_track(old(rt).task_seq()[t2], rt0.task_seq()[t2]));
                            }
                        }
                    },
                    None => {
                        running = false;
                        proof {
                            assert forall|t2: int|
                                0 <= t2 < rt.n_tasks() implies !(#[trigger] rt.state_of(
                                t2,
                            ) is Polling) by {
                                assert(!(rt0.state_of(t2) is Polling));
                            }
                        }
                    },
                }
            },
        }
    }
    proof {
        assert forall|t: int|
            0 <= t < old(rt).n_tasks() implies (#[trigger] rt.state_of(t)) is Completed && rt
            .faulted_of(t) == (if old(rt).state_of(t) is Completed {
            old(rt).faulted_of(t)
        } else {
            old(rt).task_seq()[t].fault
        }) by {
            assert(rt.task_inv(t));
            assert(!(rt.state_of(t) is Polling));
            assert(!(rt.state_of(t) is Suspended));
            if rt.state_of(t) is Queued {
                assert(seq_has(rt.queue_seq(), t));
                assert(false);
            }
            assert(run_track(old(rt).task_seq()[t], rt.task_seq()[t]));
        }
        assert forall|t: int| 0 <= t < old(rt).n_tasks() implies #[trigger] rt.faulted_of(t) == (
        if old(rt).state_of(t) is Completed {
            old(rt).faulted_of(t)
        } else {
            old(rt).task_seq()[t].fault
        }) by {
            assert(rt.state_of(t) is Completed);
        }
    }
}

/// Poll re-entrancy safety: a task whose poll is in flight is never in the
/// run queue, so `next_task` cannot hand it to a second worker; and only
/// the worker holding the guard may report it, since `poll_future` demands
/// the `Polling` state. A task is therefore never polled by two workers at
/// once, however many wakes arrive meanwhile.
pub proof fn lemma_no_reentrant_poll(rt: Runtime, t: int)
    requires
        rt.wf(),
        0 <= t < rt.n_tasks(),
        rt.state_of(t) is Polling,
    ensures
        !seq_has(rt.queue_seq(), t),
{
    if seq_has(rt.queue_seq(), t) {
        let k = choose|k: int| 0 <= k < rt.queue_seq().len() && rt.queue_seq()[k] == t;
        assert(rt.queue_wf(k));
    }
}

} // verus!
