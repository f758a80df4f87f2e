use crate::gate::{Gate, Permit};
use vstd::prelude::*;

verus! {

/// Why an admitted task produced no result.
#[derive(Clone, Copy, Debug, PartialEq, Eq)]
pub enum TaskFailure {
    /// The task body raised an unrecoverable fault while running.
    Panic,
    /// The task was cut short because its pool was torn down before the
    /// result had been retrieved.
    Aborted,
}

/// The state of one admitted task, as a pool's view records it. Per task the
/// lifecycle is `Running` → `Done` → `Retrieved`, and each step is taken by
/// exactly one pool operation.
pub enum TaskState<T> {
    /// Admitted and holding one gate permit; the outcome is not yet known.
    Running,
    /// Finished — successfully, by panic, or aborted — with the outcome not
    /// yet handed out.
    Done(Result<T, TaskFailure>),
    /// The outcome has been handed out by `join_next`.
    Retrieved,
}

/// Storage for one admitted task. A running task's slot owns the permit that
/// admitted it, so the permit can only ever be released by the operation that
/// settles the task.
enum Slot<T> {
    Running(Permit),
    Done(Result<T, TaskFailure>),
    Retrieved,
}

impl<T> Slot<T> {
    /// The abstract state this slot records.
    spec fn state(self) -> TaskState<T> {
        match self {
            Slot::Running(_) => TaskState::Running,
            Slot::Done(outcome) => TaskState::Done(outcome),
            Slot::Retrieved => TaskState::Retrieved,
        }
    }

    fn is_running_slot(&self) -> (b: bool)
        ensures
            b <==> self.state() is Running,
    {
        matches!(self, Slot::Running(_))
    }

    fn is_done_slot(&self) -> (b: bool)
        ensures
            b <==> self.state() is Done,
    {
        matches!(self, Slot::Done(_))
    }
}

/// How many of the recorded tasks are still running.
pub open spec fn count_running<T>(s: Seq<TaskState<T>>) -> int
    decreases s.len(),
{
    if s.len() == 0 {
        0
    } else {
        count_running(s.drop_last()) + (if s.last() is Running {
            1int
        } else {
            0int
        })
    }
}

/// How many of the recorded tasks are finished but not yet retrieved.
pub open spec fn count_done<T>(s: Seq<TaskState<T>>) -> int
    decreases s.len(),
{
    if s.len() == 0 {
        0
    } else {
        count_done(s.drop_last()) + (if s.last() is Done {
            1int
        } else {
            0int
        })
    }
}

/// How many of the recorded tasks have had their outcome handed out.
pub open spec fn count_retrieved<T>(s: Seq<TaskState<T>>) -> int
    decreases s.len(),
{
    if s.len() == 0 {
        0
    } else {
        count_retrieved(s.drop_last()) + (if s.last() is Retrieved {
            1int
        } else {
            0int
        })
    }
}

/// Appending one record changes exactly the count of its own state.
pub proof fn lemma_counts_push<T>(s: Seq<TaskState<T>>, x: TaskState<T>)
    ensures
        count_running(s.push(x)) == count_running(s) + (if x is Running {
            1int
        } else {
            0int
        }),
        count_done(s.push(x)) == count_done(s) + (if x is Done {
            1int
        } else {
            0int
        }),
        count_retrieved(s.push(x)) == count_retrieved(s) + (if x is Retrieved {
            1int
        } else {
            0int
        }),
{
    assert(s.push(x).drop_last() =~= s);
}

/// Overwriting one record trades its old state's count for its new state's.
pub proof fn lemma_counts_update<T>(s: Seq<TaskState<T>>, i: int, x: TaskState<T>)
    requires
        0 <= i < s.len(),
    ensures
        count_running(s.update(i, x)) == count_running(s) - (if s[i] is Running {
            1int
        } else {
            0int
        }) + (if x is Running {
            1int
        } else {
            0int
        }),
        count_done(s.update(i, x)) == count_done(s) - (if s[i] is Done {
            1int
        } else {
            0int
        }) + (if x is Done {
            1int
        } else {
            0int
        }),
        count_retrieved(s.update(i, x)) == count_retrieved(s) - (if s[i] is Retrieved {
            1int
        } else {
            0int
        }) + (if x is Retrieved {
            1int
        } else {
            0int
        }),
    decreases s.len(),
{
    let t = s.update(i, x);
    if i == s.len() - 1 {
        assert(t.drop_last() =~= s.drop_last());
    } else {
        assert(t.drop_last() =~= s.drop_last().update(i, x));
        lemma_counts_update(s.drop_last(), i, x);
    }
}

/// No count can be negative.
pub proof fn lemma_counts_nonnegative<T>(s: Seq<TaskState<T>>)
    ensures
        0 <= count_running(s),
        0 <= count_done(s),
        0 <= count_retrieved(s),
    decreases s.len(),
{
    if s.len() > 0 {
        lemma_counts_nonnegative(s.drop_last());
    }
}

/// A record that is `Running` contributes to the running count.
pub proof fn lemma_running_at_index<T>(s: Seq<TaskState<T>>, i: int)
    requires
        0 <= i < s.len(),
        s[i] is Running,
    ensures
        count_running(s) >= 1,
    decreases s.len(),
{
    lemma_counts_nonnegative(s.drop_last());
    if i < s.len() - 1 {
        lemma_running_at_index(s.drop_last(), i);
    }
}

/// A record sequence without a single `Running` entry has running count zero.
pub proof fn lemma_no_running_count_zero<T>(s: Seq<TaskState<T>>)
    requires
        forall|i: int| 0 <= i < s.len() ==> !(s[i] is Running),
    ensures
        count_running(s) == 0,
    decreases s.len(),
{
    if s.len() > 0 {
        lemma_no_running_count_zero(s.drop_last());
    }
}

/// At any moment every admitted task is in exactly one of the three recorded
/// states, so the three counts partition the admitted tasks.
pub proof fn lemma_states_partition<T>(s: Seq<TaskState<T>>)
    ensures
        count_running(s) + count_done(s) + count_retrieved(s) == s.len(),
    decreases s.len(),
{
    if s.len() > 0 {
        lemma_states_partition(s.drop_last());
    }
}

/// What one retrieval attempt decides: a finished task's outcome, a report
/// that nothing remains, or a report that the caller must wait until some
/// running task finishes.
#[derive(Debug, PartialEq, Eq)]
pub enum JoinOutcome<T> {
    /// One finished task's outcome; that task is now marked retrieved.
    Finished(Result<T, TaskFailure>),
    /// Every admitted task's outcome has already been retrieved, and nothing
    /// is still running.
    Empty,
    /// No outcome is ready yet, but at least one task is still running.
    WouldWait,
}

/// A pool of admitted tasks of one result type. It owns a private completion
/// collector — one record per task it admitted — and admits work through a
/// [`Gate`] that sibling pools may share.
///
/// The pool is the decision half of the primitive: an executor runs the task
/// bodies and reports, through [`TaskPool::task_completed`] and
/// [`TaskPool::task_panicked`], how each one ended. Suspension is likewise
/// explicit: `spawn` answers `None` and `join_next` answers `WouldWait` where
/// the asynchronous counterpart would park the caller.
pub struct TaskPool<T> {
    slots: Vec<Slot<T>>,
}

impl<T> View for TaskPool<T> {
    type V = Seq<TaskState<T>>;

    /// One record per admitted task, in admission order.
    closed spec fn view(&self) -> Seq<TaskState<T>> {
        self.slots@.map_values(|s: Slot<T>| s.state())
    }
}

impl<T> TaskPool<T> {
    /// How many tasks this pool has ever admitted.
    pub open spec fn admitted_count(self) -> int {
        self@.len() as int
    }

    /// How many of this pool's tasks are running right now.
    pub open spec fn running_count(self) -> int {
        count_running(self@)
    }

    /// How many of this pool's tasks are finished but not yet retrieved.
    pub open spec fn done_count(self) -> int {
        count_done(self@)
    }

    /// How many outcomes this pool has handed out.
    pub open spec fn retrieved_count(self) -> int {
        count_retrieved(self@)
    }

    /// A fresh pool with its own fresh gate: an empty collector and every
    /// permit available. A zero capacity is ruled out, since such a pool
    /// could never admit a task.
    pub fn new(capacity: usize) -> (r: (TaskPool<T>, Gate))
        requires
            1 <= capacity,
        ensures
            r.0@ == Seq::<TaskState<T>>::empty(),
            r.1.wf(),
            r.1.capacity() == capacity,
            r.1.available() == capacity,
    {
        let pool = TaskPool { slots: Vec::new() };
        proof {
            assert(pool@ =~= Seq::<TaskState<T>>::empty());
        }
        (pool, Gate::new(capacity))
    }

    /// A sibling pool: its own empty collector, over any result type, with
    /// admission shared by admitting through the same gate as this pool.
    pub fn create_sibling<U>(&self) -> (r: TaskPool<U>)
        ensures
            r@ == Seq::<TaskState<U>>::empty(),
    {
        let sibling = TaskPool::<U> { slots: Vec::new() };
        proof {
            assert(sibling@ =~= Seq::<TaskState<U>>::empty());
        }
        sibling
    }

    /// The admission half of spawning a task. When the capacity gate has a permit to
    /// give, the task is admitted at once: it takes the permit, a `Running`
    /// record is appended, and its identifier — the index the executor must
    /// later report with — is returned. When no permit is available the answer is
    /// `None`, nothing changes, and the caller must wait for a completion to
    /// free capacity before retrying.
    pub fn spawn(&mut self, gate: &mut Gate) -> (r: Option<usize>)
        requires
            old(gate).wf(),
            old(self)@.len() < usize::MAX,
        ensures
            final(gate).wf(),
            final(gate).capacity() == old(gate).capacity(),
            r is Some <==> old(gate).available() >= 1,
            r matches Some(id) ==> {
                &&& id == old(self)@.len()
                &&& final(self)@ == old(self)@.push(TaskState::<T>::Running)
                &&& final(gate).available() == old(gate).available() - 1
            },
            r is None ==> {
                &&& final(self)@ == old(self)@
                &&& final(gate).available() == old(gate).available()
            },
            final(self).running_count() == old(self).running_count() + (if r is Some {
                1int
            } else {
                0int
            }),
            final(self).done_count() == old(self).done_count(),
            final(self).retrieved_count() == old(self).retrieved_count(),
    {
        match gate.try_acquire() {
            Some(permit) => {
                let id = self.slots.len();
                self.slots.push(Slot::Running(permit));
                proof {
                    assert(self@ =~= old(self)@.push(TaskState::<T>::Running));
                    lemma_counts_push(old(self)@, TaskState::<T>::Running);
                }
                Some(id)
            },
            None => None,
        }
    }

    /// The completion event: the executor reports that admitted task `id`
    /// finished with `value`. The task's permit goes back to its gate — the
    /// one release for that permit — and the outcome is recorded, waiting to
    /// be handed out by `join_next`.
    pub fn task_completed(&mut self, gate: &mut Gate, id: usize, value: T)
        requires
            old(gate).wf(),
            id < old(self)@.len(),
            old(self)@[id as int] is Running,
            old(self).running_count() <= old(gate).in_flight(),
        ensures
            final(gate).wf(),
            final(gate).capacity() == old(gate).capacity(),
            final(gate).available() == old(gate).available() + 1,
            final(self)@ == old(self)@.update(id as int, TaskState::Done(Ok(value))),
            final(self).running_count() == old(self).running_count() - 1,
            final(self).done_count() == old(self).done_count() + 1,
            final(self).retrieved_count() == old(self).retrieved_count(),
    {
        proof {
            lemma_running_at_index(old(self)@, id as int);
        }
        let slot = self.slots.remove(id);
        match slot {
            Slot::Running(permit) => {
                gate.release(permit);
                self.slots.insert(id, Slot::Done(Ok(value)));
            },
            Slot::Done(outcome) => {
                proof {
                    assert(false);
                }
                self.slots.insert(id, Slot::Done(outcome));
            },
            Slot::Retrieved => {
                proof {
                    assert(false);
                }
                self.slots.insert(id, Slot::Retrieved);
            },
        }
        proof {
            assert(self.slots@ =~= old(self).slots@.update(id as int, Slot::Done(Ok(value))));
            assert(self@ =~= old(self)@.update(id as int, TaskState::Done(Ok(value))));
            lemma_counts_update(old(self)@, id as int, TaskState::Done(Ok(value)));
        }
    }

    /// The panic event: the executor reports that admitted task `id` raised
    /// an unrecoverable fault. Exactly as for a success, the permit goes back
    /// to its gate and the failure is recorded for retrieval — a panicking
    /// task degrades into a reported `TaskFailure::Panic`, never into a lost
    /// permit.
    pub fn task_panicked(&mut self, gate: &mut Gate, id: usize)
        requires
            old(gate).wf(),
            id < old(self)@.len(),
            old(self)@[id as int] is Running,
            old(self).running_count() <= old(gate).in_flight(),
        ensures
            final(gate).wf(),
            final(gate).capacity() == old(gate).capacity(),
            final(gate).available() == old(gate).available() + 1,
            final(self)@ == old(self)@.update(id as int, TaskState::Done(Err(TaskFailure::Panic))),
            final(self).running_count() == old(self).running_count() - 1,
            final(self).done_count() == old(self).done_count() + 1,
            final(self).retrieved_count() == old(self).retrieved_count(),
    {
        proof {
            lemma_running_at_index(old(self)@, id as int);
        }
        let slot = self.slots.remove(id);
        match slot {
            Slot::Running(permit) => {
                gate.release(permit);
                self.slots.insert(id, Slot::Done(Err(TaskFailure::Panic)));
            },
            Slot::Done(outcome) => {
                proof {
                    assert(false);
                }
                self.slots.insert(id, Slot::Done(outcome));
            },
            Slot::Retrieved => {
                proof {
                    assert(false);
                }
                self.slots.insert(id, Slot::Retrieved);
            },
        }
        proof {
            assert(self.slots@ =~= old(self).slots@.update(
                id as int,
                Slot::Done(Err(TaskFailure::Panic)),
            ));
            assert(self@ =~= old(self)@.update(
                id as int,
                TaskState::Done(Err(TaskFailure::Panic)),
            ));
            lemma_counts_update(old(self)@, id as int, TaskState::Done(Err(TaskFailure::Panic)));
        }
    }

    /// The retrieval decision. If some admitted task has finished and its
    /// outcome was not yet handed out, one such outcome is returned and that
    /// task — and only that task — is marked retrieved, so each outcome is
    /// handed out exactly once. `Empty` is the answer precisely when every
    /// admitted task's outcome has been retrieved; `WouldWait` precisely when
    /// no outcome is ready but tasks are still running, which is when the
    /// asynchronous counterpart would suspend. Which of several ready
    /// outcomes is handed out first is deliberately left open: delivery
    /// follows completion, not admission order, so the contract promises one
    /// ready outcome without fixing which.
    pub fn join_next(&mut self) -> (r: JoinOutcome<T>)
        ensures
            r is Finished <==> exists|i: int|
                0 <= i < old(self)@.len() && old(self)@[i] is Done,
            r is Empty <==> forall|i: int|
                0 <= i < old(self)@.len() ==> old(self)@[i] is Retrieved,
            r is WouldWait <==> {
                &&& forall|i: int| 0 <= i < old(self)@.len() ==> !(old(self)@[i] is Done)
                &&& exists|i: int| 0 <= i < old(self)@.len() && old(self)@[i] is Running
            },
            r matches JoinOutcome::Finished(outcome) ==> exists|i: int|
                {
                    &&& 0 <= i < old(self)@.len()
                    &&& old(self)@[i] == TaskState::Done(outcome)
                    &&& final(self)@ == old(self)@.update(i, TaskState::<T>::Retrieved)
                },
            r is Finished ==> {
                &&& final(self).running_count() == old(self).running_count()
                &&& final(self).done_count() == old(self).done_count() - 1
                &&& final(self).retrieved_count() == old(self).retrieved_count() + 1
            },
            !(r is Finished) ==> final(self)@ == old(self)@,
    {
        let n = self.slots.len();
        let mut i: usize = 0;
        let mut done_at: usize = n;
        let mut saw_running: bool = false;
        while i < n
            invariant
                i <= n,
                done_at <= n,
                n == self.slots@.len(),
                self@ == old(self)@,
                done_at == n ==> forall|j: int| 0 <= j < i ==> !(self@[j] is Done),
                done_at < n ==> done_at < i && self@[done_at as int] is Done && forall|j: int|
                    0 <= j < done_at ==> !(self@[j] is Done),
                saw_running <==> exists|j: int| 0 <= j < i && self@[j] is Running,
            decreases n - i,
        {
            if self.slots[i].is_done_slot() {
                proof {
                    assert(self@[i as int] is Done);
                }
                if done_at == n {
                    done_at = i;
                }
            } else if self.slots[i].is_running_slot() {
                proof {
                    assert(self@[i as int] is Running);
                }
                saw_running = true;
            } else {
                proof {
                    assert(!(self@[i as int] is Done) && !(self@[i as int] is Running));
                }
            }
            i = i + 1;
        }
        if done_at < n {
            let slot = self.slots.remove(done_at);
            match slot {
                Slot::Done(outcome) => {
                    self.slots.insert(done_at, Slot::Retrieved);
                    proof {
                        assert(old(self)@[done_at as int] == TaskState::<T>::Done(outcome));
                        assert(!(old(self)@[done_at as int] is Retrieved));
                        assert(self.slots@ =~= old(self).slots@.update(
                            done_at as int,
                            Slot::<T>::Retrieved,
                        ));
                        assert(self@ =~= old(self)@.update(
                            done_at as int,
                            TaskState::<T>::Retrieved,
                        ));
                        lemma_counts_update(old(self)@, done_at as int, TaskState::<T>::Retrieved);
                    }
                    JoinOutcome::Finished(outcome)
                },
                Slot::Running(permit) => {
                    proof {
                        assert(false);
                    }
                    self.slots.insert(done_at, Slot::Running(permit));
                    JoinOutcome::WouldWait
                },
                Slot::Retrieved => {
                    proof {
                        assert(false);
                    }
                    self.slots.insert(done_at, Slot::Retrieved);
                    JoinOutcome::WouldWait
                },
            }
        } else if saw_running {
            proof {
                assert(forall|j: int| 0 <= j < old(self)@.len() ==> !(old(self)@[j] is Done));
            }
            JoinOutcome::WouldWait
        } else {
            proof {
                assert forall|j: int| 0 <= j < old(self)@.len() implies old(self)@[j]
                    is Retrieved by {
                    assert(!(self@[j] is Done));
                    assert(!(self@[j] is Running));
                }
            }
            JoinOutcome::Empty
        }
    }

    /// Tear-down, as destroying the pool performs it: every still-running
    /// task is aborted, its permit goes back to its gate, and the loss is
    /// recorded as `TaskFailure::Aborted` — so a later `join_next` reports
    /// each aborted task instead of silently dropping it. Finished and
    /// retrieved records are untouched, and sibling pools are unaffected
    /// beyond the freed capacity.
    pub fn abort_all(&mut self, gate: &mut Gate)
        requires
            old(gate).wf(),
            old(self).running_count() <= old(gate).in_flight(),
        ensures
            final(gate).wf(),
            final(gate).capacity() == old(gate).capacity(),
            final(gate).available() == old(gate).available() + old(self).running_count(),
            final(self)@.len() == old(self)@.len(),
            forall|i: int|
                0 <= i < old(self)@.len() ==> final(self)@[i] == (if old(self)@[i] is Running {
                    TaskState::<T>::Done(Err(TaskFailure::Aborted))
                } else {
                    old(self)@[i]
                }),
            final(self).running_count() == 0,
    {
        let n = self.slots.len();
        let mut i: usize = 0;
        while i < n
            invariant
                i <= n,
                n == self.slots@.len(),
                self@.len() == old(self)@.len(),
                gate.wf(),
                gate.capacity() == old(gate).capacity(),
                gate.available() + count_running(self@) == old(gate).available() + count_running(
                    old(self)@,
                ),
                count_running(self@) <= gate.in_flight(),
                forall|j: int|
                    0 <= j < i ==> self@[j] == (if old(self)@[j] is Running {
                        TaskState::<T>::Done(Err(TaskFailure::Aborted))
                    } else {
                        old(self)@[j]
                    }),
                forall|j: int| i <= j < n ==> self@[j] == old(self)@[j],
            decreases n - i,
        {
            if self.slots[i].is_running_slot() {
                let ghost prev = self@;
                proof {
                    lemma_running_at_index(prev, i as int);
                }
                let slot = self.slots.remove(i);
                match slot {
                    Slot::Running(permit) => {
                        gate.release(permit);
                        self.slots.insert(i, Slot::Done(Err(TaskFailure::Aborted)));
                    },
                    Slot::Done(outcome) => {
                        proof {
                            assert(false);
                        }
                        self.slots.insert(i, Slot::Done(outcome));
                    },
                    Slot::Retrieved => {
                        proof {
                            assert(false);
                        }
                        self.slots.insert(i, Slot::Retrieved);
                    },
                }
                proof {
                    assert(self@ =~= prev.update(
                        i as int,
                        TaskState::<T>::Done(Err(TaskFailure::Aborted)),
                    ));
                    lemma_counts_update(
                        prev,
                        i as int,
                        TaskState::<T>::Done(Err(TaskFailure::Aborted)),
                    );
                }
            }
            i = i + 1;
        }
        proof {
            assert(forall|j: int| 0 <= j < n ==> !(self@[j] is Running));
            lemma_no_running_count_zero(self@);
        }
    }

    /// How many tasks this pool has ever admitted.
    pub fn admitted(&self) -> (r: usize)
        ensures
            r == self.admitted_count(),
    {
        self.slots.len()
    }

    /// How many of this pool's tasks are running right now.
    pub fn running_tasks(&self) -> (r: usize)
        ensures
            r == self.running_count(),
    {
        let n = self.slots.len();
        let mut i: usize = 0;
        let mut c: usize = 0;
        while i < n
            invariant
                i <= n,
                n == self.slots@.len(),
                c <= i,
                c == count_running(self@.take(i as int)),
            decreases n - i,
        {
            proof {
                assert(self@.take(i as int + 1) =~= self@.take(i as int).push(self@[i as int]));
                lemma_counts_push(self@.take(i as int), self@[i as int]);
                lemma_counts_nonnegative(self@.take(i as int));
            }
            if self.slots[i].is_running_slot() {
                c = c + 1;
            }
            i = i + 1;
        }
        proof {
            assert(self@.take(n as int) =~= self@);
        }
        c
    }
}

} // verus!
