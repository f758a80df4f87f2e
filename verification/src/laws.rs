use crate::gate::Gate;
use crate::pool::{lemma_counts_nonnegative, lemma_states_partition, TaskPool};
use vstd::prelude::*;

verus! {

/// The coupling between a gate and two sibling pools that admit through it:
/// every running task holds exactly one handed-out permit, so
/// the pools' running tasks together account for that gate's in-flight count.
///
/// It holds of a fresh pool and its fresh gate (both counts and the in-flight
/// count are zero, and a fresh sibling adds zero), and every pool operation
/// preserves it: `spawn` moves one permit from that gate into the admitted
/// task, while `task_completed`, `task_panicked` and `abort_all` move permits
/// back as they settle tasks — each operation's contract states both sides of
/// the move.
pub open spec fn siblings_share_gate<T, U>(a: TaskPool<T>, b: TaskPool<U>, g: Gate) -> bool {
    &&& g.wf()
    &&& a.running_count() + b.running_count() == g.in_flight()
}

/// At no time do the tasks concurrently running across a gate and its sibling
/// pools exceed that gate's fixed capacity.
pub proof fn lemma_capacity_never_exceeded<T, U>(a: TaskPool<T>, b: TaskPool<U>, g: Gate)
    requires
        siblings_share_gate(a, b, g),
    ensures
        0 <= a.running_count() + b.running_count() <= g.capacity(),
{
    lemma_counts_nonnegative(a@);
    lemma_counts_nonnegative(b@);
}

/// With capacity one, while either sibling has a running task their gate has
/// nothing left to give: the other sibling holds no task of its own, and any
/// admission attempt must wait — `spawn` answers `None` exactly when the
/// available count is zero — until the running task completes.
pub proof fn lemma_sibling_admission_blocked<T, U>(a: TaskPool<T>, b: TaskPool<U>, g: Gate)
    requires
        siblings_share_gate(a, b, g),
        g.capacity() == 1,
        a.running_count() >= 1,
    ensures
        g.available() == 0,
        b.running_count() == 0,
{
    lemma_counts_nonnegative(a@);
    lemma_counts_nonnegative(b@);
}

/// Every task a pool ever admitted is accounted for exactly once: it is
/// still running, or it is finished — successfully, by panic, or aborted —
/// and awaiting retrieval, or its outcome has been handed out by `join_next`.
/// None is ever dropped from the record, and none is counted twice.
pub proof fn lemma_completion_coverage<T>(p: TaskPool<T>)
    ensures
        p.running_count() + p.done_count() + p.retrieved_count() == p.admitted_count(),
{
    lemma_states_partition(p@);
}

/// The running tasks of many sibling pools, given as one count per pool.
pub open spec fn sum_running(counts: Seq<int>) -> int
    decreases counts.len(),
{
    if counts.len() == 0 {
        0
    } else {
        sum_running(counts.drop_last()) + counts.last()
    }
}

proof fn lemma_sum_running_nonnegative(counts: Seq<int>)
    requires
        forall|j: int| 0 <= j < counts.len() ==> counts[j] >= 0,
    ensures
        sum_running(counts) >= 0,
    decreases counts.len(),
{
    if counts.len() > 0 {
        lemma_sum_running_nonnegative(counts.drop_last());
    }
}

proof fn lemma_sum_running_bounds_each(counts: Seq<int>, i: int)
    requires
        0 <= i < counts.len(),
        forall|j: int| 0 <= j < counts.len() ==> counts[j] >= 0,
    ensures
        counts[i] <= sum_running(counts),
    decreases counts.len(),
{
    if i == counts.len() - 1 {
        lemma_sum_running_nonnegative(counts.drop_last());
    } else {
        lemma_sum_running_bounds_each(counts.drop_last(), i);
    }
}

/// The capacity bound for any number of sibling pools, given as one running
/// count per pool: whenever their running tasks together account for their
/// gate's in-flight permits, neither the total nor any single pool's share
/// ever exceeds that gate's fixed capacity.
pub proof fn lemma_capacity_never_exceeded_many(g: Gate, counts: Seq<int>)
    requires
        g.wf(),
        forall|j: int| 0 <= j < counts.len() ==> counts[j] >= 0,
        sum_running(counts) == g.in_flight(),
    ensures
        sum_running(counts) <= g.capacity(),
        forall|i: int| 0 <= i < counts.len() ==> counts[i] <= g.capacity(),
{
    assert forall|i: int| 0 <= i < counts.len() implies counts[i] <= g.capacity() by {
        lemma_sum_running_bounds_each(counts, i);
    }
}

} // verus!
