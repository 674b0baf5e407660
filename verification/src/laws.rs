//! Global properties of the supervisor, proved over the transition relation.
//!
//! Every executable operation of [`crate::supervisor::Supervisor`] ensures
//! that its effect equals [`apply`] of the corresponding [`Op`], so the
//! lemmas here hold of everything the executable supervisor can ever do.

use vstd::prelude::*;

use crate::model::{
    abort_task, active_domain, all_enabled, apply, apply_all, domain_drained, in_subtree, init,
    inv, op_enabled, scope_inv, spec_abort, spec_create_scope, spec_exit, spec_spawn, spec_step,
    spec_step_outcome, spec_teardown, task_inv, terminal, valid_scope, valid_task, Model, Op,
    StepOutcome, TaskState,
};

verus! {

/// The initial state satisfies the supervisor invariant.
pub proof fn lemma_init_inv()
    ensures
        inv(init()),
{
}

proof fn lemma_create_scope_inv(m: Model, parent: Option<int>)
    requires
        inv(m),
        op_enabled(m, Op::CreateScope { parent }),
    ensures
        inv(spec_create_scope(m, parent)),
{
    let m2 = spec_create_scope(m, parent);
    assert forall|t: int| 0 <= t < m2.tasks.len() implies task_inv(m2, #[trigger] m2.tasks[t]) by {
        assert(task_inv(m, m.tasks[t]));
        assert(m2.scopes[m.tasks[t].scope] == m.scopes[m.tasks[t].scope]);
    }
    assert forall|s: int| 0 <= s < m2.scopes.len() implies #[trigger] scope_inv(m2, s) by {
        if s < m.scopes.len() {
            assert(scope_inv(m, s));
            match m.scopes[s].parent {
                Some(p) => {
                    assert(m2.scopes[p] == m.scopes[p]);
                },
                None => {},
            }
        }
    }
}

/// A transition that leaves the scope forest untouched preserves the
/// per-scope invariant.
proof fn lemma_scope_inv_same_scopes(m: Model, m2: Model)
    requires
        inv(m),
        m2.scopes == m.scopes,
    ensures
        forall|s: int| 0 <= s < m2.scopes.len() ==> #[trigger] scope_inv(m2, s),
{
    assert forall|s: int| 0 <= s < m2.scopes.len() implies #[trigger] scope_inv(m2, s) by {
        assert(scope_inv(m, s));
    }
}

/// The supervisor invariant is preserved by every enabled transition, so it
/// holds in every state the executable supervisor can reach.
pub proof fn lemma_inv_preserved(m: Model, op: Op)
    requires
        inv(m),
        op_enabled(m, op),
    ensures
        inv(apply(m, op)),
{
    let m2 = apply(m, op);
    match op {
        Op::CreateScope { parent } => {
            lemma_create_scope_inv(m, parent);
        },
        Op::Spawn { scope, total_steps } => {
            lemma_scope_inv_same_scopes(m, m2);
            let last: int = m.domains.len() - 1;
            assert(m.domains.contains(m.domains[last]));
            assert forall|t: int| 0 <= t < m2.tasks.len() implies task_inv(
                m2,
                #[trigger] m2.tasks[t],
            ) by {
                if t < m.tasks.len() {
                    assert(task_inv(m, m.tasks[t]));
                }
            }
        },
        Op::Submit { task } => {
            lemma_scope_inv_same_scopes(m, m2);
            assert forall|t: int| 0 <= t < m2.tasks.len() implies task_inv(
                m2,
                #[trigger] m2.tasks[t],
            ) by {
                assert(task_inv(m, m.tasks[t]));
            }
        },
        Op::Abort { task } => {
            lemma_scope_inv_same_scopes(m, m2);
            assert forall|t: int| 0 <= t < m2.tasks.len() implies task_inv(
                m2,
                #[trigger] m2.tasks[t],
            ) by {
                assert(task_inv(m, m.tasks[t]));
            }
        },
        Op::Step { task } => {
            lemma_scope_inv_same_scopes(m, m2);
            let last: int = m.domains.len() - 1;
            assert(m.domains.contains(m.domains[last]));
            assert forall|t: int| 0 <= t < m2.tasks.len() implies task_inv(
                m2,
                #[trigger] m2.tasks[t],
            ) by {
                assert(task_inv(m, m.tasks[t]));
            }
        },
        Op::Teardown { scope } => {
            lemma_teardown_inv(m, scope);
        },
        Op::EnterContext => {
            lemma_scope_inv_same_scopes(m, m2);
            assert forall|t: int| 0 <= t < m2.tasks.len() implies task_inv(
                m2,
                #[trigger] m2.tasks[t],
            ) by {
                assert(task_inv(m, m.tasks[t]));
                if m.domains.contains(m.tasks[t].domain) {
                    let w = choose|w: int|
                        0 <= w < m.domains.len() && m.domains[w] == m.tasks[t].domain;
                    assert(m2.domains[w] == m.tasks[t].domain);
                    assert(m2.domains.contains(m.tasks[t].domain));
                }
            }
        },
        Op::ExitContext => {
            lemma_scope_inv_same_scopes(m, m2);
            if m.domains.len() >= 2 && domain_drained(m, active_domain(m)) {
                let d = active_domain(m);
                assert forall|t: int| 0 <= t < m2.tasks.len() implies task_inv(
                    m2,
                    #[trigger] m2.tasks[t],
                ) by {
                    assert(task_inv(m, m.tasks[t]));
                    let td = m.tasks[t].domain;
                    if !m2.domains.contains(td) {
                        if td == d {
                            assert(terminal(m.tasks[t]));
                        } else if m.domains.contains(td) {
                            let w = choose|w: int|
                                0 <= w < m.domains.len() && m.domains[w] == td;
                            assert(w < m.domains.len() - 1);
                            assert(m2.domains[w] == td);
                            assert(m2.domains.contains(td));
                        }
                    }
                }
            }
        },
    }
}

proof fn lemma_teardown_inv(m: Model, scope: int)
    requires
        inv(m),
        op_enabled(m, Op::Teardown { scope }),
    ensures
        inv(spec_teardown(m, scope)),
{
    let m2 = spec_teardown(m, scope);
    assert forall|t: int| 0 <= t < m2.tasks.len() implies task_inv(m2, #[trigger] m2.tasks[t]) by {
        assert(task_inv(m, m.tasks[t]));
        let sc = m.tasks[t].scope;
        if in_subtree(m, sc, scope) {
            assert(m2.tasks[t] == abort_task(m.tasks[t]));
            assert(m2.tasks[t].scope == sc);
        } else {
            assert(m2.tasks[t] == m.tasks[t]);
            assert(m2.scopes[sc] == m.scopes[sc]);
        }
    }
    assert forall|s: int| 0 <= s < m2.scopes.len() implies #[trigger] scope_inv(m2, s) by {
        assert(scope_inv(m, s));
        match m.scopes[s].parent {
            Some(p) => {
                assert(m2.scopes[s].parent == m.scopes[s].parent);
                if m2.scopes[s].alive {
                    assert(!in_subtree(m, s, scope) && m.scopes[s].alive);
                    assert(m.scopes[p].alive);
                    if in_subtree(m, p, scope) {
                        assert(in_subtree(m, s, scope));
                    }
                    assert(m2.scopes[p].alive);
                }
            },
            None => {},
        }
    }
}

/// A task in a terminal state is left exactly where it is by every
/// transition: its state and its committed work never change again. In
/// particular an aborted task is never later completed, and a completed task
/// is never un-completed.
pub proof fn lemma_terminal_is_stable(m: Model, op: Op, t: int)
    requires
        valid_task(m, t),
        terminal(m.tasks[t]),
    ensures
        valid_task(apply(m, op), t),
        apply(m, op).tasks[t].state == m.tasks[t].state,
        apply(m, op).tasks[t].steps_done == m.tasks[t].steps_done,
{
}

/// Abort on teardown: tearing down scope `s` aborts every task that was
/// spawned against `s` or against any of its descendants and has not already
/// completed. Together with [`lemma_terminal_is_stable`] the task can never
/// reach `Completed` afterwards.
pub proof fn lemma_teardown_aborts(m: Model, s: int, t: int)
    requires
        valid_task(m, t),
        in_subtree(m, m.tasks[t].scope, s),
        m.tasks[t].state != TaskState::Completed,
    ensures
        spec_teardown(m, s).tasks[t].state == TaskState::Aborted,
{
}

/// After a teardown the whole subtree of the torn-down scope is dead.
pub proof fn lemma_teardown_kills_subtree(m: Model, s: int, c: int)
    requires
        valid_scope(m, c),
        in_subtree(m, c, s),
    ensures
        !spec_teardown(m, s).scopes[c].alive,
{
}

/// Idempotent abort: invoking a task's abort handle a second time changes
/// nothing at all — the state after two invocations equals the state after
/// one.
pub proof fn lemma_abort_idempotent(m: Model, t: int)
    ensures
        spec_abort(spec_abort(m, t), t) == spec_abort(m, t),
{
    let m1 = spec_abort(m, t);
    if valid_task(m, t) {
        assert(abort_task(m1.tasks[t]) == m1.tasks[t]);
        assert(m1.tasks.update(t, m1.tasks[t]) =~= m1.tasks);
        assert(spec_abort(m1, t) =~= m1);
    }
}

/// Aborting a task that has already completed is a safe no-op: the whole
/// supervisor state is unchanged.
pub proof fn lemma_abort_after_completion(m: Model, t: int)
    requires
        valid_task(m, t),
        m.tasks[t].state == TaskState::Completed,
    ensures
        spec_abort(m, t) == m,
{
    assert(m.tasks.update(t, m.tasks[t]) =~= m.tasks);
    assert(spec_abort(m, t) =~= m);
}

/// No cross-domain execution: a resumption attempt of a task whose domain is
/// not the active driver does nothing — the task was pinned at spawn time to
/// the domain that was active then, and only that domain ever runs it.
pub proof fn lemma_no_cross_domain_step(m: Model, t: int)
    requires
        valid_task(m, t),
        m.tasks[t].domain != active_domain(m),
    ensures
        spec_step_outcome(m, t) == StepOutcome::WrongDomain,
        spec_step(m, t) == m,
{
}

/// One half of the exit barrier: leaving an execution context changes
/// nothing while some task of the active domain is still pending — the
/// driver cannot return yet.
pub proof fn lemma_exit_is_barrier(m: Model)
    requires
        !domain_drained(m, active_domain(m)),
    ensures
        spec_exit(m) == m,
{
}

/// The other half of the exit barrier: once a domain is no longer on the
/// stack — the only way out is an exit that required it to be drained —
/// every task pinned to it is terminal, and by
/// [`lemma_terminal_is_stable`] stays so. Hence a context that has returned
/// left no live task behind.
pub proof fn lemma_retired_domain_drained(m: Model, d: int)
    requires
        inv(m),
        !m.domains.contains(d),
    ensures
        domain_drained(m, d),
{
    assert forall|i: int|
        0 <= i < m.tasks.len() && m.tasks[i].domain == d implies terminal(
        #[trigger] m.tasks[i],
    ) by {
        assert(task_inv(m, m.tasks[i]));
    }
}

/// Registration precedes submission: spawning registers the task's abort
/// handle with its scope while the task is not yet submitted to any
/// execution context and has run no step, so there is no window in which a
/// runnable task lacks a live abort path.
pub proof fn lemma_spawn_registers_before_submission(m: Model, scope: int, total_steps: int)
    ensures
        spec_spawn(m, scope, total_steps).tasks.len() == m.tasks.len() + 1,
        spec_spawn(m, scope, total_steps).tasks.last().scope == scope,
        spec_spawn(m, scope, total_steps).tasks.last().state == TaskState::Pending,
        !spec_spawn(m, scope, total_steps).tasks.last().submitted,
        spec_spawn(m, scope, total_steps).tasks.last().steps_done == 0,
{
}

/// A task can only have run steps after being submitted; combined with
/// [`lemma_spawn_registers_before_submission`], its cleanup registration was
/// in place before its first execution step.
pub proof fn lemma_work_requires_submission(m: Model, t: int)
    requires
        inv(m),
        valid_task(m, t),
        m.tasks[t].steps_done > 0,
    ensures
        m.tasks[t].submitted,
{
    assert(task_inv(m, m.tasks[t]));
}

/// Registration beats the first scheduling tick: if a task's scope is torn
/// down before the task has run any step, the very next resumption attempt
/// finds it aborted and runs nothing — the task never produces any side
/// effect.
pub proof fn lemma_teardown_blocks_first_step(m: Model, s: int, t: int)
    requires
        valid_task(m, t),
        in_subtree(m, m.tasks[t].scope, s),
        m.tasks[t].state == TaskState::Pending,
    ensures
        spec_teardown(m, s).tasks[t].state == TaskState::Aborted,
        spec_step(spec_teardown(m, s), t) == spec_teardown(m, s),
        spec_step(spec_teardown(m, s), t).tasks[t].steps_done == m.tasks[t].steps_done,
{
    let m1 = spec_teardown(m, s);
    assert(m1.tasks[t].state == TaskState::Aborted);
    assert(spec_step_outcome(m1, t) != StepOutcome::Finished);
    assert(spec_step_outcome(m1, t) != StepOutcome::Suspended);
}

/// The supervisor invariant holds in every state of every enabled run.
pub proof fn lemma_inv_preserved_all(m: Model, ops: Seq<Op>)
    requires
        inv(m),
        all_enabled(m, ops),
    ensures
        inv(apply_all(m, ops)),
    decreases ops.len(),
{
    if ops.len() > 0 {
        lemma_inv_preserved(m, ops[0]);
        lemma_inv_preserved_all(apply(m, ops[0]), ops.skip(1));
    }
}

/// [`lemma_terminal_is_stable`], extended to whole runs: whatever the
/// supervisor does afterwards, a terminal task keeps its state and its
/// committed work forever.
pub proof fn lemma_terminal_is_stable_forever(m: Model, ops: Seq<Op>, t: int)
    requires
        valid_task(m, t),
        terminal(m.tasks[t]),
    ensures
        valid_task(apply_all(m, ops), t),
        apply_all(m, ops).tasks[t].state == m.tasks[t].state,
        apply_all(m, ops).tasks[t].steps_done == m.tasks[t].steps_done,
    decreases ops.len(),
{
    if ops.len() > 0 {
        lemma_terminal_is_stable(m, ops[0], t);
        lemma_terminal_is_stable_forever(apply(m, ops[0]), ops.skip(1), t);
    }
}

/// Abort on teardown, in full: a task spawned against the torn-down scope
/// (or a descendant) that has not completed is aborted by the teardown and is
/// still aborted — never completed — after any further run of the
/// supervisor.
pub proof fn lemma_abort_on_teardown(m: Model, s: int, t: int, ops: Seq<Op>)
    requires
        valid_task(m, t),
        in_subtree(m, m.tasks[t].scope, s),
        m.tasks[t].state != TaskState::Completed,
    ensures
        spec_teardown(m, s).tasks[t].state == TaskState::Aborted,
        apply_all(spec_teardown(m, s), ops).tasks[t].state == TaskState::Aborted,
{
    lemma_teardown_aborts(m, s, t);
    lemma_terminal_is_stable_forever(spec_teardown(m, s), ops, t);
}

/// One operation cannot resurrect a retired domain: a domain that is off the
/// stack stays off, and domain identifiers keep growing past it.
proof fn lemma_retired_one_op(m: Model, op: Op, d: int)
    requires
        0 <= d < m.next_domain,
        !m.domains.contains(d),
    ensures
        apply(m, op).next_domain >= m.next_domain,
        d < apply(m, op).next_domain,
        !apply(m, op).domains.contains(d),
{
    let m2 = apply(m, op);
    match op {
        Op::EnterContext => {
            if m2.domains.contains(d) {
                let w = choose|w: int| 0 <= w < m2.domains.len() && m2.domains[w] == d;
                if w < m.domains.len() {
                    assert(m.domains[w] == d);
                    assert(m.domains.contains(d));
                }
            }
        },
        Op::ExitContext => {
            if m2.domains.contains(d) {
                let w = choose|w: int| 0 <= w < m2.domains.len() && m2.domains[w] == d;
                assert(m.domains[w] == d);
                assert(m.domains.contains(d));
            }
        },
        _ => {
            assert(m2.domains == m.domains);
        },
    }
}

/// The exit barrier, in full: once a context has been exited — which the
/// supervisor only allows when every task of its domain is terminal — that
/// domain never becomes a driver again, and all of its tasks stay terminal
/// through any further enabled run. Nothing spawned during the context's
/// extent outlives it.
pub proof fn lemma_retired_domain_stays_drained(m: Model, ops: Seq<Op>, d: int)
    requires
        inv(m),
        all_enabled(m, ops),
        0 <= d < m.next_domain,
        !m.domains.contains(d),
    ensures
        !apply_all(m, ops).domains.contains(d),
        domain_drained(apply_all(m, ops), d),
    decreases ops.len(),
{
    if ops.len() == 0 {
        lemma_retired_domain_drained(m, d);
    } else {
        lemma_inv_preserved(m, ops[0]);
        lemma_retired_one_op(m, ops[0], d);
        lemma_retired_domain_stays_drained(apply(m, ops[0]), ops.skip(1), d);
    }
}

/// While a task is pending its owning scope is alive: teardown never leaves
/// a live task behind in a dead scope, because aborting the subtree's tasks
/// is part of the teardown itself.
pub proof fn lemma_pending_task_has_live_scope(m: Model, t: int)
    requires
        inv(m),
        valid_task(m, t),
        m.tasks[t].state == TaskState::Pending,
    ensures
        valid_scope(m, m.tasks[t].scope),
        m.scopes[m.tasks[t].scope].alive,
{
    assert(task_inv(m, m.tasks[t]));
}

} // verus!
