use sycamore_futures::model::{StepOutcome, TaskState};
use sycamore_futures::supervisor::Supervisor;

#[test]
fn fresh_supervisor_has_only_the_default_domain() {
    let sup = Supervisor::new();
    assert_eq!(sup.task_count(), 0);
    assert_eq!(sup.scope_count(), 0);
    assert_eq!(sup.context_depth(), 1);
    assert_eq!(sup.current_domain(), 0);
}

#[test]
fn teardown_aborts_pending_task() {
    let mut sup = Supervisor::new();
    let s = sup.create_scope(None);
    let t = sup.spawn(s, 3);
    sup.submit(t);
    assert_eq!(sup.task_state(t), TaskState::Pending);
    sup.teardown(s);
    assert_eq!(sup.task_state(t), TaskState::Aborted);
    assert!(!sup.scope_alive(s));
    // an aborted task never completes: every later resumption is a no-op
    assert_eq!(sup.step(t), StepOutcome::AlreadyTerminal);
    assert_eq!(sup.task_state(t), TaskState::Aborted);
}

#[test]
fn abort_handle_is_idempotent() {
    let mut sup = Supervisor::new();
    let s = sup.create_scope(None);
    let t = sup.spawn(s, 2);
    sup.submit(t);
    sup.abort(t);
    let state_once = sup.task_state(t);
    let steps_once = sup.task_steps_done(t);
    sup.abort(t);
    assert_eq!(sup.task_state(t), state_once);
    assert_eq!(sup.task_steps_done(t), steps_once);
    assert_eq!(state_once, TaskState::Aborted);
}

#[test]
fn abort_after_completion_is_a_noop() {
    let mut sup = Supervisor::new();
    let s = sup.create_scope(None);
    let t = sup.spawn(s, 1);
    sup.submit(t);
    assert_eq!(sup.step(t), StepOutcome::Finished);
    assert_eq!(sup.task_state(t), TaskState::Completed);
    sup.abort(t);
    assert_eq!(sup.task_state(t), TaskState::Completed);
    assert_eq!(sup.task_steps_done(t), 1);
}

#[test]
fn task_never_runs_under_a_foreign_domain() {
    let mut sup = Supervisor::new();
    let s = sup.create_scope(None);
    // pinned to the default domain at spawn time
    let t = sup.spawn(s, 2);
    sup.submit(t);
    assert_eq!(sup.task_domain(t), 0);
    let inner = sup.enter_context();
    assert_eq!(sup.current_domain(), inner);
    // while the inner domain drives, the task of the default domain runs nothing
    assert_eq!(sup.step(t), StepOutcome::WrongDomain);
    assert_eq!(sup.task_steps_done(t), 0);
    assert_eq!(sup.task_state(t), TaskState::Pending);
    assert!(sup.try_exit_context());
    // back under its own domain it runs
    assert_eq!(sup.step(t), StepOutcome::Suspended);
    assert_eq!(sup.task_steps_done(t), 1);
}

#[test]
fn context_exit_is_a_barrier() {
    let mut sup = Supervisor::new();
    let s = sup.create_scope(None);
    sup.enter_context();
    let t = sup.spawn(s, 1);
    sup.submit(t);
    // the context cannot be left while its task is pending
    assert!(!sup.try_exit_context());
    assert_eq!(sup.context_depth(), 2);
    assert_eq!(sup.step(t), StepOutcome::Finished);
    assert!(sup.try_exit_context());
    assert_eq!(sup.context_depth(), 1);
}

#[test]
fn exit_also_waits_for_aborted_tasks_to_be_terminal() {
    let mut sup = Supervisor::new();
    let s = sup.create_scope(None);
    sup.enter_context();
    let t = sup.spawn(s, 5);
    sup.submit(t);
    assert!(!sup.try_exit_context());
    sup.teardown(s);
    // aborted counts as terminal, so the barrier opens
    assert_eq!(sup.task_state(t), TaskState::Aborted);
    assert!(sup.try_exit_context());
}

#[test]
fn registration_is_in_place_before_any_execution() {
    let mut sup = Supervisor::new();
    let s = sup.create_scope(None);
    let t = sup.spawn(s, 2);
    // spawned but not yet submitted: the cleanup registration exists first
    assert!(!sup.task_submitted(t));
    assert_eq!(sup.step(t), StepOutcome::NotSubmitted);
    assert_eq!(sup.task_steps_done(t), 0);
    // tear the scope down concurrently with the very first scheduling tick
    sup.teardown(s);
    sup.submit(t);
    assert_eq!(sup.step(t), StepOutcome::AlreadyTerminal);
    // the task never produced its "I ran" side effect
    assert_eq!(sup.task_steps_done(t), 0);
    assert_eq!(sup.task_state(t), TaskState::Aborted);
}

#[test]
fn counter_after_suspension_stays_zero_when_scope_dies_first() {
    let mut sup = Supervisor::new();
    let s = sup.create_scope(None);
    // body: one step up to the suspension point, then the incrementing step
    let t = sup.spawn(s, 2);
    sup.submit(t);
    assert_eq!(sup.step(t), StepOutcome::Suspended);
    // teardown before the suspension resolves
    sup.teardown(s);
    assert_eq!(sup.step(t), StepOutcome::AlreadyTerminal);
    // the final, incrementing step never ran
    assert_eq!(sup.task_steps_done(t), 1);
    assert_eq!(sup.task_state(t), TaskState::Aborted);
}

#[test]
fn synchronous_task_completes_and_survives_teardown() {
    let mut sup = Supervisor::new();
    let s = sup.create_scope(None);
    // no suspension point: the whole body is one atomic step
    let t = sup.spawn(s, 1);
    sup.submit(t);
    assert_eq!(sup.step(t), StepOutcome::Finished);
    assert_eq!(sup.task_steps_done(t), 1);
    sup.teardown(s);
    // the counter stays at 1: teardown's abort of a completed task is a no-op
    assert_eq!(sup.task_state(t), TaskState::Completed);
    assert_eq!(sup.task_steps_done(t), 1);
    sup.abort(t);
    assert_eq!(sup.task_state(t), TaskState::Completed);
}

#[test]
fn nested_contexts_drain_innermost_first() {
    let mut sup = Supervisor::new();
    let s_outer = sup.create_scope(None);
    let s_inner = sup.create_scope(None);
    sup.enter_context();
    let t_outer = sup.spawn(s_outer, 1);
    sup.submit(t_outer);
    let inner = sup.enter_context();
    let t_inner = sup.spawn(s_inner, 2);
    sup.submit(t_inner);
    assert_eq!(sup.task_domain(t_inner), inner);
    // the inner call does not return while its own task is live ...
    assert!(!sup.try_exit_context());
    assert_eq!(sup.step(t_inner), StepOutcome::Suspended);
    assert!(!sup.try_exit_context());
    assert_eq!(sup.step(t_inner), StepOutcome::Finished);
    // ... and returns once it is terminal, independent of the outer task
    assert_eq!(sup.task_state(t_outer), TaskState::Pending);
    assert!(sup.try_exit_context());
    // the outer context still waits for its own task
    assert!(!sup.try_exit_context());
    assert_eq!(sup.step(t_outer), StepOutcome::Finished);
    assert!(sup.try_exit_context());
    assert_eq!(sup.context_depth(), 1);
}

#[test]
fn parent_teardown_aborts_all_hundred_grandchild_tasks() {
    let mut sup = Supervisor::new();
    let parent = sup.create_scope(None);
    let mut tasks = Vec::new();
    for _ in 0..100 {
        let child = sup.create_scope(Some(parent));
        let t = sup.spawn(child, 2);
        sup.submit(t);
        // each task commits its pre-suspension side effect
        assert_eq!(sup.step(t), StepOutcome::Suspended);
        tasks.push((child, t));
    }
    sup.teardown(parent);
    assert!(!sup.scope_alive(parent));
    for &(child, t) in &tasks {
        assert!(!sup.scope_alive(child));
        assert_eq!(sup.task_state(t), TaskState::Aborted);
        // no partial increments beyond the pre-suspension effects
        assert_eq!(sup.task_steps_done(t), 1);
        assert_eq!(sup.step(t), StepOutcome::AlreadyTerminal);
        assert_eq!(sup.task_steps_done(t), 1);
    }
}

#[test]
fn child_teardown_leaves_parent_and_its_tasks_alone() {
    let mut sup = Supervisor::new();
    let parent = sup.create_scope(None);
    let child = sup.create_scope(Some(parent));
    let t_parent = sup.spawn(parent, 2);
    sup.submit(t_parent);
    let t_child = sup.spawn(child, 2);
    sup.submit(t_child);
    sup.teardown(child);
    assert!(!sup.scope_alive(child));
    assert!(sup.scope_alive(parent));
    assert_eq!(sup.task_state(t_child), TaskState::Aborted);
    assert_eq!(sup.task_state(t_parent), TaskState::Pending);
    assert_eq!(sup.step(t_parent), StepOutcome::Suspended);
}

#[test]
fn teardown_is_idempotent() {
    let mut sup = Supervisor::new();
    let s = sup.create_scope(None);
    let t = sup.spawn(s, 2);
    sup.submit(t);
    sup.teardown(s);
    let state = sup.task_state(t);
    sup.teardown(s);
    assert_eq!(sup.task_state(t), state);
    assert!(!sup.scope_alive(s));
}
