//! Mathematical model of the scope-bound task supervisor.
//!
//! The state of the supervisor is a [`Model`]: a sequence of task records, a
//! sequence of scope nodes forming an ownership forest, and a stack of
//! cooperative execution domains whose top entry is the active driver. Every
//! operation of the executable supervisor is specified as a total transition
//! function on [`Model`]; [`apply`] gathers them under the [`Op`] labels so
//! that global properties can be proved once for every reachable transition.

use vstd::prelude::*;

verus! {

/// Lifecycle state of a spawned task. A task starts `Pending` and ends in
/// exactly one of the two terminal states: `Completed` when it ran to its
/// natural end, `Aborted` when its abort handle was invoked first (directly
/// or by its scope's teardown). No transition leaves a terminal state.
#[derive(Clone, Copy, Debug, PartialEq, Eq, Structural)]
pub enum TaskState {
    Pending,
    Completed,
    Aborted,
}

/// What one resumption attempt by an execution context did to a task.
#[derive(Clone, Copy, Debug, PartialEq, Eq, Structural)]
pub enum StepOutcome {
    /// The task belongs to a domain that is not the active driver; nothing ran.
    WrongDomain,
    /// The task was registered but never submitted to a context; nothing ran.
    NotSubmitted,
    /// The task is already completed or aborted; the scheduled resumption is
    /// a no-op. In particular an abort raised by scope teardown makes every
    /// later resumption of that task land here.
    AlreadyTerminal,
    /// One atomic step ran and the task reached a suspension point.
    Suspended,
    /// The last atomic step ran and the task is now completed.
    Finished,
}

/// Record of one spawned task.
#[verifier::ext_equal]
pub ghost struct TaskModel {
    /// Scope the task was spawned against. Registering the task's abort
    /// handle with this scope's cleanup list is part of spawning, so the
    /// teardown of the scope (or of an ancestor) aborts the task.
    pub scope: int,
    /// Cooperative domain that was the active driver when the task was
    /// spawned; the task never runs a step under any other domain.
    pub domain: int,
    pub state: TaskState,
    /// Whether the task has been handed to an execution context. Spawning
    /// registers the cleanup first and leaves this `false`; submission is a
    /// separate, strictly later transition.
    pub submitted: bool,
    /// Number of atomic steps the task has executed. The task's committed
    /// side effects are exactly the effects of these steps; an abort never
    /// rolls them back but prevents any further one.
    pub steps_done: int,
    /// Number of atomic steps in the task's body; the last one completes it.
    pub total_steps: int,
}

/// One node of the reactive ownership forest.
#[verifier::ext_equal]
pub ghost struct ScopeModel {
    /// Parent scope, absent for a root. A parent is always created before
    /// its children, so a parent index is smaller than the child's.
    pub parent: Option<int>,
    /// Scopes start alive; teardown kills a scope together with all of its
    /// descendants, and a dead scope never comes back.
    pub alive: bool,
}

/// Complete mathematical state of the supervisor.
#[verifier::ext_equal]
pub ghost struct Model {
    pub tasks: Seq<TaskModel>,
    pub scopes: Seq<ScopeModel>,
    /// Stack of cooperative domains; the last entry is the active driver.
    /// Index 0 is the host's default domain, which is never exited.
    pub domains: Seq<int>,
    /// Next fresh domain identifier. Identifiers are never reused, so a
    /// domain that has been exited can never become active again.
    pub next_domain: int,
}

/// The initial state: no tasks, no scopes, only the host's default domain.
pub open spec fn init() -> Model {
    Model {
        tasks: Seq::empty(),
        scopes: Seq::empty(),
        domains: seq![0int],
        next_domain: 1,
    }
}

pub open spec fn valid_task(m: Model, t: int) -> bool {
    0 <= t < m.tasks.len()
}

pub open spec fn valid_scope(m: Model, s: int) -> bool {
    0 <= s < m.scopes.len()
}

/// A task in a terminal state can never change state again.
pub open spec fn terminal(t: TaskModel) -> bool {
    t.state == TaskState::Completed || t.state == TaskState::Aborted
}

/// The domain currently driving execution: the top of the domain stack.
pub open spec fn active_domain(m: Model) -> int {
    m.domains.last()
}

/// `c` is the scope `s` itself or one of its descendants, following parent
/// links. Parents have smaller indices than their children, which bounds the
/// walk.
pub open spec fn in_subtree(m: Model, c: int, s: int) -> bool
    decreases c,
{
    if !valid_scope(m, c) {
        false
    } else if c == s {
        true
    } else {
        match m.scopes[c].parent {
            Some(p) => 0 <= p < c && in_subtree(m, p, s),
            None => false,
        }
    }
}

/// Every task of domain `d` has reached a terminal state.
pub open spec fn domain_drained(m: Model, d: int) -> bool {
    forall|i: int|
        0 <= i < m.tasks.len() && m.tasks[i].domain == d ==> terminal(#[trigger] m.tasks[i])
}

/// Per-task part of the supervisor invariant.
pub open spec fn task_inv(m: Model, t: TaskModel) -> bool {
    &&& valid_scope(m, t.scope)
    &&& 0 <= t.domain < m.next_domain
    &&& 1 <= t.total_steps
    &&& 0 <= t.steps_done <= t.total_steps
    &&& t.state == TaskState::Pending ==> t.steps_done < t.total_steps
    &&& t.state == TaskState::Completed ==> t.steps_done == t.total_steps
    &&& t.steps_done > 0 ==> t.submitted
    &&& !m.scopes[t.scope].alive ==> terminal(t)
    &&& !m.domains.contains(t.domain) ==> terminal(t)
}

/// A parent is created before its children, so parent indices are smaller.
pub open spec fn parent_ordered(m: Model, s: int) -> bool {
    match m.scopes[s].parent {
        Some(p) => 0 <= p < s,
        None => true,
    }
}

/// Per-scope part of the supervisor invariant: parents come before their
/// children, and a scope can only be alive while its parent is.
pub open spec fn scope_inv(m: Model, s: int) -> bool {
    &&& parent_ordered(m, s)
    &&& match m.scopes[s].parent {
        Some(p) => m.scopes[s].alive ==> m.scopes[p].alive,
        None => true,
    }
}

/// Subtree membership only depends on the shape of the scope forest, not on
/// task state, liveness flags, or domains.
pub proof fn lemma_in_subtree_same_parents(m1: Model, m2: Model, c: int, s: int)
    requires
        m1.scopes.len() == m2.scopes.len(),
        forall|i: int|
            0 <= i < m1.scopes.len() ==> #[trigger] m1.scopes[i].parent == m2.scopes[i].parent,
    ensures
        in_subtree(m1, c, s) == in_subtree(m2, c, s),
    decreases c,
{
    if valid_scope(m1, c) && c != s {
        match m1.scopes[c].parent {
            Some(p) => {
                if 0 <= p < c {
                    lemma_in_subtree_same_parents(m1, m2, p, s);
                }
            },
            None => {},
        }
    }
}

/// Supervisor invariant, preserved by every enabled transition.
pub open spec fn inv(m: Model) -> bool {
    &&& m.domains.len() >= 1
    &&& m.domains[0] == 0
    &&& 1 <= m.next_domain
    &&& forall|i: int| 0 <= i < m.domains.len() ==> 0 <= #[trigger] m.domains[i] < m.next_domain
    &&& forall|i: int, j: int|
        0 <= i < j < m.domains.len() ==> #[trigger] m.domains[i] < #[trigger] m.domains[j]
    &&& forall|t: int| 0 <= t < m.tasks.len() ==> task_inv(m, #[trigger] m.tasks[t])
    &&& forall|s: int| 0 <= s < m.scopes.len() ==> #[trigger] scope_inv(m, s)
}

/// Creating a scope appends a live node under the given parent.
pub open spec fn spec_create_scope(m: Model, parent: Option<int>) -> Model {
    Model { scopes: m.scopes.push(ScopeModel { parent, alive: true }), ..m }
}

/// Spawning registers a new pending task against `scope`: the abort handle
/// is in the scope's cleanup list from this moment on, while the task is not
/// yet submitted to any execution context. The task is pinned to the domain
/// that is active at spawn time.
pub open spec fn spec_spawn(m: Model, scope: int, total_steps: int) -> Model {
    Model {
        tasks: m.tasks.push(
            TaskModel {
                scope,
                domain: active_domain(m),
                state: TaskState::Pending,
                submitted: false,
                steps_done: 0,
                total_steps,
            },
        ),
        ..m
    }
}

/// Submission hands an already-registered task to its execution context.
pub open spec fn spec_submit(m: Model, t: int) -> Model {
    if valid_task(m, t) {
        Model { tasks: m.tasks.update(t, TaskModel { submitted: true, ..m.tasks[t] }), ..m }
    } else {
        m
    }
}

/// Effect of invoking a task's abort handle on its record: a pending task is
/// aborted; a task that already completed or aborted is left unchanged, so
/// invoking the handle again, or after completion, is a no-op.
pub open spec fn abort_task(t: TaskModel) -> TaskModel {
    if t.state == TaskState::Pending {
        TaskModel { state: TaskState::Aborted, ..t }
    } else {
        t
    }
}

/// Invoking the abort handle of task `t`.
pub open spec fn spec_abort(m: Model, t: int) -> Model {
    if valid_task(m, t) {
        Model { tasks: m.tasks.update(t, abort_task(m.tasks[t])), ..m }
    } else {
        m
    }
}

/// What a resumption attempt of task `t` would do in state `m`. The abort
/// flag is checked before every resumption, not only at submission, so a
/// terminal task is never stepped.
pub open spec fn spec_step_outcome(m: Model, t: int) -> StepOutcome {
    let task = m.tasks[t];
    if task.domain != active_domain(m) {
        StepOutcome::WrongDomain
    } else if !task.submitted {
        StepOutcome::NotSubmitted
    } else if task.state != TaskState::Pending {
        StepOutcome::AlreadyTerminal
    } else if task.steps_done + 1 == task.total_steps {
        StepOutcome::Finished
    } else {
        StepOutcome::Suspended
    }
}

/// One resumption attempt of task `t`: only a pending, submitted task of the
/// active domain runs one atomic step; the last step completes the task.
pub open spec fn spec_step(m: Model, t: int) -> Model {
    if !valid_task(m, t) {
        m
    } else if spec_step_outcome(m, t) == StepOutcome::Finished {
        Model {
            tasks: m.tasks.update(
                t,
                TaskModel {
                    state: TaskState::Completed,
                    steps_done: m.tasks[t].steps_done + 1,
                    ..m.tasks[t]
                },
            ),
            ..m
        }
    } else if spec_step_outcome(m, t) == StepOutcome::Suspended {
        Model {
            tasks: m.tasks.update(
                t,
                TaskModel { steps_done: m.tasks[t].steps_done + 1, ..m.tasks[t] },
            ),
            ..m
        }
    } else {
        m
    }
}

/// Tearing down scope `s`: the cleanup lists of `s` and of all of its
/// descendants run, descendants first, so every pending task registered
/// anywhere in the subtree is aborted, and the whole subtree is dead.
pub open spec fn spec_teardown(m: Model, s: int) -> Model {
    Model {
        tasks: Seq::new(
            m.tasks.len(),
            |i: int|
                if in_subtree(m, m.tasks[i].scope, s) {
                    abort_task(m.tasks[i])
                } else {
                    m.tasks[i]
                },
        ),
        scopes: Seq::new(
            m.scopes.len(),
            |i: int|
                if in_subtree(m, i, s) {
                    ScopeModel { alive: false, ..m.scopes[i] }
                } else {
                    m.scopes[i]
                },
        ),
        ..m
    }
}

/// Entering an execution context pushes a fresh domain, which becomes the
/// active driver; fresh identifiers guarantee a domain is never re-entered.
pub open spec fn spec_enter(m: Model) -> Model {
    Model { domains: m.domains.push(m.next_domain), next_domain: m.next_domain + 1, ..m }
}

/// Leaving an execution context is a barrier: the active domain is popped
/// only when every task pinned to it has reached a terminal state; otherwise
/// nothing changes and the driver must keep running tasks. The host's
/// default domain is never popped.
pub open spec fn spec_exit(m: Model) -> Model {
    if m.domains.len() >= 2 && domain_drained(m, active_domain(m)) {
        Model { domains: m.domains.drop_last(), ..m }
    } else {
        m
    }
}

/// Labels for the supervisor's transitions.
pub ghost enum Op {
    CreateScope { parent: Option<int> },
    Spawn { scope: int, total_steps: int },
    Submit { task: int },
    Abort { task: int },
    Step { task: int },
    Teardown { scope: int },
    EnterContext,
    ExitContext,
}

/// When an operation may be issued against state `m`; the executable
/// supervisor requires exactly this of its callers.
pub open spec fn op_enabled(m: Model, op: Op) -> bool {
    match op {
        Op::CreateScope { parent } => match parent {
            Some(p) => valid_scope(m, p) && m.scopes[p].alive,
            None => true,
        },
        Op::Spawn { scope, total_steps } => valid_scope(m, scope) && m.scopes[scope].alive
            && 1 <= total_steps && m.domains.len() >= 1,
        Op::Submit { task } => valid_task(m, task),
        Op::Abort { task } => valid_task(m, task),
        Op::Step { task } => valid_task(m, task) && m.domains.len() >= 1,
        Op::Teardown { scope } => valid_scope(m, scope),
        Op::EnterContext => true,
        Op::ExitContext => m.domains.len() >= 2,
    }
}

/// A whole run of the supervisor: the operations applied in order.
pub open spec fn apply_all(m: Model, ops: Seq<Op>) -> Model
    decreases ops.len(),
{
    if ops.len() == 0 {
        m
    } else {
        apply_all(apply(m, ops[0]), ops.skip(1))
    }
}

/// Every operation of the run is enabled in the state it is applied to.
pub open spec fn all_enabled(m: Model, ops: Seq<Op>) -> bool
    decreases ops.len(),
{
    ops.len() == 0 || (op_enabled(m, ops[0]) && all_enabled(apply(m, ops[0]), ops.skip(1)))
}

/// The transition relation of the supervisor, one case per operation.
pub open spec fn apply(m: Model, op: Op) -> Model {
    match op {
        Op::CreateScope { parent } => spec_create_scope(m, parent),
        Op::Spawn { scope, total_steps } => spec_spawn(m, scope, total_steps),
        Op::Submit { task } => spec_submit(m, task),
        Op::Abort { task } => spec_abort(m, task),
        Op::Step { task } => spec_step(m, task),
        Op::Teardown { scope } => spec_teardown(m, scope),
        Op::EnterContext => spec_enter(m),
        Op::ExitContext => spec_exit(m),
    }
}

} // verus!
