//! Executable supervisor state tracker, proved against [`crate::model`].
//!
//! Every mutating method's effect on the view equals one transition of the
//! transition relation [`apply`], and every method preserves the supervisor
//! invariant [`inv`], so every lemma of [`crate::laws`] applies to every
//! state a `Supervisor` can reach.

use vstd::prelude::*;

use crate::laws::lemma_inv_preserved;
use crate::model::{
    active_domain, apply, domain_drained, in_subtree, init, inv, lemma_in_subtree_same_parents,
    op_enabled, parent_ordered, spec_step_outcome, spec_teardown, task_inv, terminal, Model, Op,
    ScopeModel, StepOutcome, TaskModel, TaskState,
};

verus! {

/// Executable record of one spawned task; see [`TaskModel`].
#[derive(Clone, Copy)]
pub struct Task {
    scope: usize,
    domain: usize,
    state: TaskState,
    submitted: bool,
    steps_done: u32,
    total_steps: u32,
}

impl View for Task {
    type V = TaskModel;

    closed spec fn view(&self) -> TaskModel {
        TaskModel {
            scope: self.scope as int,
            domain: self.domain as int,
            state: self.state,
            submitted: self.submitted,
            steps_done: self.steps_done as int,
            total_steps: self.total_steps as int,
        }
    }
}

/// Executable node of the ownership forest; see [`ScopeModel`].
#[derive(Clone, Copy)]
pub struct ScopeNode {
    parent: Option<usize>,
    alive: bool,
}

impl View for ScopeNode {
    type V = ScopeModel;

    closed spec fn view(&self) -> ScopeModel {
        ScopeModel {
            parent: match self.parent {
                Some(p) => Some(p as int),
                None => None,
            },
            alive: self.alive,
        }
    }
}

/// The view of an `Option<usize>` parent handle.
pub open spec fn parent_view(p: Option<usize>) -> Option<int> {
    match p {
        Some(x) => Some(x as int),
        None => None,
    }
}

/// The scope-bound task supervisor: tracks every spawned task, the ownership
/// forest of scopes, and the stack of cooperative execution domains. A task
/// is spawned against a scope (registering its abort handle with that
/// scope's cleanup list), then submitted to the active execution domain, and
/// from there stepped by its driver until it completes — unless the scope's
/// teardown aborts it first.
pub struct Supervisor {
    tasks: Vec<Task>,
    scopes: Vec<ScopeNode>,
    domains: Vec<usize>,
    next_domain: usize,
}

impl View for Supervisor {
    type V = Model;

    closed spec fn view(&self) -> Model {
        Model {
            tasks: self.tasks@.map(|i: int, t: Task| t@),
            scopes: self.scopes@.map(|i: int, s: ScopeNode| s@),
            domains: self.domains@.map(|i: int, d: usize| d as int),
            next_domain: self.next_domain as int,
        }
    }
}

impl Supervisor {
    /// A fresh supervisor: no scopes, no tasks, only the host's default
    /// cooperative domain as the active driver.
    pub fn new() -> (s: Supervisor)
        ensures
            s@ == init(),
            inv(s@),
    {
        let s = Supervisor {
            tasks: Vec::new(),
            scopes: Vec::new(),
            domains: vec![0],
            next_domain: 1,
        };
        proof {
            assert(s@.tasks =~= init().tasks);
            assert(s@.scopes =~= init().scopes);
            assert(s@.domains =~= init().domains);
            assert(s@ =~= init());
        }
        s
    }

    /// Create a new scope in the ownership forest, as a root (`None`) or as
    /// a child of a live parent; returns its handle.
    pub fn create_scope(&mut self, parent: Option<usize>) -> (s: usize)
        requires
            inv(old(self)@),
            op_enabled(old(self)@, Op::CreateScope { parent: parent_view(parent) }),
        ensures
            final(self)@ == apply(old(self)@, Op::CreateScope { parent: parent_view(parent) }),
            inv(final(self)@),
            s == old(self)@.scopes.len(),
    {
        let ghost op = Op::CreateScope { parent: parent_view(parent) };
        let s = self.scopes.len();
        self.scopes.push(ScopeNode { parent, alive: true });
        proof {
            assert(self@.scopes =~= apply(old(self)@, op).scopes);
            assert(self@ =~= apply(old(self)@, op));
            lemma_inv_preserved(old(self)@, op);
        }
        s
    }

    /// Spawn a task against a live scope: the task's abort handle is
    /// registered with the scope's cleanup list here and now, the task is
    /// pinned to the currently active domain, and it starts pending and not
    /// yet submitted. `total_steps` is the number of atomic steps in the
    /// task's body (the stretches between its suspension points); the task
    /// completes when the last one has run. Returns the task's handle.
    pub fn spawn(&mut self, scope: usize, total_steps: u32) -> (t: usize)
        requires
            inv(old(self)@),
            op_enabled(
                old(self)@,
                Op::Spawn { scope: scope as int, total_steps: total_steps as int },
            ),
        ensures
            final(self)@ == apply(
                old(self)@,
                Op::Spawn { scope: scope as int, total_steps: total_steps as int },
            ),
            inv(final(self)@),
            t == old(self)@.tasks.len(),
    {
        let ghost op = Op::Spawn { scope: scope as int, total_steps: total_steps as int };
        let t = self.tasks.len();
        let domain = self.domains[self.domains.len() - 1];
        self.tasks.push(
            Task {
                scope,
                domain,
                state: TaskState::Pending,
                submitted: false,
                steps_done: 0,
                total_steps,
            },
        );
        proof {
            assert(domain as int == active_domain(old(self)@));
            assert(self@.tasks =~= apply(old(self)@, op).tasks);
            assert(self@ =~= apply(old(self)@, op));
            lemma_inv_preserved(old(self)@, op);
        }
        t
    }

    /// Hand an already-registered task to the execution context. Spawning
    /// strictly precedes this, so the abort registration is observably in
    /// place before the task can ever be scheduled.
    pub fn submit(&mut self, t: usize)
        requires
            inv(old(self)@),
            t < old(self)@.tasks.len(),
        ensures
            final(self)@ == apply(old(self)@, Op::Submit { task: t as int }),
            inv(final(self)@),
    {
        let ghost op = Op::Submit { task: t as int };
        let task = self.tasks[t];
        self.tasks[t] = Task { submitted: true, ..task };
        proof {
            assert(self@.tasks =~= apply(old(self)@, op).tasks);
            assert(self@ =~= apply(old(self)@, op));
            lemma_inv_preserved(old(self)@, op);
        }
    }

    /// Invoke the abort handle of task `t`: a pending task becomes aborted;
    /// a completed or already aborted task is left untouched, so the handle
    /// is idempotent and safe after completion.
    pub fn abort(&mut self, t: usize)
        requires
            inv(old(self)@),
            t < old(self)@.tasks.len(),
        ensures
            final(self)@ == apply(old(self)@, Op::Abort { task: t as int }),
            inv(final(self)@),
    {
        let ghost op = Op::Abort { task: t as int };
        let task = self.tasks[t];
        if task.state == TaskState::Pending {
            self.tasks[t] = Task { state: TaskState::Aborted, ..task };
        }
        proof {
            assert(self@.tasks =~= apply(old(self)@, op).tasks);
            assert(self@ =~= apply(old(self)@, op));
            lemma_inv_preserved(old(self)@, op);
        }
    }

    /// One resumption attempt of task `t` by the current driver. The abort
    /// flag is checked before anything runs: a terminal task's scheduled
    /// step is a no-op. A task of another domain, or one not yet submitted,
    /// runs nothing either. Otherwise one atomic step of the body runs; the
    /// last one completes the task.
    pub fn step(&mut self, t: usize) -> (r: StepOutcome)
        requires
            inv(old(self)@),
            t < old(self)@.tasks.len(),
        ensures
            final(self)@ == apply(old(self)@, Op::Step { task: t as int }),
            r == spec_step_outcome(old(self)@, t as int),
            inv(final(self)@),
    {
        let ghost op = Op::Step { task: t as int };
        let active = self.domains[self.domains.len() - 1];
        let task = self.tasks[t];
        proof {
            assert(active as int == active_domain(old(self)@));
            assert(task@ == old(self)@.tasks[t as int]);
            assert(task_inv(old(self)@, old(self)@.tasks[t as int]));
        }
        if task.domain != active {
            proof {
                assert(self@ =~= apply(old(self)@, op));
                lemma_inv_preserved(old(self)@, op);
            }
            StepOutcome::WrongDomain
        } else if !task.submitted {
            proof {
                assert(self@ =~= apply(old(self)@, op));
                lemma_inv_preserved(old(self)@, op);
            }
            StepOutcome::NotSubmitted
        } else if task.state != TaskState::Pending {
            proof {
                assert(self@ =~= apply(old(self)@, op));
                lemma_inv_preserved(old(self)@, op);
            }
            StepOutcome::AlreadyTerminal
        } else if task.steps_done + 1 == task.total_steps {
            self.tasks[t] = Task {
                state: TaskState::Completed,
                steps_done: task.steps_done + 1,
                ..task
            };
            proof {
                assert(self@.tasks =~= apply(old(self)@, op).tasks);
                assert(self@ =~= apply(old(self)@, op));
                lemma_inv_preserved(old(self)@, op);
            }
            StepOutcome::Finished
        } else {
            self.tasks[t] = Task { steps_done: task.steps_done + 1, ..task };
            proof {
                assert(self@.tasks =~= apply(old(self)@, op).tasks);
                assert(self@ =~= apply(old(self)@, op));
                lemma_inv_preserved(old(self)@, op);
            }
            StepOutcome::Suspended
        }
    }

    /// Walk the parent chain: is scope `c` inside the subtree rooted at `s`?
    fn subtree_member(&self, c: usize, s: usize) -> (r: bool)
        requires
            forall|k: int| 0 <= k < self@.scopes.len() ==> #[trigger] parent_ordered(self@, k),
            c < self@.scopes.len(),
        ensures
            r == in_subtree(self@, c as int, s as int),
    {
        let mut cur: usize = c;
        loop
            invariant
                forall|k: int| 0 <= k < self@.scopes.len() ==> #[trigger] parent_ordered(self@, k),
                cur < self@.scopes.len(),
                cur < self.scopes.len(),
                in_subtree(self@, c as int, s as int) == in_subtree(self@, cur as int, s as int),
            decreases cur,
        {
            if cur == s {
                return true;
            }
            let node = self.scopes[cur];
            proof {
                assert(node@ == self@.scopes[cur as int]);
                assert(parent_ordered(self@, cur as int));
            }
            match node.parent {
                Some(p) => {
                    cur = p;
                },
                None => {
                    return false;
                },
            }
        }
    }

    /// Tear down scope `s`: run the cleanup lists of `s` and of every
    /// descendant, which aborts every still-pending task registered anywhere
    /// in the subtree, then mark the whole subtree dead.
    pub fn teardown(&mut self, s: usize)
        requires
            inv(old(self)@),
            s < old(self)@.scopes.len(),
        ensures
            final(self)@ == apply(old(self)@, Op::Teardown { scope: s as int }),
            inv(final(self)@),
    {
        let ghost m0 = old(self)@;
        let ghost op = Op::Teardown { scope: s as int };
        proof {
            assert forall|k: int| 0 <= k < m0.scopes.len() implies #[trigger] parent_ordered(
                m0,
                k,
            ) by {
                assert(crate::model::scope_inv(m0, k));
            }
        }
        let mut i: usize = 0;
        while i < self.tasks.len()
            invariant
                inv(m0),
                s < m0.scopes.len(),
                self@.scopes == m0.scopes,
                self@.domains == m0.domains,
                self@.next_domain == m0.next_domain,
                self@.tasks.len() == m0.tasks.len(),
                self.tasks@.len() == m0.tasks.len(),
                i <= self.tasks@.len(),
                forall|k: int|
                    0 <= k < i ==> self@.tasks[k] == #[trigger] spec_teardown(
                        m0,
                        s as int,
                    ).tasks[k],
                forall|k: int| i <= k < m0.tasks.len() ==> self@.tasks[k] == #[trigger] m0.tasks[k],
            decreases self.tasks@.len() - i,
        {
            let task = self.tasks[i];
            proof {
                assert(task@ == self@.tasks[i as int]);
                assert(task@ == m0.tasks[i as int]);
                assert(task_inv(m0, m0.tasks[i as int]));
                assert forall|k: int|
                    0 <= k < self@.scopes.len() implies #[trigger] parent_ordered(self@, k) by {
                    assert(crate::model::scope_inv(m0, k));
                }
            }
            let member = self.subtree_member(task.scope, s);
            proof {
                lemma_in_subtree_same_parents(self@, m0, task.scope as int, s as int);
            }
            if member && task.state == TaskState::Pending {
                self.tasks[i] = Task { state: TaskState::Aborted, ..task };
            }
            proof {
                assert(self@.tasks[i as int] == spec_teardown(m0, s as int).tasks[i as int]);
            }
            i += 1;
        }
        let mut j: usize = 0;
        while j < self.scopes.len()
            invariant
                inv(m0),
                s < m0.scopes.len(),
                self@.domains == m0.domains,
                self@.next_domain == m0.next_domain,
                self@.tasks == spec_teardown(m0, s as int).tasks,
                self@.scopes.len() == m0.scopes.len(),
                self.scopes@.len() == m0.scopes.len(),
                j <= self.scopes@.len(),
                forall|k: int|
                    0 <= k < m0.scopes.len() ==> #[trigger] self@.scopes[k].parent
                        == m0.scopes[k].parent,
                forall|k: int|
                    0 <= k < j ==> self@.scopes[k] == #[trigger] spec_teardown(
                        m0,
                        s as int,
                    ).scopes[k],
                forall|k: int|
                    j <= k < m0.scopes.len() ==> self@.scopes[k] == #[trigger] m0.scopes[k],
            decreases self.scopes@.len() - j,
        {
            proof {
                assert forall|k: int| 0 <= k < self@.scopes.len() implies #[trigger] parent_ordered(
                    self@,
                    k,
                ) by {
                    assert(crate::model::scope_inv(m0, k));
                    assert(self@.scopes[k].parent == m0.scopes[k].parent);
                }
            }
            let node = self.scopes[j];
            let member = self.subtree_member(j, s);
            proof {
                lemma_in_subtree_same_parents(self@, m0, j as int, s as int);
            }
            let ghost pre = self@;
            if member {
                self.scopes[j] = ScopeNode { alive: false, ..node };
                proof {
                    assert(node@ == pre.scopes[j as int]);
                    assert(self@.scopes =~= pre.scopes.update(
                        j as int,
                        ScopeModel { alive: false, ..node@ },
                    ));
                }
            }
            proof {
                assert(self@.scopes[j as int] == spec_teardown(m0, s as int).scopes[j as int]);
                assert forall|k: int|
                    0 <= k < m0.scopes.len() implies #[trigger] self@.scopes[k].parent
                        == m0.scopes[k].parent by {
                    assert(pre.scopes[k].parent == m0.scopes[k].parent);
                }
            }
            j += 1;
        }
        proof {
            assert(self@.tasks =~= apply(m0, op).tasks);
            assert(self@.scopes =~= apply(m0, op).scopes);
            assert(self@ =~= apply(m0, op));
            lemma_inv_preserved(m0, op);
        }
    }

    /// Enter a fresh execution context: a new cooperative domain is pushed
    /// and becomes the active driver. Contexts nest; the inner one must be
    /// exited (fully drained) before the outer becomes the driver again.
    pub fn enter_context(&mut self) -> (d: usize)
        requires
            inv(old(self)@),
            old(self)@.next_domain < usize::MAX,
        ensures
            final(self)@ == apply(old(self)@, Op::EnterContext),
            inv(final(self)@),
            d as int == old(self)@.next_domain,
    {
        let d = self.next_domain;
        self.domains.push(d);
        self.next_domain = d + 1;
        proof {
            assert(self@.domains =~= apply(old(self)@, Op::EnterContext).domains);
            assert(self@ =~= apply(old(self)@, Op::EnterContext));
            lemma_inv_preserved(old(self)@, Op::EnterContext);
        }
        d
    }

    /// Have all tasks of domain `d` reached a terminal state?
    pub fn is_domain_drained(&self, d: usize) -> (r: bool)
        ensures
            r == domain_drained(self@, d as int),
    {
        let mut i: usize = 0;
        while i < self.tasks.len()
            invariant
                i <= self.tasks@.len(),
                forall|k: int|
                    0 <= k < i && self@.tasks[k].domain == d ==> terminal(#[trigger] self@.tasks[k]),
            decreases self.tasks@.len() - i,
        {
            let task = self.tasks[i];
            proof {
                assert(task@ == self@.tasks[i as int]);
            }
            if task.domain == d && task.state == TaskState::Pending {
                proof {
                    assert(!terminal(self@.tasks[i as int]));
                }
                return false;
            }
            i += 1;
        }
        true
    }

    /// Try to leave the innermost execution context. This is the barrier of
    /// the context provisioner: the domain is popped if and only if every
    /// task pinned to it is completed or aborted; otherwise the call returns
    /// `false` and the driver must keep stepping its tasks. Returns whether
    /// the context was exited.
    pub fn try_exit_context(&mut self) -> (r: bool)
        requires
            inv(old(self)@),
            old(self)@.domains.len() >= 2,
        ensures
            final(self)@ == apply(old(self)@, Op::ExitContext),
            r == domain_drained(old(self)@, active_domain(old(self)@)),
            inv(final(self)@),
    {
        let active = self.domains[self.domains.len() - 1];
        proof {
            assert(active as int == active_domain(old(self)@));
        }
        let drained = self.is_domain_drained(active);
        if drained {
            self.domains.pop();
            proof {
                assert(self@.domains =~= apply(old(self)@, Op::ExitContext).domains);
                assert(self@ =~= apply(old(self)@, Op::ExitContext));
                lemma_inv_preserved(old(self)@, Op::ExitContext);
            }
            true
        } else {
            proof {
                assert(self@ =~= apply(old(self)@, Op::ExitContext));
                lemma_inv_preserved(old(self)@, Op::ExitContext);
            }
            false
        }
    }

    /// Number of tasks ever spawned; task handles are indices below this.
    pub fn task_count(&self) -> (n: usize)
        ensures
            n == self@.tasks.len(),
    {
        self.tasks.len()
    }

    /// Number of scopes ever created; scope handles are indices below this.
    pub fn scope_count(&self) -> (n: usize)
        ensures
            n == self@.scopes.len(),
    {
        self.scopes.len()
    }

    /// Current lifecycle state of task `t`.
    pub fn task_state(&self, t: usize) -> (r: TaskState)
        requires
            t < self@.tasks.len(),
        ensures
            r == self@.tasks[t as int].state,
    {
        self.tasks[t].state
    }

    /// Number of atomic steps task `t` has run: the extent of its committed
    /// side effects.
    pub fn task_steps_done(&self, t: usize) -> (r: u32)
        requires
            t < self@.tasks.len(),
        ensures
            r as int == self@.tasks[t as int].steps_done,
    {
        self.tasks[t].steps_done
    }

    /// Domain task `t` is pinned to.
    pub fn task_domain(&self, t: usize) -> (r: usize)
        requires
            t < self@.tasks.len(),
        ensures
            r as int == self@.tasks[t as int].domain,
    {
        self.tasks[t].domain
    }

    /// Whether task `t` has been submitted to an execution context.
    pub fn task_submitted(&self, t: usize) -> (r: bool)
        requires
            t < self@.tasks.len(),
        ensures
            r == self@.tasks[t as int].submitted,
    {
        self.tasks[t].submitted
    }

    /// Whether scope `s` is still alive.
    pub fn scope_alive(&self, s: usize) -> (r: bool)
        requires
            s < self@.scopes.len(),
        ensures
            r == self@.scopes[s as int].alive,
    {
        self.scopes[s].alive
    }

    /// The domain currently driving execution.
    pub fn current_domain(&self) -> (d: usize)
        requires
            self@.domains.len() >= 1,
        ensures
            d as int == active_domain(self@),
    {
        self.domains[self.domains.len() - 1]
    }

    /// How many execution contexts are on the stack, the host's default one
    /// included.
    pub fn context_depth(&self) -> (n: usize)
        ensures
            n == self@.domains.len(),
    {
        self.domains.len()
    }
}

} // verus!
