use vstd::prelude::*;
use crate::graph::TaskDefinition;

verus! {

/// Why a task was skipped instead of run.
#[derive(Debug, Clone)]
pub enum Skipped {
    /// A previously successful result with this fingerprint was reused.
    Cached(String),
    /// The task has no runnable action.
    NotImplemented,
}

/// One captured output line: the instant it arrived and its text.
#[derive(Debug, Clone)]
pub struct OutputLine {
    pub at: u64,
    pub text: String,
}

/// What a failed task left behind: an error description and the captured
/// stdout and stderr lines, each sequence in arrival order.
#[derive(Debug, Clone)]
pub struct TaskFailure {
    pub error: String,
    pub stdout: Vec<OutputLine>,
    pub stderr: Vec<OutputLine>,
}

/// Terminal outcome of one task.
#[derive(Debug, Clone)]
pub enum TaskCompleted {
    /// Ran and succeeded; carries the run duration and an optional output.
    Success(u64, Option<String>),
    /// Ran and failed; carries the run duration and the captured failure.
    Failed(u64, TaskFailure),
    /// Never ran, on purpose.
    Skipped(Skipped),
    /// Never ran because a dependency did not reach `Success` or `Skipped`.
    DependencyFailed,
}

/// Lifecycle status of one task.  Every task starts `Pending`; `Completed`
/// is terminal.
#[derive(Debug, Clone)]
pub enum TaskStatus {
    Pending,
    Running(u64),
    Completed(TaskCompleted),
}

/// A status is terminal once it is `Completed`; it never changes afterwards.
pub open spec fn is_terminal(s: TaskStatus) -> bool {
    s is Completed
}

/// An outcome that lets dependents proceed: the task succeeded or was skipped.
pub open spec fn outcome_clears_dependents(c: TaskCompleted) -> bool {
    c is Success || c is Skipped
}

/// A status that forecloses dependents: completed as `Failed` or as
/// `DependencyFailed`.
pub open spec fn status_blocks_dependents(s: TaskStatus) -> bool {
    match s {
        TaskStatus::Completed(c) => c is Failed || c is DependencyFailed,
        _ => false,
    }
}

/// A completion a node may reach directly from `Pending`, without running.
pub open spec fn direct_completion(s: TaskStatus) -> bool {
    match s {
        TaskStatus::Completed(c) => c is Skipped || c is DependencyFailed,
        _ => false,
    }
}

/// A completion a node may reach only by running.
pub open spec fn run_completion(s: TaskStatus) -> bool {
    match s {
        TaskStatus::Completed(c) => c is Success || c is Failed,
        _ => false,
    }
}

/// The one-directional transition relation of the per-task state machine:
/// `Pending -> Running -> Completed(Success | Failed)`, or `Pending ->
/// Completed(Skipped | DependencyFailed)` directly.  Nothing steps out of
/// `Completed`.
pub open spec fn status_step(a: TaskStatus, b: TaskStatus) -> bool {
    match a {
        TaskStatus::Pending => b is Running || direct_completion(b),
        TaskStatus::Running(_) => run_completion(b),
        TaskStatus::Completed(_) => false,
    }
}

impl TaskStatus {
    /// True exactly on the statuses that foreclose dependents.
    pub fn blocks_dependents(&self) -> (b: bool)
        ensures
            b == status_blocks_dependents(*self),
    {
        match self {
            TaskStatus::Completed(TaskCompleted::Failed(_, _)) => true,
            TaskStatus::Completed(TaskCompleted::DependencyFailed) => true,
            _ => false,
        }
    }

    /// True exactly on terminal statuses.
    pub fn is_terminal_status(&self) -> (b: bool)
        ensures
            b == is_terminal(*self),
    {
        match self {
            TaskStatus::Completed(_) => true,
            _ => false,
        }
    }
}

/// One task's mutable state record: its definition and its current status.
/// The scheduler is the only writer; observers read consistent snapshots.
pub struct TaskState {
    pub task: TaskDefinition,
    pub status: TaskStatus,
}

impl TaskState {
    /// A fresh record: every task starts `Pending`.
    pub fn new(task: TaskDefinition) -> (s: Self)
        ensures
            s.task == task,
            s.status == TaskStatus::Pending,
    {
        TaskState { task, status: TaskStatus::Pending }
    }

    /// A consistent snapshot of the current status: exactly the stored value,
    /// never a partial one.
    pub fn read(&self) -> (r: &TaskStatus)
        ensures
            *r == self.status,
    {
        &self.status
    }

    /// `Pending -> Running(now)`: the single path into `Running`.  The
    /// scheduler invokes it only once it has seen every dependency completed
    /// with a clearing outcome.
    pub fn begin_run(&mut self, now: u64)
        requires
            old(self).status is Pending,
        ensures
            final(self).status == TaskStatus::Running(now),
            final(self).task == old(self).task,
            status_step(old(self).status, final(self).status),
    {
        self.status = TaskStatus::Running(now);
    }

    /// Into `Completed(outcome)`: from `Running` with a run outcome, or
    /// directly from `Pending` with a skip or dependency-failure outcome.
    /// A completed record admits no further transition.
    pub fn complete(&mut self, outcome: TaskCompleted)
        requires
            status_step(old(self).status, TaskStatus::Completed(outcome)),
        ensures
            final(self).status == TaskStatus::Completed(outcome),
            final(self).task == old(self).task,
            status_step(old(self).status, final(self).status),
    {
        self.status = TaskStatus::Completed(outcome);
    }
}

/// Law: no transition leaves a terminal status; once `Completed`, a status
/// never changes again.
pub proof fn lemma_terminal_is_final(a: TaskStatus, b: TaskStatus)
    requires
        status_step(a, b),
    ensures
        !is_terminal(a),
{
}

/// Law: the statuses a single task passes through form one of exactly three
/// sequences — `Pending, Running, Completed(Success | Failed)`, or `Pending,
/// Completed(Skipped)`, or `Pending, Completed(DependencyFailed)` — never a
/// longer one, never a repeated value, never a reverted one.  `h` is any
/// history that starts at `Pending` and advances by single transitions.
pub proof fn lemma_status_lifecycle(h: Seq<TaskStatus>)
    requires
        h.len() >= 1,
        h[0] == TaskStatus::Pending,
        forall|i: int, j: int|
            0 <= i && j == i + 1 && j < h.len() ==> #[trigger] status_step(h[i], h[j]),
    ensures
        h.len() <= 3,
        forall|i: int, j: int| 0 <= i < j < h.len() ==> h[i] != h[j],
        h.len() == 2 ==> h[1] is Running || direct_completion(h[1]),
        h.len() == 3 ==> h[1] is Running && run_completion(h[2]),
{
    if h.len() >= 2 {
        assert(status_step(h[0], h[1]));
    }
    if h.len() >= 3 {
        assert(status_step(h[1], h[2]));
    }
    if h.len() >= 4 {
        assert(status_step(h[2], h[3]));
        assert(false);
    }
    if h.len() == 2 {
        assert(h[0] != h[1]);
    }
    if h.len() == 3 {
        assert(h[0] != h[1] && h[0] != h[2] && h[1] != h[2]);
    }
    assert forall|i: int, j: int| 0 <= i < j < h.len() implies h[i] != h[j] by {
        assert(h.len() <= 3);
    }
}

} // verus!
