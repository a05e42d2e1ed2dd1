use vstd::prelude::*;
use crate::status::{TaskStatus, TaskCompleted, Skipped, is_terminal};

verus! {

/// The six mutually exclusive classes a status falls in when reported.
pub enum StatusClass {
    ClassPending,
    ClassRunning,
    ClassSucceeded,
    ClassFailed,
    ClassSkipped,
    ClassDependencyFailed,
}

/// The class a status falls in.
pub open spec fn class_of(s: TaskStatus) -> StatusClass {
    match s {
        TaskStatus::Pending => StatusClass::ClassPending,
        TaskStatus::Running(_) => StatusClass::ClassRunning,
        TaskStatus::Completed(TaskCompleted::Success(_, _)) => StatusClass::ClassSucceeded,
        TaskStatus::Completed(TaskCompleted::Failed(_, _)) => StatusClass::ClassFailed,
        TaskStatus::Completed(TaskCompleted::Skipped(_)) => StatusClass::ClassSkipped,
        TaskStatus::Completed(TaskCompleted::DependencyFailed) => {
            StatusClass::ClassDependencyFailed
        },
    }
}

/// How many of the statuses fall in class `c`.
pub open spec fn count_class(s: Seq<TaskStatus>, c: StatusClass) -> int
    decreases s.len(),
{
    if s.len() == 0 {
        0
    } else {
        count_class(s.drop_last(), c) + if class_of(s.last()) == c {
            1int
        } else {
            0int
        }
    }
}

/// Status information for all tasks: one counter per status class, and the
/// rendered per-task lines an observer may attach.
pub struct TasksStatus {
    pub lines: Vec<String>,
    pub pending: usize,
    pub running: usize,
    pub succeeded: usize,
    pub failed: usize,
    pub skipped: usize,
    pub dependency_failed: usize,
}

impl TasksStatus {
    /// An empty summary: every counter zero, no lines.
    pub fn new() -> (t: Self)
        ensures
            t.lines@.len() == 0,
            t.pending == 0,
            t.running == 0,
            t.succeeded == 0,
            t.failed == 0,
            t.skipped == 0,
            t.dependency_failed == 0,
    {
        TasksStatus {
            lines: Vec::new(),
            pending: 0,
            running: 0,
            succeeded: 0,
            failed: 0,
            skipped: 0,
            dependency_failed: 0,
        }
    }

    /// Count every status into its class.  The six counters partition the
    /// statuses: they sum to the number of tasks.
    pub fn tally(statuses: &Vec<TaskStatus>) -> (t: Self)
        ensures
            t.lines@.len() == 0,
            t.pending as int == count_class(statuses@, StatusClass::ClassPending),
            t.running as int == count_class(statuses@, StatusClass::ClassRunning),
            t.succeeded as int == count_class(statuses@, StatusClass::ClassSucceeded),
            t.failed as int == count_class(statuses@, StatusClass::ClassFailed),
            t.skipped as int == count_class(statuses@, StatusClass::ClassSkipped),
            t.dependency_failed as int
                == count_class(statuses@, StatusClass::ClassDependencyFailed),
            t.pending + t.running + t.succeeded + t.failed + t.skipped + t.dependency_failed
                == statuses@.len(),
    {
        let n = statuses.len();
        let mut t = TasksStatus::new();
        let mut i: usize = 0;
        while i < n
            invariant
                i <= n,
                n == statuses@.len(),
                t.lines@.len() == 0,
                t.pending as int == count_class(statuses@.take(i as int), StatusClass::ClassPending),
                t.running as int == count_class(statuses@.take(i as int), StatusClass::ClassRunning),
                t.succeeded as int
                    == count_class(statuses@.take(i as int), StatusClass::ClassSucceeded),
                t.failed as int == count_class(statuses@.take(i as int), StatusClass::ClassFailed),
                t.skipped as int == count_class(statuses@.take(i as int), StatusClass::ClassSkipped),
                t.dependency_failed as int
                    == count_class(statuses@.take(i as int), StatusClass::ClassDependencyFailed),
                t.pending + t.running + t.succeeded + t.failed + t.skipped + t.dependency_failed
                    == i as int,
            decreases n - i,
        {
            proof {
                assert(statuses@.take(i as int + 1).drop_last() =~= statuses@.take(i as int));
                assert(statuses@.take(i as int + 1).last() == statuses@[i as int]);
            }
            match &statuses[i] {
                TaskStatus::Pending => {
                    t.pending = t.pending + 1;
                },
                TaskStatus::Running(_) => {
                    t.running = t.running + 1;
                },
                TaskStatus::Completed(TaskCompleted::Success(_, _)) => {
                    t.succeeded = t.succeeded + 1;
                },
                TaskStatus::Completed(TaskCompleted::Failed(_, _)) => {
                    t.failed = t.failed + 1;
                },
                TaskStatus::Completed(TaskCompleted::Skipped(_)) => {
                    t.skipped = t.skipped + 1;
                },
                TaskStatus::Completed(TaskCompleted::DependencyFailed) => {
                    t.dependency_failed = t.dependency_failed + 1;
                },
            }
            i = i + 1;
        }
        proof {
            assert(statuses@.take(n as int) =~= statuses@);
        }
        t
    }

    /// Nothing is pending or running any more: the whole run is settled.
    pub fn all_settled(&self) -> (b: bool)
        ensures
            b == (self.pending == 0 && self.running == 0),
    {
        self.pending == 0 && self.running == 0
    }
}

/// Law: every status is terminal exactly when nothing counts as pending or
/// running any more — the check a driver makes before it declares the run
/// finished.
pub proof fn lemma_all_terminal_counts(s: Seq<TaskStatus>)
    ensures
        (forall|i: int| 0 <= i < s.len() ==> is_terminal(#[trigger] s[i]))
            <==> (count_class(s, StatusClass::ClassPending) == 0
                && count_class(s, StatusClass::ClassRunning) == 0),
    decreases s.len(),
{
    lemma_count_class_nonneg(s, StatusClass::ClassPending);
    lemma_count_class_nonneg(s, StatusClass::ClassRunning);
    if s.len() > 0 {
        lemma_all_terminal_counts(s.drop_last());
        lemma_count_class_nonneg(s.drop_last(), StatusClass::ClassPending);
        lemma_count_class_nonneg(s.drop_last(), StatusClass::ClassRunning);
        if forall|i: int| 0 <= i < s.len() ==> is_terminal(#[trigger] s[i]) {
            assert forall|i: int| 0 <= i < s.drop_last().len()
                implies is_terminal(#[trigger] s.drop_last()[i]) by {
                assert(s.drop_last()[i] == s[i]);
            }
        }
        if count_class(s, StatusClass::ClassPending) == 0
            && count_class(s, StatusClass::ClassRunning) == 0 {
            assert forall|i: int| 0 <= i < s.len() implies is_terminal(#[trigger] s[i]) by {
                if i < s.len() - 1 {
                    assert(s.drop_last()[i] == s[i]);
                } else {
                    assert(s[i] == s.last());
                }
            }
        }
    }
}

/// A class count is never negative.
pub proof fn lemma_count_class_nonneg(s: Seq<TaskStatus>, c: StatusClass)
    ensures
        0 <= count_class(s, c) <= s.len(),
    decreases s.len(),
{
    if s.len() > 0 {
        lemma_count_class_nonneg(s.drop_last(), c);
    }
}

} // verus!
