use vstd::prelude::*;
use crate::graph::TaskGraph;
use crate::graph::TaskDefinition;
use crate::status::{TaskStatus, TaskCompleted, Skipped, TaskFailure};
use crate::status::{is_terminal, status_blocks_dependents};

verus! {

/// The cache oracle's answer for one task's fingerprint: a previously
/// successful result exists (with that fingerprint), or none does.
pub enum CacheLookup {
    Miss,
    Hit(String),
}

/// What a task's opaque runnable action produced, as handed back by the
/// layer that actually ran it.
pub enum ActionOutcome {
    Succeeded { duration: u64, output: Option<String> },
    Failed { duration: u64, failure: TaskFailure },
}

/// What the scheduler does with a node once all its dependencies are
/// terminal.
pub enum Decision {
    /// Some dependency failed or was itself foreclosed: mark the node
    /// `DependencyFailed` without consulting the cache or running it.
    MarkDependencyFailed,
    /// The cache already holds a successful result: skip, recording the
    /// fingerprint.
    SkipCached(String),
    /// The task has no runnable action: skip.
    SkipNotImplemented,
    /// Run the task's action.
    Execute,
}

/// The scheduler's decision rule: a blocked dependency forecloses the node;
/// otherwise a cache hit skips it; otherwise a missing action skips it;
/// otherwise it runs.
pub open spec fn spec_decide(
    any_dep_blocked: bool,
    cache: CacheLookup,
    has_command: bool,
) -> Decision {
    if any_dep_blocked {
        Decision::MarkDependencyFailed
    } else {
        match cache {
            CacheLookup::Hit(fp) => Decision::SkipCached(fp),
            CacheLookup::Miss => if !has_command {
                Decision::SkipNotImplemented
            } else {
                Decision::Execute
            },
        }
    }
}

/// Decide a node's fate from its dependencies' outcomes, the cache answer
/// and whether it has a runnable action.
pub fn decide(any_dep_blocked: bool, cache: &CacheLookup, has_command: bool) -> (d: Decision)
    ensures
        d == spec_decide(any_dep_blocked, *cache, has_command),
{
    if any_dep_blocked {
        Decision::MarkDependencyFailed
    } else {
        match cache {
            CacheLookup::Hit(fp) => Decision::SkipCached(fp.clone()),
            CacheLookup::Miss => {
                if !has_command {
                    Decision::SkipNotImplemented
                } else {
                    Decision::Execute
                }
            },
        }
    }
}

/// Does any of these statuses foreclose a dependent?
pub fn any_blocking(statuses: &Vec<TaskStatus>) -> (b: bool)
    ensures
        b == exists|k: int|
            0 <= k < statuses@.len() && status_blocks_dependents(#[trigger] statuses@[k]),
{
    let n = statuses.len();
    let mut k: usize = 0;
    while k < n
        invariant
            k <= n,
            n == statuses@.len(),
            forall|kk: int| 0 <= kk < k ==> !status_blocks_dependents(#[trigger] statuses@[kk]),
        decreases n - k,
    {
        if statuses[k].blocks_dependents() {
            return true;
        }
        k = k + 1;
    }
    false
}

/// Are all of these statuses terminal?  A node's unit of work waits until
/// this holds of its dependencies' statuses before it decides anything.
pub fn all_terminal(statuses: &Vec<TaskStatus>) -> (b: bool)
    ensures
        b == forall|k: int| 0 <= k < statuses@.len() ==> is_terminal(#[trigger] statuses@[k]),
{
    let n = statuses.len();
    let mut k: usize = 0;
    while k < n
        invariant
            k <= n,
            n == statuses@.len(),
            forall|kk: int| 0 <= kk < k ==> is_terminal(#[trigger] statuses@[kk]),
        decreases n - k,
    {
        if !statuses[k].is_terminal_status() {
            return false;
        }
        k = k + 1;
    }
    true
}

/// The terminal outcome a node settles at when no dependency blocks it.
pub open spec fn cleared_outcome(
    def: TaskDefinition,
    cache: CacheLookup,
    action: ActionOutcome,
) -> TaskCompleted {
    match cache {
        CacheLookup::Hit(fp) => TaskCompleted::Skipped(Skipped::Cached(fp)),
        CacheLookup::Miss => if def.command is None {
            TaskCompleted::Skipped(Skipped::NotImplemented)
        } else {
            match action {
                ActionOutcome::Succeeded { duration, output } => {
                    TaskCompleted::Success(duration, output)
                },
                ActionOutcome::Failed { duration, failure } => {
                    TaskCompleted::Failed(duration, failure)
                },
            }
        },
    }
}

/// Some dependency of node `i` holds a status that forecloses dependents.
pub open spec fn node_blocked(g: TaskGraph, statuses: Seq<TaskStatus>, i: int) -> bool {
    exists|k: int|
        0 <= k < g.dep_count(i) && status_blocks_dependents(statuses[(#[trigger] g.dep(i, k)) as int])
}

/// Node `i` has settled exactly as the scheduling rules demand: it is
/// terminal; it is `DependencyFailed` exactly when a dependency blocks it;
/// otherwise it holds the cleared outcome of its cache answer and action;
/// and its action ran exactly when nothing blocked or skipped it.
pub open spec fn node_done(
    g: TaskGraph,
    cache: Seq<CacheLookup>,
    actions: Seq<ActionOutcome>,
    statuses: Seq<TaskStatus>,
    invoked: Seq<bool>,
    i: int,
) -> bool {
    &&& is_terminal(statuses[i])
    &&& (statuses[i] == TaskStatus::Completed(TaskCompleted::DependencyFailed)) <==> node_blocked(
        g,
        statuses,
        i,
    )
    &&& !node_blocked(g, statuses, i) ==> statuses[i] == TaskStatus::Completed(
        cleared_outcome(g.defs@[i], cache[i], actions[i]),
    )
    &&& invoked[i] <==> (!node_blocked(g, statuses, i) && cache[i] is Miss
        && g.defs@[i].command is Some)
}

/// The whole run has settled: every node is terminal and satisfies the
/// scheduling rules against the final statuses.
pub open spec fn run_settled(
    g: TaskGraph,
    cache: Seq<CacheLookup>,
    actions: Seq<ActionOutcome>,
    statuses: Seq<TaskStatus>,
    invoked: Seq<bool>,
) -> bool {
    &&& statuses.len() == g.n()
    &&& invoked.len() == g.n()
    &&& forall|i: int| 0 <= i < g.n() ==> #[trigger] node_done(g, cache, actions, statuses, invoked, i)
}

/// A dependency of the node at position `j` never equals the node at a
/// position `kk` at or after `j`: dependencies stand strictly earlier.
proof fn lemma_dep_is_earlier(g: TaskGraph, j: int, kk: int, d: int)
    requires
        g.wf(),
        0 <= j <= kk < g.n(),
        0 <= d < g.dep_count(g.tasks_order@[j] as int),
    ensures
        g.dep(g.tasks_order@[j] as int, d) != g.tasks_order@[kk],
{
    let ord = g.tasks_order@;
    let dv = crate::graph::deps_view(g.deps@);
    assert(dv[ord[j] as int] == g.deps@[ord[j] as int]@);
    assert(0 <= d < dv[ord[j] as int].len());
    assert(crate::graph::placed_before(ord, j, dv[ord[j] as int][d]));
    let jj = choose|jj: int| #![trigger ord[jj]] 0 <= jj < j && ord[jj] == dv[ord[j] as int][d];
    if ord[jj] == ord[kk] {
        assert(ord[jj] != ord[kk]);
    }
}

/// `node_done` depends only on the node's own entries and its dependencies'
/// statuses: leaving those untouched preserves it.
proof fn lemma_node_done_frame(
    g: TaskGraph,
    cache: Seq<CacheLookup>,
    actions: Seq<ActionOutcome>,
    s1: Seq<TaskStatus>,
    inv1: Seq<bool>,
    s2: Seq<TaskStatus>,
    inv2: Seq<bool>,
    i: int,
)
    requires
        0 <= i < g.n(),
        s1[i] == s2[i],
        inv1[i] == inv2[i],
        forall|k: int|
            0 <= k < g.dep_count(i)
                ==> s1[(#[trigger] g.dep(i, k)) as int] == s2[g.dep(i, k) as int],
        node_done(g, cache, actions, s1, inv1, i),
    ensures
        node_done(g, cache, actions, s2, inv2, i),
{
    if node_blocked(g, s1, i) {
        let k = choose|k: int|
            0 <= k < g.dep_count(i) && status_blocks_dependents(s1[(#[trigger] g.dep(i, k)) as int]);
        assert(status_blocks_dependents(s2[g.dep(i, k) as int]));
    }
    if node_blocked(g, s2, i) {
        let k = choose|k: int|
            0 <= k < g.dep_count(i) && status_blocks_dependents(s2[(#[trigger] g.dep(i, k)) as int]);
        assert(status_blocks_dependents(s1[g.dep(i, k) as int]));
    }
}

/// Run the whole graph to completion, one node at a time in topological
/// order: wait for the dependencies (already settled, by the order), decide,
/// and settle the node.  `cache` holds the oracle's answer and `actions` the
/// action's outcome for each node; an action outcome is consumed only for
/// the nodes that actually run, and `invoked` reports which those were.
/// On return every node is terminal and the scheduling rules hold of the
/// final statuses: this is the engine's failure-propagation, cache-skip and
/// completion contract in one piece.
#[verifier::rlimit(60)]
pub fn run_to_completion(
    g: &TaskGraph,
    cache: &Vec<CacheLookup>,
    actions: Vec<ActionOutcome>,
) -> (r: (Vec<TaskStatus>, Vec<bool>))
    requires
        g.wf(),
        cache@.len() == g.n(),
        actions@.len() == g.n(),
    ensures
        run_settled(*g, cache@, actions@, r.0@, r.1@),
{
    let n = g.defs.len();
    let mut acts = actions;
    let mut statuses: Vec<TaskStatus> = Vec::new();
    let mut invoked: Vec<bool> = Vec::new();
    while statuses.len() < n
        invariant
            statuses@.len() <= n as int,
            invoked@.len() == statuses@.len(),
            forall|ii: int| 0 <= ii < statuses@.len() ==> (#[trigger] statuses@[ii]) is Pending,
            forall|ii: int| 0 <= ii < invoked@.len() ==> !(#[trigger] invoked@[ii]),
        decreases n - statuses.len(),
    {
        statuses.push(TaskStatus::Pending);
        invoked.push(false);
    }

    let mut k: usize = 0;
    while k < n
        invariant
            k <= n,
            n == g.n(),
            g.wf(),
            cache@.len() == n as int,
            acts@.len() == n as int,
            statuses@.len() == n as int,
            invoked@.len() == n as int,
            forall|p: int|
                k <= p < n ==> (#[trigger] statuses@[g.tasks_order@[p] as int]) is Pending,
            forall|p: int| k <= p < n ==> !(#[trigger] invoked@[g.tasks_order@[p] as int]),
            forall|p: int|
                k <= p < n ==> (#[trigger] acts@[g.tasks_order@[p] as int]) == actions@[g.tasks_order@[p] as int],
            forall|j: int|
                0 <= j < k ==> #[trigger] node_done(
                    *g,
                    cache@,
                    actions@,
                    statuses@,
                    invoked@,
                    g.tasks_order@[j] as int,
                ),
        decreases n - k,
    {
        let i = g.tasks_order[k];
        proof {
            assert(g.tasks_order@[k as int] < g.n());
        }

        // Its dependencies settled earlier in the order; is any blocking?
        let mut blocked = false;
        let m = g.deps[i].len();
        let mut t: usize = 0;
        while t < m
            invariant
                t <= m,
                g.wf(),
                n == g.n(),
                (i as int) < n,
                statuses@.len() == n as int,
                m == g.dep_count(i as int),
                blocked == exists|kk: int|
                    0 <= kk < t && status_blocks_dependents(
                        statuses@[(#[trigger] g.dep(i as int, kk)) as int],
                    ),
            decreases m - t,
        {
            let d = g.deps[i][t];
            proof {
                assert(g.dep(i as int, t as int) < g.n());
            }
            if statuses[d].blocks_dependents() {
                blocked = true;
            }
            t = t + 1;
        }
        proof {
            assert(blocked == node_blocked(*g, statuses@, i as int));
        }

        let ghost old_statuses = statuses@;
        let ghost old_invoked = invoked@;
        let ghost old_acts = acts@;

        match decide(blocked, &cache[i], g.defs[i].command.is_some()) {
            Decision::MarkDependencyFailed => {
                statuses.set(i, TaskStatus::Completed(TaskCompleted::DependencyFailed));
            },
            Decision::SkipCached(fp) => {
                statuses.set(i, TaskStatus::Completed(TaskCompleted::Skipped(Skipped::Cached(fp))));
            },
            Decision::SkipNotImplemented => {
                statuses.set(
                    i,
                    TaskStatus::Completed(TaskCompleted::Skipped(Skipped::NotImplemented)),
                );
            },
            Decision::Execute => {
                invoked.set(i, true);
                let mut taken = ActionOutcome::Succeeded { duration: 0, output: None };
                acts.set_and_swap(i, &mut taken);
                match taken {
                    ActionOutcome::Succeeded { duration, output } => {
                        statuses.set(
                            i,
                            TaskStatus::Completed(TaskCompleted::Success(duration, output)),
                        );
                    },
                    ActionOutcome::Failed { duration, failure } => {
                        statuses.set(
                            i,
                            TaskStatus::Completed(TaskCompleted::Failed(duration, failure)),
                        );
                    },
                }
            },
        }

        proof {
            let ord = g.tasks_order@;
            // The node's dependencies sit at earlier positions, so the write
            // to `i` touched none of them, and `node_blocked` is unchanged.
            assert forall|d: int| 0 <= d < g.dep_count(i as int)
                implies statuses@[(#[trigger] g.dep(i as int, d)) as int]
                    == old_statuses[g.dep(i as int, d) as int] by {
                lemma_dep_is_earlier(*g, k as int, k as int, d);
            }
            if node_blocked(*g, statuses@, i as int) {
                let d = choose|d: int|
                    0 <= d < g.dep_count(i as int) && status_blocks_dependents(
                        statuses@[(#[trigger] g.dep(i as int, d)) as int],
                    );
                assert(status_blocks_dependents(old_statuses[g.dep(i as int, d) as int]));
            }
            if node_blocked(*g, old_statuses, i as int) {
                let d = choose|d: int|
                    0 <= d < g.dep_count(i as int) && status_blocks_dependents(
                        old_statuses[(#[trigger] g.dep(i as int, d)) as int],
                    );
                assert(status_blocks_dependents(statuses@[g.dep(i as int, d) as int]));
            }
            assert(node_blocked(*g, statuses@, i as int) == blocked);
            assert(node_done(*g, cache@, actions@, statuses@, invoked@, i as int));

            // Earlier nodes are untouched: the write went to a node that no
            // earlier node reaches, so their settlement persists.
            assert forall|j: int| 0 <= j < k implies #[trigger] node_done(
                *g,
                cache@,
                actions@,
                statuses@,
                invoked@,
                ord[j] as int,
            ) by {
                assert(node_done(*g, cache@, actions@, old_statuses, old_invoked, ord[j] as int));
                assert(ord[j] != ord[k as int]);
                assert forall|d: int| 0 <= d < g.dep_count(ord[j] as int)
                    implies old_statuses[(#[trigger] g.dep(ord[j] as int, d)) as int]
                        == statuses@[g.dep(ord[j] as int, d) as int] by {
                    lemma_dep_is_earlier(*g, j, k as int, d);
                }
                lemma_node_done_frame(
                    *g,
                    cache@,
                    actions@,
                    old_statuses,
                    old_invoked,
                    statuses@,
                    invoked@,
                    ord[j] as int,
                );
            }

            // Later nodes are untouched too.
            assert forall|p: int| k as int + 1 <= p < n
                implies (#[trigger] statuses@[ord[p] as int]) is Pending by {
                assert(ord[p] != ord[k as int]);
                assert(old_statuses[ord[p] as int] is Pending);
            }
            assert forall|p: int| k as int + 1 <= p < n
                implies !(#[trigger] invoked@[ord[p] as int]) by {
                assert(ord[p] != ord[k as int]);
            }
            assert forall|p: int| k as int + 1 <= p < n
                implies (#[trigger] acts@[ord[p] as int]) == actions@[ord[p] as int] by {
                assert(ord[p] != ord[k as int]);
                assert(old_acts[ord[p] as int] == actions@[ord[p] as int]);
            }
        }
        k = k + 1;
    }

    proof {
        let ord = g.tasks_order@;
        assert forall|i: int| 0 <= i < g.n() implies #[trigger] node_done(
            *g,
            cache@,
            actions@,
            statuses@,
            invoked@,
            i,
        ) by {
            assert(ord.contains(i as usize));
            let p = choose|p: int| 0 <= p < ord.len() && ord[p] == i as usize;
            assert(node_done(*g, cache@, actions@, statuses@, invoked@, ord[p] as int));
        }
    }
    (statuses, invoked)
}

/// Law: failure propagates transitively.  In a chain where `b` depends only
/// on `a` and `c` depends only on `b`, a blocking outcome at `a` forecloses
/// both `b` and `c` as `DependencyFailed`, and neither action is invoked.
pub proof fn lemma_failure_cascades(
    g: TaskGraph,
    cache: Seq<CacheLookup>,
    actions: Seq<ActionOutcome>,
    statuses: Seq<TaskStatus>,
    invoked: Seq<bool>,
    a: int,
    b: int,
    c: int,
)
    requires
        run_settled(g, cache, actions, statuses, invoked),
        0 <= a < g.n(),
        0 <= b < g.n(),
        0 <= c < g.n(),
        g.dep_count(b) == 1,
        g.dep(b, 0) as int == a,
        g.dep_count(c) == 1,
        g.dep(c, 0) as int == b,
        status_blocks_dependents(statuses[a]),
    ensures
        statuses[b] == TaskStatus::Completed(TaskCompleted::DependencyFailed),
        statuses[c] == TaskStatus::Completed(TaskCompleted::DependencyFailed),
        !invoked[b],
        !invoked[c],
{
    assert(node_done(g, cache, actions, statuses, invoked, b));
    assert(status_blocks_dependents(statuses[g.dep(b, 0) as int]));
    assert(node_blocked(g, statuses, b));
    assert(node_done(g, cache, actions, statuses, invoked, c));
    assert(status_blocks_dependents(statuses[g.dep(c, 0) as int]));
    assert(node_blocked(g, statuses, c));
}

/// Law: in the diamond where `b` and `c` each depend only on `a`, and `d`
/// depends on `b` and `c`, a blocking outcome at `b` forecloses `d` without
/// running it, while `c` still settles by its own cache answer and action
/// alone — `c` does not depend on `b`.
pub proof fn lemma_diamond(
    g: TaskGraph,
    cache: Seq<CacheLookup>,
    actions: Seq<ActionOutcome>,
    statuses: Seq<TaskStatus>,
    invoked: Seq<bool>,
    a: int,
    b: int,
    c: int,
    d: int,
)
    requires
        run_settled(g, cache, actions, statuses, invoked),
        0 <= a < g.n(),
        0 <= b < g.n(),
        0 <= c < g.n(),
        0 <= d < g.n(),
        g.dep_count(c) == 1,
        g.dep(c, 0) as int == a,
        g.dep_count(d) == 2,
        g.dep(d, 0) as int == b,
        g.dep(d, 1) as int == c,
        !status_blocks_dependents(statuses[a]),
        status_blocks_dependents(statuses[b]),
    ensures
        statuses[d] == TaskStatus::Completed(TaskCompleted::DependencyFailed),
        !invoked[d],
        statuses[c] == TaskStatus::Completed(cleared_outcome(g.defs@[c], cache[c], actions[c])),
{
    assert(node_done(g, cache, actions, statuses, invoked, d));
    assert(status_blocks_dependents(statuses[g.dep(d, 0) as int]));
    assert(node_blocked(g, statuses, d));
    assert(node_done(g, cache, actions, statuses, invoked, c));
    if node_blocked(g, statuses, c) {
        let k = choose|k: int|
            0 <= k < g.dep_count(c) && status_blocks_dependents(
                statuses[(#[trigger] g.dep(c, k)) as int],
            );
        assert(k == 0);
        assert(false);
    }
}

/// Law: a node whose fingerprint is a cache hit, and whose dependencies all
/// cleared, settles as `Skipped(Cached(fingerprint))` directly — its action
/// never runs, so it never passes through `Running`.
pub proof fn lemma_cache_hit_skips(
    g: TaskGraph,
    cache: Seq<CacheLookup>,
    actions: Seq<ActionOutcome>,
    statuses: Seq<TaskStatus>,
    invoked: Seq<bool>,
    i: int,
    fp: String,
)
    requires
        run_settled(g, cache, actions, statuses, invoked),
        0 <= i < g.n(),
        !node_blocked(g, statuses, i),
        cache[i] == CacheLookup::Hit(fp),
    ensures
        statuses[i] == TaskStatus::Completed(TaskCompleted::Skipped(Skipped::Cached(fp))),
        !invoked[i],
{
    assert(node_done(g, cache, actions, statuses, invoked, i));
}

/// Law: a settled run leaves nothing behind — every node is terminal, so a
/// tally of the final statuses counts zero `Pending` and zero `Running`.
pub proof fn lemma_settled_run_counts(
    g: TaskGraph,
    cache: Seq<CacheLookup>,
    actions: Seq<ActionOutcome>,
    statuses: Seq<TaskStatus>,
    invoked: Seq<bool>,
)
    requires
        run_settled(g, cache, actions, statuses, invoked),
    ensures
        crate::summary::count_class(statuses, crate::summary::StatusClass::ClassPending) == 0,
        crate::summary::count_class(statuses, crate::summary::StatusClass::ClassRunning) == 0,
{
    assert forall|i: int| 0 <= i < statuses.len() implies is_terminal(#[trigger] statuses[i]) by {
        assert(node_done(g, cache, actions, statuses, invoked, i));
    }
    crate::summary::lemma_all_terminal_counts(statuses);
}

} // verus!
