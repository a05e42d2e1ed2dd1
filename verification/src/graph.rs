use vstd::prelude::*;
use vstd::relations::injective;
use vstd::string::StrSliceExecFns;
use vstd::seq_lib::seq_to_set_is_finite;
use vstd::set_lib::lemma_len_subset;
use vstd::set_lib::set_int_range;
use vstd::set_lib::lemma_int_range;

verus! {

/// One task as the caller configured it: a unique name, the names of the
/// tasks it must run after, and an opaque runnable action (`None` means the
/// task has nothing to run and is skipped as not implemented).
pub struct TaskDefinition {
    pub name: String,
    pub after: Vec<String>,
    pub command: Option<String>,
}

/// The caller's configuration: the task definitions and the names of the
/// explicitly requested root tasks.
pub struct Config {
    pub tasks: Vec<TaskDefinition>,
    pub roots: Vec<String>,
}

/// Why graph construction was refused.  Task failures at run time are never
/// errors of this kind: they are recorded in the tasks' statuses.
#[derive(Debug)]
pub enum Error {
    /// The dependency relation is not acyclic.
    CycleDetected,
    /// A task names a dependency that no task defines; carries that name.
    UnknownDependency(String),
}

/// The position of the first task in `defs` named `name`, or `defs.len()`
/// if no task has that name.
pub open spec fn first_index(defs: Seq<TaskDefinition>, name: Seq<char>) -> int
    decreases defs.len(),
{
    if defs.len() == 0 {
        0
    } else if defs[0].name@ == name {
        0
    } else {
        1 + first_index(defs.drop_first(), name)
    }
}

/// Some task in `defs` is named `name`.
pub open spec fn name_defined(defs: Seq<TaskDefinition>, name: Seq<char>) -> bool {
    first_index(defs, name) < defs.len()
}

pub proof fn lemma_first_index(defs: Seq<TaskDefinition>, name: Seq<char>)
    ensures
        0 <= first_index(defs, name) <= defs.len(),
        name_defined(defs, name) ==> defs[first_index(defs, name)].name@ == name,
        forall|j: int| 0 <= j < first_index(defs, name) ==> defs[j].name@ != name,
        forall|j: int| 0 <= j < defs.len() && defs[j].name@ == name
            ==> first_index(defs, name) <= j,
    decreases defs.len(),
{
    if defs.len() > 0 && defs[0].name@ != name {
        let rest = defs.drop_first();
        lemma_first_index(rest, name);
        assert forall|j: int| 0 <= j < first_index(defs, name) implies defs[j].name@ != name by {
            if j > 0 {
                assert(rest[j - 1] == defs[j]);
            }
        }
        assert forall|j: int| 0 <= j < defs.len() && defs[j].name@ == name
            implies first_index(defs, name) <= j by {
            assert(j > 0);
            assert(rest[j - 1] == defs[j]);
        }
    }
}

/// Every dependency name of every task is defined.
pub open spec fn all_deps_defined(defs: Seq<TaskDefinition>) -> bool {
    forall|i: int, k: int|
        0 <= i < defs.len() && 0 <= k < defs[i].after@.len()
            ==> name_defined(defs, (#[trigger] defs[i].after@[k])@)
}

/// The dependency indices that name resolution assigns: for each task, each
/// `after` name is replaced by the position of the first task so named.
pub open spec fn resolved_deps(defs: Seq<TaskDefinition>) -> Seq<Seq<usize>> {
    Seq::new(
        defs.len(),
        |i: int| defs[i].after@.map_values(|nm: String| first_index(defs, nm@) as usize),
    )
}

/// The length of the longest task name, 0 when there are no tasks.
pub open spec fn max_name_len(defs: Seq<TaskDefinition>) -> int
    decreases defs.len(),
{
    if defs.len() == 0 {
        0
    } else {
        let rest = max_name_len(defs.drop_last());
        let last = defs.last().name@.len() as int;
        if last > rest {
            last
        } else {
            rest
        }
    }
}

/// The dependency rows of the graph, as sequences.
pub open spec fn deps_view(deps: Seq<Vec<usize>>) -> Seq<Seq<usize>> {
    deps.map_values(|v: Vec<usize>| v@)
}

/// The node `dep` stands somewhere in the first `upto` positions of `ord`.
pub open spec fn placed_before(ord: Seq<usize>, upto: int, dep: usize) -> bool {
    exists|j: int| 0 <= j < upto && ord[j] == dep
}

/// `ord` enumerates every node of `deps` exactly once, and every node's
/// dependencies stand strictly before it.
pub open spec fn valid_topo_order(ord: Seq<usize>, deps: Seq<Seq<usize>>) -> bool {
    &&& ord.len() == deps.len()
    &&& forall|k: int| 0 <= k < ord.len() ==> (#[trigger] ord[k]) < deps.len()
    &&& ord.no_duplicates()
    &&& forall|u: usize| (u as int) < deps.len() ==> #[trigger] ord.contains(u)
    &&& forall|k: int, d: int|
        0 <= k < ord.len() && 0 <= d < deps[ord[k] as int].len()
            ==> #[trigger] placed_before(ord, k, deps[ord[k] as int][d])
}

/// A dependency relation is acyclic exactly when some topological order of
/// it exists.
pub open spec fn acyclic(deps: Seq<Seq<usize>>) -> bool {
    exists|ord: Seq<usize>| valid_topo_order(ord, deps)
}

/// A sequence of `n` distinct values below `n` covers every value below `n`.
proof fn lemma_distinct_bounded_covers(ord: Seq<usize>, n: int)
    requires
        n <= usize::MAX,
        ord.no_duplicates(),
        ord.len() == n,
        forall|k: int| 0 <= k < ord.len() ==> (#[trigger] ord[k]) < n,
    ensures
        forall|u: usize| (u as int) < n ==> #[trigger] ord.contains(u),
{
    broadcast use seq_to_set_is_finite;

    let f = |x: usize| x as int;
    let s = ord.map_values(f);
    assert(injective(f));
    ord.lemma_no_duplicates_injective(f);
    s.unique_seq_to_set();
    lemma_int_range(0, n);
    assert(s.to_set().subset_of(set_int_range(0, n))) by {
        assert forall|x: int| s.to_set().contains(x) implies set_int_range(0, n).contains(x) by {
            let k = choose|k: int| 0 <= k < s.len() && s[k] == x;
            assert(ord[k] < n);
        }
    }
    assert forall|u: usize| (u as int) < n implies ord.contains(u) by {
        if !s.to_set().contains(u as int) {
            s.to_set().lemma_subset_not_in_lt(set_int_range(0, n), u as int);
            assert(false);
        }
        let k = choose|k: int| 0 <= k < s.len() && s[k] == u as int;
        assert(s[k] == f(ord[k]));
        assert(ord[k] == u);
    }
}

/// Distinct values that cover every value below `n` are at least `n` many.
proof fn lemma_distinct_cover_len(ord: Seq<usize>, n: int)
    requires
        0 <= n <= usize::MAX,
        ord.no_duplicates(),
        forall|u: usize| (u as int) < n ==> #[trigger] ord.contains(u),
    ensures
        ord.len() >= n,
{
    broadcast use seq_to_set_is_finite;

    let f = |x: usize| x as int;
    let s = ord.map_values(f);
    assert(injective(f));
    ord.lemma_no_duplicates_injective(f);
    s.unique_seq_to_set();
    lemma_int_range(0, n);
    assert(set_int_range(0, n).subset_of(s.to_set())) by {
        assert forall|x: int| set_int_range(0, n).contains(x) implies s.to_set().contains(x) by {
            assert(ord.contains(x as usize));
            let k = choose|k: int| 0 <= k < ord.len() && ord[k] == x as usize;
            assert(s[k] == f(ord[k]));
            assert(s[k] == x);
        }
    }
    lemma_len_subset(set_int_range(0, n), s.to_set());
}

/// In any topological order, the first `m` positions hold only placed nodes
/// whenever every unplaced node keeps an unplaced dependency.
proof fn lemma_topo_prefix_placed(
    deps: Seq<Seq<usize>>,
    placed: Seq<bool>,
    ord: Seq<usize>,
    m: int,
)
    requires
        placed.len() == deps.len(),
        forall|i: int| 0 <= i < deps.len() && !(#[trigger] placed[i])
            ==> exists|k: int| 0 <= k < deps[i].len() && !placed[deps[i][k] as int],
        valid_topo_order(ord, deps),
        0 <= m <= ord.len(),
    ensures
        forall|j: int| 0 <= j < m ==> placed[ord[j] as int],
    decreases m,
{
    if m > 0 {
        lemma_topo_prefix_placed(deps, placed, ord, m - 1);
        let i = ord[m - 1] as int;
        if !placed[i] {
            let k = choose|k: int| 0 <= k < deps[i].len() && !placed[deps[i][k] as int];
            assert(0 <= k < deps[ord[m - 1] as int].len());
            assert(placed_before(ord, m - 1, deps[ord[m - 1] as int][k]));
            let j = choose|j: int| #![trigger ord[j]] 0 <= j < m - 1 && ord[j] == deps[ord[m - 1] as int][k];
            assert(placed[ord[j] as int]);
            assert(false);
        }
    }
}

/// When every unplaced node keeps an unplaced dependency and at least one
/// node is unplaced, no topological order exists: the unplaced part of the
/// graph is cyclic.
proof fn lemma_stuck_not_acyclic(deps: Seq<Seq<usize>>, placed: Seq<bool>)
    requires
        deps.len() <= usize::MAX,
        placed.len() == deps.len(),
        exists|i: int| 0 <= i < deps.len() && !(#[trigger] placed[i]),
        forall|i: int| 0 <= i < deps.len() && !(#[trigger] placed[i])
            ==> exists|k: int| 0 <= k < deps[i].len() && !placed[deps[i][k] as int],
    ensures
        !acyclic(deps),
{
    if acyclic(deps) {
        let ord = choose|ord: Seq<usize>| valid_topo_order(ord, deps);
        lemma_topo_prefix_placed(deps, placed, ord, ord.len() as int);
        let i0 = choose|i: int| 0 <= i < deps.len() && !placed[i];
        assert(ord.contains(i0 as usize));
        let k = choose|k: int| 0 <= k < ord.len() && ord[k] == i0 as usize;
        assert(placed[ord[k] as int]);
        assert(false);
    }
}

/// The immutable task graph: the definitions, the resolved dependency
/// indices of each task, a topological order fixed at construction, the
/// requested root names, and the longest task-name length (informational).
/// After construction nothing here mutates; only per-task statuses do.
pub struct TaskGraph {
    pub defs: Vec<TaskDefinition>,
    pub deps: Vec<Vec<usize>>,
    pub tasks_order: Vec<usize>,
    pub root_names: Vec<String>,
    pub longest_task_name: usize,
}

impl TaskGraph {
    /// The number of tasks.
    pub open spec fn n(self) -> int {
        self.defs@.len() as int
    }

    /// How many dependencies task `i` has.
    pub open spec fn dep_count(self, i: int) -> int {
        self.deps@[i]@.len() as int
    }

    /// The `k`-th dependency index of task `i`.
    pub open spec fn dep(self, i: int, k: int) -> usize {
        self.deps@[i]@[k]
    }

    /// Structural well-formedness: one dependency row per task, every
    /// dependency index in range, and `tasks_order` a valid topological
    /// order — every dependency stands before its dependents.
    pub open spec fn wf(self) -> bool {
        &&& self.deps@.len() == self.n()
        &&& forall|i: int, k: int|
            0 <= i < self.n() && 0 <= k < self.dep_count(i)
                ==> (#[trigger] self.dep(i, k)) < self.n()
        &&& valid_topo_order(self.tasks_order@, deps_view(self.deps@))
    }
}

/// Law: in a well-formed graph the topological order puts every dependency
/// strictly before its dependents — if the task at position `p` depends on
/// the task at position `q`, then `q < p`.
pub proof fn lemma_dependencies_precede_dependents(g: TaskGraph, p: int, q: int, d: int)
    requires
        g.wf(),
        0 <= p < g.n(),
        0 <= q < g.n(),
        0 <= d < g.dep_count(g.tasks_order@[p] as int),
        g.dep(g.tasks_order@[p] as int, d) == g.tasks_order@[q],
    ensures
        q < p,
{
    let ord = g.tasks_order@;
    let deps = deps_view(g.deps@);
    assert(deps[ord[p] as int] == g.deps@[ord[p] as int]@);
    assert(0 <= d < deps[ord[p] as int].len());
    assert(placed_before(ord, p, deps[ord[p] as int][d]));
    let j = choose|j: int| #![trigger ord[j]] 0 <= j < p && ord[j] == deps[ord[p] as int][d];
    if q != j {
        assert(ord[q] != ord[j]);
        assert(false);
    }
}

/// Whether `name` is defined in `defs`; on a hit, the position of its first
/// definition.
fn find_index(defs: &Vec<TaskDefinition>, name: &String) -> (r: Option<usize>)
    ensures
        match r {
            Some(j) => (j as int) < defs@.len() && j as int == first_index(defs@, name@),
            None => !name_defined(defs@, name@),
        },
{
    let n = defs.len();
    let mut j: usize = 0;
    while j < n
        invariant
            j <= n,
            n == defs@.len(),
            forall|jj: int| 0 <= jj < j ==> (#[trigger] defs@[jj]).name@ != name@,
        decreases n - j,
    {
        if defs[j].name == *name {
            proof {
                lemma_first_index(defs@, name@);
            }
            return Some(j);
        }
        j = j + 1;
    }
    proof {
        lemma_first_index(defs@, name@);
        if name_defined(defs@, name@) {
            assert(defs@[first_index(defs@, name@)].name@ == name@);
            assert(false);
        }
    }
    None
}

/// Are all of the dependency indices in `row` already placed?
fn all_placed(row: &Vec<usize>, placed: &Vec<bool>) -> (b: bool)
    requires
        forall|k: int| 0 <= k < row@.len() ==> (#[trigger] row@[k] as int) < placed@.len(),
    ensures
        b == forall|k: int| 0 <= k < row@.len() ==> placed@[(#[trigger] row@[k]) as int],
{
    let m = row.len();
    let mut k: usize = 0;
    while k < m
        invariant
            k <= m,
            m == row@.len(),
            forall|kk: int| 0 <= kk < row@.len() ==> (#[trigger] row@[kk] as int) < placed@.len(),
            forall|kk: int| 0 <= kk < k ==> placed@[(#[trigger] row@[kk]) as int],
        decreases m - k,
    {
        if !placed[row[k]] {
            return false;
        }
        k = k + 1;
    }
    true
}

/// A node that is not yet placed but has all its dependencies placed, if
/// one exists; `None` means every unplaced node keeps an unplaced
/// dependency.
fn find_ready(deps: &Vec<Vec<usize>>, placed: &Vec<bool>) -> (r: Option<usize>)
    requires
        placed@.len() == deps@.len(),
        forall|i: int, k: int|
            0 <= i < deps@.len() && 0 <= k < deps@[i]@.len()
                ==> ((#[trigger] deps@[i]@[k]) as int) < deps@.len(),
    ensures
        match r {
            Some(i) => {
                &&& (i as int) < deps@.len()
                &&& !placed@[i as int]
                &&& forall|k: int|
                    0 <= k < deps@[i as int]@.len()
                        ==> placed@[(#[trigger] deps@[i as int]@[k]) as int]
            },
            None => forall|i: int|
                0 <= i < deps@.len() && !(#[trigger] placed@[i])
                    ==> exists|k: int| 0 <= k < deps@[i]@.len() && !placed@[deps@[i]@[k] as int],
        },
{
    let n = deps.len();
    let mut i: usize = 0;
    while i < n
        invariant
            i <= n,
            n == deps@.len(),
            placed@.len() == deps@.len(),
            forall|ii: int, k: int|
                0 <= ii < deps@.len() && 0 <= k < deps@[ii]@.len()
                    ==> ((#[trigger] deps@[ii]@[k]) as int) < deps@.len(),
            forall|ii: int|
                0 <= ii < i && !(#[trigger] placed@[ii])
                    ==> exists|k: int| 0 <= k < deps@[ii]@.len() && !placed@[deps@[ii]@[k] as int],
        decreases n - i,
    {
        if !placed[i] && all_placed(&deps[i], placed) {
            return Some(i);
        }
        i = i + 1;
    }
    None
}

proof fn lemma_push_contains(s: Seq<usize>, v: usize, x: usize)
    ensures
        s.push(v).contains(x) <==> (s.contains(x) || x == v),
{
    let s2 = s.push(v);
    if s.contains(x) {
        let idx = choose|idx: int| 0 <= idx < s.len() && s[idx] == x;
        assert(s2[idx] == x);
    }
    assert(s2[s.len() as int] == v);
    if s2.contains(x) && x != v {
        let idx = choose|idx: int| 0 <= idx < s2.len() && s2[idx] == x;
        assert(idx < s.len());
        assert(s[idx] == x);
    }
}


/// Resolve every dependency name of every task to the position of the first
/// task so named; refuse the first undefined name.
fn resolve_all(tasks: &Vec<TaskDefinition>) -> (r: Result<Vec<Vec<usize>>, Error>)
    ensures
        match r {
            Ok(deps) => {
                &&& deps@.len() == tasks@.len()
                &&& deps_view(deps@) == resolved_deps(tasks@)
                &&& all_deps_defined(tasks@)
                &&& forall|ii: int, kk: int|
                    0 <= ii < deps@.len() && 0 <= kk < deps@[ii]@.len()
                        ==> ((#[trigger] deps@[ii]@[kk]) as int) < tasks@.len()
            },
            Err(Error::UnknownDependency(nm)) => {
                &&& !name_defined(tasks@, nm@)
                &&& !all_deps_defined(tasks@)
            },
            Err(Error::CycleDetected) => false,
        },
{
    let n = tasks.len();
    let mut deps: Vec<Vec<usize>> = Vec::new();
    let mut i: usize = 0;
    while i < n
        invariant
            i <= n,
            n == tasks@.len(),
            deps@.len() == i as int,
            forall|ii: int| 0 <= ii < i
                ==> (#[trigger] deps@[ii])@ == resolved_deps(tasks@)[ii],
            forall|ii: int, kk: int|
                0 <= ii < deps@.len() && 0 <= kk < deps@[ii]@.len()
                    ==> ((#[trigger] deps@[ii]@[kk]) as int) < tasks@.len(),
            forall|ii: int, kk: int|
                0 <= ii < i && 0 <= kk < tasks@[ii].after@.len()
                    ==> name_defined(tasks@, (#[trigger] tasks@[ii].after@[kk])@),
        decreases n - i,
    {
        let mut row: Vec<usize> = Vec::new();
        let m = tasks[i].after.len();
        let mut k: usize = 0;
        while k < m
            invariant
                k <= m,
                i < n,
                n == tasks@.len(),
                m == tasks@[i as int].after@.len(),
                row@.len() == k as int,
                forall|kk: int| 0 <= kk < k
                    ==> (#[trigger] row@[kk]) as int
                        == first_index(tasks@, tasks@[i as int].after@[kk]@),
                forall|kk: int| 0 <= kk < row@.len()
                    ==> ((#[trigger] row@[kk]) as int) < tasks@.len(),
                forall|kk: int| 0 <= kk < k
                    ==> name_defined(tasks@, (#[trigger] tasks@[i as int].after@[kk])@),
            decreases m - k,
        {
            match find_index(tasks, &tasks[i].after[k]) {
                Some(d) => {
                    row.push(d);
                },
                None => {
                    proof {
                        if all_deps_defined(tasks@) {
                            assert(name_defined(tasks@, (tasks@[i as int].after@[k as int])@));
                            assert(false);
                        }
                    }
                    return Err(Error::UnknownDependency(tasks[i].after[k].clone()));
                },
            }
            k = k + 1;
        }
        proof {
            assert(row@ =~= resolved_deps(tasks@)[i as int]);
        }
        deps.push(row);
        i = i + 1;
    }
    proof {
        assert(all_deps_defined(tasks@));
        assert forall|ii: int| 0 <= ii < n
            implies deps_view(deps@)[ii] == resolved_deps(tasks@)[ii] by {
            assert(deps_view(deps@)[ii] == deps@[ii]@);
        }
        assert(deps_view(deps@) =~= resolved_deps(tasks@));
    }
    Ok(deps)
}

/// Appending a placeable node to a partial order preserves every invariant
/// of the placement loop: distinctness, range, the placed/member
/// correspondence, and the dependencies-first property.
proof fn lemma_place_one(deps: Seq<Vec<usize>>, placed: Seq<bool>, ord: Seq<usize>, i0: usize)
    requires
        deps.len() <= usize::MAX,
        placed.len() == deps.len(),
        forall|ii: int, kk: int|
            0 <= ii < deps.len() && 0 <= kk < deps[ii]@.len()
                ==> ((#[trigger] deps[ii]@[kk]) as int) < deps.len(),
        forall|kk: int| 0 <= kk < ord.len() ==> ((#[trigger] ord[kk]) as int) < deps.len(),
        ord.no_duplicates(),
        forall|u: int| 0 <= u < deps.len() ==> ((#[trigger] placed[u]) <==> ord.contains(u as usize)),
        forall|kk: int, d: int|
            0 <= kk < ord.len() && 0 <= d < deps[ord[kk] as int]@.len()
                ==> #[trigger] placed_before(ord, kk, deps[ord[kk] as int]@[d]),
        (i0 as int) < deps.len(),
        !placed[i0 as int],
        forall|k: int| 0 <= k < deps[i0 as int]@.len() ==> placed[(#[trigger] deps[i0 as int]@[k]) as int],
    ensures
        ord.push(i0).no_duplicates(),
        forall|kk: int|
            0 <= kk < ord.push(i0).len() ==> ((#[trigger] ord.push(i0)[kk]) as int) < deps.len(),
        forall|u: int|
            0 <= u < deps.len()
                ==> ((#[trigger] placed.update(i0 as int, true)[u])
                    <==> ord.push(i0).contains(u as usize)),
        forall|kk: int, d: int|
            0 <= kk < ord.push(i0).len() && 0 <= d < deps[ord.push(i0)[kk] as int]@.len()
                ==> #[trigger] placed_before(ord.push(i0), kk, deps[ord.push(i0)[kk] as int]@[d]),
{
    let ord2 = ord.push(i0);
    assert(!ord.contains(i0));
    assert forall|x: int, y: int| 0 <= x < ord2.len() && 0 <= y < ord2.len() && x != y
        implies ord2[x] != ord2[y] by {
        if x < ord.len() && y < ord.len() {
            assert(ord[x] != ord[y]);
        } else if x < ord.len() {
            if ord[x] == i0 {
                assert(ord.contains(i0));
            }
        } else {
            if ord[y] == i0 {
                assert(ord.contains(i0));
            }
        }
    }
    assert forall|u: int| 0 <= u < deps.len() implies
        ((#[trigger] placed.update(i0 as int, true)[u]) <==> ord2.contains(u as usize)) by {
        lemma_push_contains(ord, i0, u as usize);
    }
    assert forall|kk: int, d: int|
        0 <= kk < ord2.len() && 0 <= d < deps[ord2[kk] as int]@.len()
        implies #[trigger] placed_before(ord2, kk, deps[ord2[kk] as int]@[d]) by {
        if kk < ord.len() {
            assert(ord2[kk] == ord[kk]);
            assert(placed_before(ord, kk, deps[ord[kk] as int]@[d]));
            let j = choose|j: int| #![trigger ord[j]] 0 <= j < kk && ord[j] == deps[ord[kk] as int]@[d];
            assert(ord2[j] == ord[j]);
            assert(0 <= j < kk && ord2[j] == deps[ord2[kk] as int]@[d]);
        } else {
            assert(ord2[kk] == i0);
            let dep = deps[i0 as int]@[d];
            assert((dep as int) < deps.len());
            assert(placed[dep as int]);
            assert(ord.contains(dep));
            let j = choose|j: int| #![trigger ord[j]] 0 <= j < ord.len() && ord[j] == dep;
            assert(ord2[j] == dep);
            assert(0 <= j < kk && ord2[j] == deps[ord2[kk] as int]@[d]);
        }
    }
}

/// When the placement loop finds no placeable node while nodes remain, no
/// topological order of the whole relation exists.
proof fn lemma_no_ready_not_acyclic(deps: Seq<Vec<usize>>, placed: Seq<bool>, ord: Seq<usize>)
    requires
        deps.len() <= usize::MAX,
        placed.len() == deps.len(),
        ord.len() < deps.len(),
        ord.no_duplicates(),
        forall|u: int| 0 <= u < deps.len() ==> ((#[trigger] placed[u]) <==> ord.contains(u as usize)),
        forall|i: int|
            0 <= i < deps.len() && !(#[trigger] placed[i])
                ==> exists|k: int| 0 <= k < deps[i]@.len() && !placed[deps[i]@[k] as int],
    ensures
        !acyclic(deps_view(deps)),
{
    let n = deps.len() as int;
    if forall|u: int| 0 <= u < n ==> #[trigger] placed[u] {
        assert forall|u: usize| (u as int) < n implies ord.contains(u) by {
            assert(placed[u as int]);
        }
        lemma_distinct_cover_len(ord, n);
        assert(false);
    }
    let u0 = choose|u: int| 0 <= u < n && !placed[u];
    assert(0 <= u0 < deps_view(deps).len() && !placed[u0]);
    assert forall|ii: int| 0 <= ii < deps_view(deps).len() && !(#[trigger] placed[ii])
        implies exists|k: int|
            0 <= k < deps_view(deps)[ii].len() && !placed[deps_view(deps)[ii][k] as int] by {
        let k = choose|k: int| 0 <= k < deps[ii]@.len() && !placed[deps[ii]@[k] as int];
        assert(deps_view(deps)[ii][k] == deps[ii]@[k]);
    }
    lemma_stuck_not_acyclic(deps_view(deps), placed);
}

/// A full placement is a valid topological order of the dependency rows.
proof fn lemma_order_complete(deps: Seq<Vec<usize>>, ord: Seq<usize>)
    requires
        deps.len() <= usize::MAX,
        ord.len() == deps.len(),
        ord.no_duplicates(),
        forall|kk: int| 0 <= kk < ord.len() ==> ((#[trigger] ord[kk]) as int) < deps.len(),
        forall|kk: int, d: int|
            0 <= kk < ord.len() && 0 <= d < deps[ord[kk] as int]@.len()
                ==> #[trigger] placed_before(ord, kk, deps[ord[kk] as int]@[d]),
    ensures
        valid_topo_order(ord, deps_view(deps)),
{
    lemma_distinct_bounded_covers(ord, deps.len() as int);
    assert(deps_view(deps).len() == deps.len());
    assert forall|kk: int, d: int|
        0 <= kk < ord.len() && 0 <= d < deps_view(deps)[ord[kk] as int].len()
        implies #[trigger] placed_before(ord, kk, deps_view(deps)[ord[kk] as int][d]) by {
        assert(deps_view(deps)[ord[kk] as int] == deps[ord[kk] as int]@);
        assert(deps_view(deps)[ord[kk] as int][d] == deps[ord[kk] as int]@[d]);
        assert(placed_before(ord, kk, deps[ord[kk] as int]@[d]));
    }
}

/// Order the nodes so that every dependency stands before its dependents:
/// repeatedly place a node whose dependencies are all placed.  When no node
/// remains placeable the relation is cyclic and no such order exists at all.
#[verifier::rlimit(100)]
fn topo_sort(deps: &Vec<Vec<usize>>) -> (r: Result<Vec<usize>, Error>)
    requires
        forall|ii: int, kk: int|
            0 <= ii < deps@.len() && 0 <= kk < deps@[ii]@.len()
                ==> ((#[trigger] deps@[ii]@[kk]) as int) < deps@.len(),
    ensures
        match r {
            Ok(ord) => valid_topo_order(ord@, deps_view(deps@)),
            Err(Error::CycleDetected) => !acyclic(deps_view(deps@)),
            Err(Error::UnknownDependency(_)) => false,
        },
{
    let n = deps.len();
    let mut placed: Vec<bool> = Vec::new();
    while placed.len() < n
        invariant
            placed@.len() <= n as int,
            forall|ii: int| 0 <= ii < placed@.len() ==> !(#[trigger] placed@[ii]),
        decreases n - placed.len(),
    {
        placed.push(false);
    }

    let mut ord: Vec<usize> = Vec::new();
    while ord.len() < n
        invariant
            n == deps@.len(),
            forall|ii: int, kk: int|
                0 <= ii < deps@.len() && 0 <= kk < deps@[ii]@.len()
                    ==> ((#[trigger] deps@[ii]@[kk]) as int) < n as int,
            placed@.len() == n as int,
            ord@.len() <= n as int,
            forall|kk: int| 0 <= kk < ord@.len() ==> ((#[trigger] ord@[kk]) as int) < n as int,
            ord@.no_duplicates(),
            forall|u: int| 0 <= u < n ==> ((#[trigger] placed@[u]) <==> ord@.contains(u as usize)),
            forall|kk: int, d: int|
                0 <= kk < ord@.len() && 0 <= d < deps@[ord@[kk] as int]@.len()
                    ==> #[trigger] placed_before(ord@, kk, deps@[ord@[kk] as int]@[d]),
        decreases n - ord.len(),
    {
        match find_ready(deps, &placed) {
            None => {
                proof {
                    lemma_no_ready_not_acyclic(deps@, placed@, ord@);
                }
                return Err(Error::CycleDetected);
            },
            Some(i0) => {
                proof {
                    lemma_place_one(deps@, placed@, ord@, i0);
                }
                ord.push(i0);
                placed.set(i0, true);
            },
        }
    }

    proof {
        lemma_order_complete(deps@, ord@);
    }
    Ok(ord)
}

/// The length in characters of the longest task name.
fn longest_name(tasks: &Vec<TaskDefinition>) -> (l: usize)
    ensures
        l as int == max_name_len(tasks@),
{
    let n = tasks.len();
    let mut longest: usize = 0;
    let mut li: usize = 0;
    while li < n
        invariant
            li <= n,
            n == tasks@.len(),
            longest as int == max_name_len(tasks@.take(li as int)),
        decreases n - li,
    {
        let len = tasks[li].name.as_str().unicode_len();
        if len > longest {
            longest = len;
        }
        proof {
            assert(tasks@.take(li as int + 1).drop_last() =~= tasks@.take(li as int));
            assert(tasks@.take(li as int + 1).last() == tasks@[li as int]);
        }
        li = li + 1;
    }
    proof {
        assert(tasks@.take(n as int) =~= tasks@);
    }
    longest
}

impl TaskGraph {
    /// Build the graph from a configuration: resolve every dependency name
    /// to the first task so named, refuse unknown names and cyclic
    /// dependency relations, and fix the topological order once and for
    /// all.  Succeeds exactly when every dependency name is defined and the
    /// resolved relation is acyclic.
    pub fn build(config: Config) -> (r: Result<TaskGraph, Error>)
        ensures
            match r {
                Ok(g) => {
                    &&& g.wf()
                    &&& g.defs == config.tasks
                    &&& g.root_names == config.roots
                    &&& deps_view(g.deps@) == resolved_deps(config.tasks@)
                    &&& g.longest_task_name as int == max_name_len(config.tasks@)
                    &&& all_deps_defined(config.tasks@)
                    &&& acyclic(resolved_deps(config.tasks@))
                },
                Err(Error::UnknownDependency(nm)) => {
                    &&& !name_defined(config.tasks@, nm@)
                    &&& !all_deps_defined(config.tasks@)
                },
                Err(Error::CycleDetected) => {
                    &&& all_deps_defined(config.tasks@)
                    &&& !acyclic(resolved_deps(config.tasks@))
                },
            },
    {
        let Config { tasks, roots } = config;
        let deps = match resolve_all(&tasks) {
            Ok(deps) => deps,
            Err(e) => {
                return Err(e);
            },
        };
        let ord = match topo_sort(&deps) {
            Ok(ord) => ord,
            Err(e) => {
                return Err(e);
            },
        };
        let longest = longest_name(&tasks);
        proof {
            assert(acyclic(resolved_deps(tasks@))) by {
                assert(valid_topo_order(ord@, resolved_deps(tasks@)));
            }
        }
        Ok(TaskGraph {
            defs: tasks,
            deps,
            tasks_order: ord,
            root_names: roots,
            longest_task_name: longest,
        })
    }
}

} // verus!
