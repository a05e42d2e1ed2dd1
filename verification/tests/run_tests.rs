use devenv_tasks::engine::{
    decide, run_to_completion, ActionOutcome, CacheLookup, Decision,
};
use devenv_tasks::graph::{Config, TaskDefinition, TaskGraph};
use devenv_tasks::notify::ChangeNotifier;
use devenv_tasks::status::{Skipped, TaskCompleted, TaskStatus};
use devenv_tasks::summary::TasksStatus;

fn def(name: &str, after: &[&str], command: Option<&str>) -> TaskDefinition {
    TaskDefinition {
        name: name.to_string(),
        after: after.iter().map(|s| s.to_string()).collect(),
        command: command.map(|s| s.to_string()),
    }
}

fn succeed() -> ActionOutcome {
    ActionOutcome::Succeeded { duration: 10, output: None }
}

fn fail(msg: &str) -> ActionOutcome {
    ActionOutcome::Failed {
        duration: 10,
        failure: devenv_tasks::status::TaskFailure {
            error: msg.to_string(),
            stdout: vec![],
            stderr: vec![],
        },
    }
}

fn build(tasks: Vec<TaskDefinition>) -> TaskGraph {
    TaskGraph::build(Config { tasks, roots: vec![] }).expect("graph builds")
}

#[test]
fn decide_prefers_dependency_failure() {
    let d = decide(true, &CacheLookup::Hit("fp".to_string()), true);
    assert!(matches!(d, Decision::MarkDependencyFailed));
}

#[test]
fn decide_cache_hit_then_missing_command_then_run() {
    assert!(matches!(
        decide(false, &CacheLookup::Hit("fp".to_string()), true),
        Decision::SkipCached(fp) if fp == "fp"
    ));
    assert!(matches!(
        decide(false, &CacheLookup::Miss, false),
        Decision::SkipNotImplemented
    ));
    assert!(matches!(decide(false, &CacheLookup::Miss, true), Decision::Execute));
}

#[test]
fn run_chain_cascades_failure() {
    // a -> b -> c; a's own action fails, so b and c are foreclosed unrun.
    let g = build(vec![
        def("a", &[], Some("a")),
        def("b", &["a"], Some("b")),
        def("c", &["b"], Some("c")),
    ]);
    let cache = vec![CacheLookup::Miss, CacheLookup::Miss, CacheLookup::Miss];
    let actions = vec![fail("boom"), succeed(), succeed()];
    let (statuses, invoked) = run_to_completion(&g, &cache, actions);
    assert!(matches!(statuses[0], TaskStatus::Completed(TaskCompleted::Failed(_, _))));
    assert!(matches!(
        statuses[1],
        TaskStatus::Completed(TaskCompleted::DependencyFailed)
    ));
    assert!(matches!(
        statuses[2],
        TaskStatus::Completed(TaskCompleted::DependencyFailed)
    ));
    assert_eq!(invoked, vec![true, false, false]);
}

#[test]
fn run_diamond_keeps_independent_branch() {
    // a -> {b, c} -> d; b fails, d is foreclosed, c still succeeds.
    let g = build(vec![
        def("a", &[], Some("a")),
        def("b", &["a"], Some("b")),
        def("c", &["a"], Some("c")),
        def("d", &["b", "c"], Some("d")),
    ]);
    let cache = vec![
        CacheLookup::Miss,
        CacheLookup::Miss,
        CacheLookup::Miss,
        CacheLookup::Miss,
    ];
    let actions = vec![succeed(), fail("boom"), succeed(), succeed()];
    let (statuses, invoked) = run_to_completion(&g, &cache, actions);
    assert!(matches!(statuses[0], TaskStatus::Completed(TaskCompleted::Success(_, _))));
    assert!(matches!(statuses[1], TaskStatus::Completed(TaskCompleted::Failed(_, _))));
    assert!(matches!(statuses[2], TaskStatus::Completed(TaskCompleted::Success(_, _))));
    assert!(matches!(
        statuses[3],
        TaskStatus::Completed(TaskCompleted::DependencyFailed)
    ));
    assert_eq!(invoked, vec![true, true, true, false]);
}

#[test]
fn run_cache_hit_skips_without_running() {
    let g = build(vec![def("a", &[], Some("a")), def("b", &["a"], Some("b"))]);
    let cache = vec![CacheLookup::Hit("abc123".to_string()), CacheLookup::Miss];
    let actions = vec![fail("never runs"), succeed()];
    let (statuses, invoked) = run_to_completion(&g, &cache, actions);
    match &statuses[0] {
        TaskStatus::Completed(TaskCompleted::Skipped(Skipped::Cached(fp))) => {
            assert_eq!(fp, "abc123");
        },
        other => panic!("expected a cached skip, got {:?}", other),
    }
    assert!(matches!(statuses[1], TaskStatus::Completed(TaskCompleted::Success(_, _))));
    assert_eq!(invoked, vec![false, true]);
}

#[test]
fn run_skips_tasks_without_commands() {
    let g = build(vec![def("docs", &[], None), def("b", &["docs"], Some("b"))]);
    let cache = vec![CacheLookup::Miss, CacheLookup::Miss];
    let actions = vec![succeed(), succeed()];
    let (statuses, invoked) = run_to_completion(&g, &cache, actions);
    assert!(matches!(
        statuses[0],
        TaskStatus::Completed(TaskCompleted::Skipped(Skipped::NotImplemented))
    ));
    assert!(matches!(statuses[1], TaskStatus::Completed(TaskCompleted::Success(_, _))));
    assert_eq!(invoked, vec![false, true]);
}

#[test]
fn run_leaves_nothing_pending_or_running() {
    let g = build(vec![
        def("a", &[], Some("a")),
        def("b", &["a"], Some("b")),
        def("c", &["a"], None),
        def("d", &["b", "c"], Some("d")),
    ]);
    let cache = vec![
        CacheLookup::Miss,
        CacheLookup::Miss,
        CacheLookup::Miss,
        CacheLookup::Hit("zz".to_string()),
    ];
    let actions = vec![succeed(), fail("boom"), succeed(), succeed()];
    let (statuses, _) = run_to_completion(&g, &cache, actions);
    let t = TasksStatus::tally(&statuses);
    assert_eq!(t.pending, 0);
    assert_eq!(t.running, 0);
    assert!(t.all_settled());
    assert_eq!(t.succeeded + t.failed + t.skipped + t.dependency_failed, 4);
}

#[test]
fn notifier_reports_changes_since_last_look() {
    let mut n = ChangeNotifier::new();
    let seen = n.generation;
    assert!(!n.changed_since(seen));
    n.notify();
    assert!(n.changed_since(seen));
    let seen = n.generation;
    assert!(!n.changed_since(seen));
}
