use devenv_tasks::graph::{Config, Error, TaskDefinition, TaskGraph};
use devenv_tasks::status::{Skipped, TaskCompleted, TaskState, TaskStatus};
use devenv_tasks::summary::TasksStatus;

fn def(name: &str, after: &[&str], command: Option<&str>) -> TaskDefinition {
    TaskDefinition {
        name: name.to_string(),
        after: after.iter().map(|s| s.to_string()).collect(),
        command: command.map(|s| s.to_string()),
    }
}

fn position(order: &[usize], node: usize) -> usize {
    order.iter().position(|&i| i == node).expect("node missing from order")
}

#[test]
fn chain_topological_order() {
    let config = Config {
        tasks: vec![
            def("build", &[], Some("make")),
            def("test", &["build"], Some("make test")),
            def("deploy", &["test"], Some("make deploy")),
        ],
        roots: vec!["deploy".to_string()],
    };
    let g = TaskGraph::build(config).expect("chain is acyclic");
    assert_eq!(g.tasks_order.len(), 3);
    let pb = position(&g.tasks_order, 0);
    let pt = position(&g.tasks_order, 1);
    let pd = position(&g.tasks_order, 2);
    assert!(pb < pt && pt < pd);
    assert_eq!(g.root_names, vec!["deploy".to_string()]);
    assert_eq!(g.longest_task_name, 6);
}

#[test]
fn diamond_topological_order() {
    let config = Config {
        tasks: vec![
            def("a", &[], Some("a")),
            def("b", &["a"], Some("b")),
            def("c", &["a"], Some("c")),
            def("d", &["b", "c"], Some("d")),
        ],
        roots: vec!["d".to_string()],
    };
    let g = TaskGraph::build(config).expect("diamond is acyclic");
    let pa = position(&g.tasks_order, 0);
    let pb = position(&g.tasks_order, 1);
    let pc = position(&g.tasks_order, 2);
    let pd = position(&g.tasks_order, 3);
    assert!(pa < pb && pa < pc);
    assert!(pb < pd && pc < pd);
}

#[test]
fn cycle_is_refused() {
    let config = Config {
        tasks: vec![def("x", &["y"], None), def("y", &["x"], None)],
        roots: vec![],
    };
    match TaskGraph::build(config) {
        Err(Error::CycleDetected) => {},
        _ => panic!("expected a cycle error"),
    }
}

#[test]
fn self_cycle_is_refused() {
    let config = Config { tasks: vec![def("x", &["x"], None)], roots: vec![] };
    match TaskGraph::build(config) {
        Err(Error::CycleDetected) => {},
        _ => panic!("expected a cycle error"),
    }
}

#[test]
fn unknown_dependency_is_refused() {
    let config = Config {
        tasks: vec![def("a", &["missing"], None)],
        roots: vec![],
    };
    match TaskGraph::build(config) {
        Err(Error::UnknownDependency(nm)) => assert_eq!(nm, "missing"),
        _ => panic!("expected an unknown-dependency error"),
    }
}

#[test]
fn state_cell_runs_and_completes() {
    let mut cell = TaskState::new(def("build", &[], Some("make")));
    assert!(matches!(cell.read(), TaskStatus::Pending));
    cell.begin_run(17);
    assert!(matches!(cell.read(), TaskStatus::Running(17)));
    cell.complete(TaskCompleted::Success(5, None));
    assert!(matches!(
        cell.read(),
        TaskStatus::Completed(TaskCompleted::Success(5, None))
    ));
}

#[test]
fn state_cell_skips_without_running() {
    let mut cell = TaskState::new(def("docs", &[], None));
    cell.complete(TaskCompleted::Skipped(Skipped::NotImplemented));
    assert!(matches!(
        cell.read(),
        TaskStatus::Completed(TaskCompleted::Skipped(Skipped::NotImplemented))
    ));
}

#[test]
fn tally_counts_each_class() {
    let statuses = vec![
        TaskStatus::Pending,
        TaskStatus::Running(3),
        TaskStatus::Completed(TaskCompleted::Success(1, None)),
        TaskStatus::Completed(TaskCompleted::Skipped(Skipped::Cached("fp".to_string()))),
        TaskStatus::Completed(TaskCompleted::DependencyFailed),
        TaskStatus::Completed(TaskCompleted::DependencyFailed),
    ];
    let t = TasksStatus::tally(&statuses);
    assert_eq!(t.pending, 1);
    assert_eq!(t.running, 1);
    assert_eq!(t.succeeded, 1);
    assert_eq!(t.failed, 0);
    assert_eq!(t.skipped, 1);
    assert_eq!(t.dependency_failed, 2);
    assert!(!t.all_settled());
}

#[test]
fn empty_summary_is_settled() {
    let t = TasksStatus::new();
    assert!(t.all_settled());
    assert_eq!(t.pending + t.running + t.succeeded, 0);
}
