use depsched::dep_graph::DependencyGraph;
use depsched::types::{Task, Work};

/// A minimal deferred work unit: reports a fixed message when run.
struct Job(&'static str);

impl Work for Job {
    fn run(&self) -> Result<String, String> {
        Ok(self.0.to_string())
    }
}

fn task(id: usize, name: &str, reads: &[&str], writes: &[&str], msg: &'static str) -> Task<Job> {
    Task {
        id,
        name: name.to_string(),
        reads: reads.iter().map(|r| r.to_string()).collect(),
        writes: writes.iter().map(|w| w.to_string()).collect(),
        work: Job(msg),
    }
}

#[test]
fn test_no_conflicts() {
    let tasks = vec![
        task(0, "A", &["account_1"], &["account_2"], "A done"),
        task(1, "B", &["account_3"], &["account_4"], "B done"),
    ];

    assert!(!tasks[0].conflicts_with(&tasks[1]));
    assert!(!tasks[1].conflicts_with(&tasks[0]));
}

#[test]
fn test_write_write_conflict() {
    let task_a = task(0, "A", &[], &["account_1"], "A");
    let task_b = task(1, "B", &[], &["account_1"], "B");

    assert!(task_a.conflicts_with(&task_b));
    assert!(task_b.conflicts_with(&task_a));
}

#[test]
fn test_read_write_conflict() {
    let task_a = task(0, "A", &[], &["account_1"], "A");
    let task_b = task(1, "B", &["account_1"], &[], "B");

    assert!(task_b.conflicts_with(&task_a));
}

#[test]
fn test_execution_levels() {
    let tasks = vec![
        task(0, "A", &[], &["x"], "A"),
        task(1, "B", &[], &["y"], "B"),
        task(2, "C", &["x"], &["z"], "C"),
    ];

    let graph = DependencyGraph::from_tasks(tasks);
    let levels = graph.execution_levels().unwrap();

    assert_eq!(levels.len(), 2);
    assert_eq!(levels[0].len(), 2); // A and B
    assert_eq!(levels[1].len(), 1); // C
}

#[test]
fn test_execution_levels_contents() {
    // A and B touch no common resource and fill level 0; C reads what A
    // writes and lands in level 1.
    let tasks = vec![
        task(0, "A", &[], &["x"], "A"),
        task(1, "B", &[], &["y"], "B"),
        task(2, "C", &["x"], &["z"], "C"),
    ];

    let graph = DependencyGraph::from_tasks(tasks);
    let levels = graph.execution_levels().unwrap();

    assert_eq!(levels, vec![vec![0usize, 1usize], vec![2usize]]);
}

#[test]
fn test_write_write_dependency_map() {
    // Two writers of the same account: the later one depends on the earlier
    // one, and they run in two levels.
    let tasks = vec![
        task(0, "A", &[], &["acct1"], "A"),
        task(1, "B", &[], &["acct1"], "B"),
    ];

    let graph = DependencyGraph::from_tasks(tasks);
    assert_eq!(graph.dependencies.len(), 2);
    assert_eq!(graph.dependencies[0], Vec::<usize>::new());
    assert_eq!(graph.dependencies[1], vec![0usize]);

    let levels = graph.execution_levels().unwrap();
    assert_eq!(levels, vec![vec![0usize], vec![1usize]]);
}

#[test]
fn test_disjoint_tasks_single_level() {
    // Three tasks with fully disjoint resource sets share one level.
    let tasks = vec![
        task(0, "A", &["a"], &["b"], "A"),
        task(1, "B", &["c"], &["d"], "B"),
        task(2, "C", &["e"], &["f"], "C"),
    ];

    let graph = DependencyGraph::from_tasks(tasks);
    let levels = graph.execution_levels().unwrap();

    assert_eq!(levels, vec![vec![0usize, 1usize, 2usize]]);
}

#[test]
fn test_chain_levels() {
    // A chain through read-after-write plus one independent task: the
    // independent task is placed in the earliest level, not an arbitrary
    // later one.
    let tasks = vec![
        task(0, "A", &[], &["x"], "A"),
        task(1, "B", &["x"], &["y"], "B"),
        task(2, "C", &["y"], &[], "C"),
        task(3, "D", &[], &[], "D"),
    ];

    let graph = DependencyGraph::from_tasks(tasks);
    let levels = graph.execution_levels().unwrap();

    assert_eq!(levels, vec![vec![0usize, 3usize], vec![1usize], vec![2usize]]);
}

#[test]
fn test_ids_assigned_by_position() {
    // The builder does not trust caller-supplied ids: position wins.
    let tasks = vec![
        task(7, "A", &[], &["x"], "A"),
        task(7, "B", &["x"], &[], "B"),
    ];

    let graph = DependencyGraph::from_tasks(tasks);
    assert_eq!(graph.tasks[0].id, 0);
    assert_eq!(graph.tasks[1].id, 1);
    assert_eq!(graph.tasks[0].name, "A".to_string());
    assert_eq!(graph.tasks[1].name, "B".to_string());
    assert_eq!(graph.dependencies[1], vec![0usize]);
}

#[test]
fn test_empty_input() {
    let graph = DependencyGraph::<Job>::from_tasks(Vec::new());
    assert_eq!(graph.tasks.len(), 0);
    assert_eq!(graph.dependencies.len(), 0);
    let levels = graph.execution_levels().unwrap();
    assert_eq!(levels.len(), 0);
}

#[test]
fn test_injected_cycle_detected() {
    // A dependency map that violates "later depends only on earlier":
    // 0 waits on 1 and 1 waits on 0. Leveling reports the stuck ids
    // instead of panicking or looping.
    let graph = DependencyGraph::<Job> {
        tasks: vec![task(0, "A", &[], &[], "A"), task(1, "B", &[], &[], "B")],
        dependencies: vec![vec![1usize], vec![0usize]],
    };

    let err = graph.execution_levels().unwrap_err();
    assert_eq!(err.stuck, vec![0usize, 1usize]);
}

#[test]
fn test_self_dependency_detected() {
    let graph = DependencyGraph::<Job> {
        tasks: vec![task(0, "A", &[], &[], "A")],
        dependencies: vec![vec![0usize]],
    };

    let err = graph.execution_levels().unwrap_err();
    assert_eq!(err.stuck, vec![0usize]);
}

#[test]
fn test_out_of_range_dependency_detected() {
    // An id pointing outside the graph can never be satisfied; only its
    // owner is reported stuck, the rest is leveled.
    let graph = DependencyGraph::<Job> {
        tasks: vec![task(0, "A", &[], &[], "A"), task(1, "B", &[], &[], "B")],
        dependencies: vec![vec![5usize], vec![]],
    };

    let err = graph.execution_levels().unwrap_err();
    assert_eq!(err.stuck, vec![0usize]);
}

#[test]
fn test_partial_cycle_reports_only_stuck() {
    // Task 0 is runnable; 1 and 2 wait on each other. The report names
    // exactly the ids that can never run.
    let graph = DependencyGraph::<Job> {
        tasks: vec![
            task(0, "A", &[], &[], "A"),
            task(1, "B", &[], &[], "B"),
            task(2, "C", &[], &[], "C"),
        ],
        dependencies: vec![vec![], vec![2usize], vec![1usize]],
    };

    let err = graph.execution_levels().unwrap_err();
    assert_eq!(err.stuck, vec![1usize, 2usize]);
}

#[test]
fn test_task_names_lookup() {
    let tasks = vec![
        task(0, "alpha", &[], &["x"], "A"),
        task(1, "beta", &["x"], &[], "B"),
    ];

    let graph = DependencyGraph::from_tasks(tasks);
    let names = graph.task_names(&graph.dependencies[1]);
    assert_eq!(names, vec!["alpha".to_string()]);
    let names = graph.task_names(&vec![1usize, 0usize]);
    assert_eq!(names, vec!["beta".to_string(), "alpha".to_string()]);
}

#[test]
fn test_visualize_report() {
    let tasks = vec![
        task(0, "A", &[], &["x"], "A"),
        task(1, "B", &[], &["y"], "B"),
        task(2, "C", &["x"], &["z"], "C"),
    ];

    let graph = DependencyGraph::from_tasks(tasks);
    let levels = graph.execution_levels().unwrap();
    let report = graph.visualize(&levels);

    let expected = "=== Dependency Graph ===\n\
                    Task A: no dependencies\n\
                    Task B: no dependencies\n\
                    Task C: depends on A\n\
                    === Execution Levels ===\n\
                    Level: A B (can run in parallel)\n\
                    Level: C (can run in parallel)\n";
    assert_eq!(report, expected);
}

#[test]
fn test_work_is_deferred_and_runnable() {
    let t = task(0, "A", &[], &["x"], "A done");
    assert_eq!(t.work.run(), Ok("A done".to_string()));
}

#[test]
fn test_conflict_symmetry_mixed_directions() {
    // Reader before writer and writer before reader conflict the same way.
    let reader = task(0, "R", &["r1"], &[], "R");
    let writer = task(1, "W", &[], &["r1"], "W");

    assert!(reader.conflicts_with(&writer));
    assert!(writer.conflicts_with(&reader));

    // Read-read overlap alone never conflicts.
    let reader_b = task(2, "R2", &["r1"], &[], "R2");
    assert!(!reader.conflicts_with(&reader_b));
    assert!(!reader_b.conflicts_with(&reader));
}
