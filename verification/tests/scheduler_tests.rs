use taskflow::executor::scheduler::{dependencies_fit, Scheduler};
use taskflow::executor::{run_outcome, RunOutcome, MAX_ITERATIONS};
use taskflow::name_map::NameMap;
use taskflow::parser::parse_config;

fn deps_from(entries: &[(&str, &[&str])]) -> NameMap<Vec<String>> {
    let mut m: NameMap<Vec<String>> = NameMap::new();
    for (k, list) in entries {
        m.insert(k.to_string(), list.iter().map(|s| s.to_string()).collect());
    }
    m
}

fn name(s: &Scheduler, id: usize) -> String {
    s.task_name(id).clone()
}

/// Runs every ready task at once, round after round, and returns the names
/// in the order they were handed out.
fn run_all(s: &mut Scheduler) -> Vec<String> {
    let mut order = Vec::new();
    loop {
        let mut round = Vec::new();
        while let Some(id) = s.pop_ready() {
            round.push(id);
        }
        if round.is_empty() {
            break;
        }
        for id in round {
            assert!(s.is_running(id));
            order.push(name(s, id));
            s.complete(id);
            assert!(!s.is_running(id));
        }
    }
    order
}

#[test]
fn chain_runs_in_dependency_order() {
    // a waits for nothing, b waits for a, c waits for b.
    let deps = deps_from(&[("a", &["b"]), ("b", &["c"]), ("c", &[])]);
    assert!(dependencies_fit(&deps));
    let mut s = Scheduler::new(&deps);
    assert_eq!(s.total(), 3);
    assert_eq!(s.executed(), 0);
    assert_eq!(run_all(&mut s), vec!["a", "b", "c"]);
    assert_eq!(s.executed(), 3);
    assert!(s.all_executed());
}

#[test]
fn only_tasks_without_upstream_start_ready() {
    let deps = deps_from(&[("a", &["c"]), ("b", &["c"]), ("c", &[])]);
    let mut s = Scheduler::new(&deps);
    let first = s.pop_ready().unwrap();
    let second = s.pop_ready().unwrap();
    assert_eq!(name(&s, first), "a");
    assert_eq!(name(&s, second), "b");
    assert_eq!(s.pop_ready(), None);
    // c waits for both.
    assert_eq!(s.complete(first), Vec::<usize>::new());
    assert_eq!(s.pop_ready(), None);
    let added = s.complete(second);
    assert_eq!(added.len(), 1);
    assert_eq!(name(&s, added[0]), "c");
    assert_eq!(s.pop_ready(), Some(added[0]));
}

#[test]
fn diamond_runs_each_task_once() {
    let deps = deps_from(&[("root", &["left", "right"]), ("left", &["join"]), ("right", &["join"]), ("join", &[])]);
    let mut s = Scheduler::new(&deps);
    let order = run_all(&mut s);
    assert_eq!(order, vec!["root", "left", "right", "join"]);
    assert!(s.all_executed());
}

#[test]
fn a_task_listed_twice_waits_for_both_entries() {
    let deps = deps_from(&[("a", &["b", "b"]), ("b", &[])]);
    let mut s = Scheduler::new(&deps);
    let a = s.pop_ready().unwrap();
    assert_eq!(s.pop_ready(), None);
    let added = s.complete(a);
    assert_eq!(added.len(), 1);
    assert_eq!(name(&s, added[0]), "b");
}

#[test]
fn cycle_stalls_with_tasks_left() {
    // x and y wait for each other; z waits for nothing.
    let deps = deps_from(&[("x", &["y"]), ("y", &["x"]), ("z", &[])]);
    assert!(dependencies_fit(&deps));
    let mut s = Scheduler::new(&deps);
    let order = run_all(&mut s);
    assert_eq!(order, vec!["z"]);
    assert_eq!(s.executed(), 1);
    assert!(!s.all_executed());
    assert_eq!(s.pop_ready(), None);
}

#[test]
fn scheduler_from_parsed_configuration() {
    let text = "[deploy]\ndepends_on = build, test\n[build]\n[test]\ndepends_on = build\n";
    let (_, deps) = parse_config(text);
    assert!(dependencies_fit(&deps));
    let mut s = Scheduler::new(&deps);
    assert_eq!(run_all(&mut s), vec!["build", "test", "deploy"]);
}

#[test]
fn unknown_listed_task_does_not_fit() {
    let deps = deps_from(&[("a", &["ghost"])]);
    assert!(!dependencies_fit(&deps));
}

#[test]
fn too_many_entries_for_one_task_do_not_fit() {
    let many: Vec<&str> = vec!["b"; 65535];
    let deps = deps_from(&[("a", &many), ("b", &[])]);
    assert!(dependencies_fit(&deps));
    let more: Vec<&str> = vec!["b"; 65536];
    let deps = deps_from(&[("a", &more), ("b", &[])]);
    assert!(!dependencies_fit(&deps));
    let split = deps_from(&[("a", &many), ("c", &["b"]), ("b", &[])]);
    assert!(!dependencies_fit(&split));
}

#[test]
fn empty_map_is_done_at_once() {
    let deps: NameMap<Vec<String>> = NameMap::new();
    assert!(dependencies_fit(&deps));
    let mut s = Scheduler::new(&deps);
    assert_eq!(s.total(), 0);
    assert!(s.all_executed());
    assert_eq!(s.pop_ready(), None);
    assert!(!s.is_running(0));
}

#[test]
fn outcome_of_a_run() {
    assert_eq!(MAX_ITERATIONS, 10);
    assert_eq!(run_outcome(4, 4, 0), RunOutcome::AllExecuted);
    assert_eq!(run_outcome(4, 4, 10), RunOutcome::AllExecuted);
    assert_eq!(run_outcome(2, 4, 3), RunOutcome::CyclicDependency);
    assert_eq!(run_outcome(2, 4, 9), RunOutcome::CyclicDependency);
    assert_eq!(run_outcome(2, 4, 10), RunOutcome::TimedOut);
    assert_eq!(run_outcome(0, 0, 10), RunOutcome::AllExecuted);
}

#[test]
fn two_tasks_run_upstream_first() {
    let deps = deps_from(&[("a", &["b"]), ("b", &[])]);
    let mut s = Scheduler::new(&deps);
    assert_eq!(run_all(&mut s), vec!["a", "b"]);
    assert!(s.all_executed());
}

#[test]
fn task_waiting_on_itself_never_runs() {
    let deps = deps_from(&[("a", &["a"]), ("b", &[])]);
    assert!(dependencies_fit(&deps));
    let mut s = Scheduler::new(&deps);
    assert_eq!(run_all(&mut s), vec!["b"]);
    assert!(!s.all_executed());
    assert_eq!(run_outcome(s.executed(), s.total(), MAX_ITERATIONS), RunOutcome::TimedOut);
}

#[test]
fn task_behind_a_cycle_never_runs() {
    // x and y wait for each other; z waits for y.
    let deps = deps_from(&[("x", &["y"]), ("y", &["x", "z"]), ("z", &[])]);
    let mut s = Scheduler::new(&deps);
    assert!(run_all(&mut s).is_empty());
    assert_eq!(s.executed(), 0);
    for id in 0..s.total() {
        assert!(!s.is_running(id));
    }
}
