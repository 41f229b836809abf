use puteron::control::{plan_set_direct_off, plan_set_direct_on};
use puteron::graph_edit::{build_task_noschedule, find_task};
use puteron::model::{Actual, DependencyType, TaskGraph, TaskKind};
use puteron::plan::ExecutePlan;
use puteron::set_direct::plan_set_direct;
use puteron::task_util::actual_set;

struct TestTask {
    id: &'static str,
    kind: TaskKind,
    on: bool,
    actual: Actual,
    upstream: Vec<(&'static str, DependencyType)>,
}

fn task_empty(id: &'static str, started: bool, upstream: Vec<(&'static str, DependencyType)>) -> TestTask {
    TestTask {
        id,
        kind: TaskKind::Empty,
        on: started,
        actual: if started { Actual::Started } else { Actual::Stopped },
        upstream,
    }
}

fn task_short(id: &'static str, on: bool, actual: Actual, upstream: Vec<(&'static str, DependencyType)>) -> TestTask {
    match actual {
        Actual::Starting => assert!(on),
        Actual::Stopping => assert!(!on),
        _ => {},
    }
    TestTask { id, kind: TaskKind::Short { started_action: None, scheduled: false }, on, actual, upstream }
}

fn task_long(id: &'static str, on: bool, actual: Actual, upstream: Vec<(&'static str, DependencyType)>) -> TestTask {
    match actual {
        Actual::Starting => assert!(on),
        Actual::Stopping => assert!(!on),
        _ => {},
    }
    TestTask { id, kind: TaskKind::Long, on, actual, upstream }
}

/// Builds the graph with every task off, sets the actual states, then turns on the
/// tasks that are on without starting anything.
fn build_state(tasks: Vec<TestTask>) -> TaskGraph {
    let mut g = TaskGraph::new();
    for t in &tasks {
        let ups: Vec<(usize, DependencyType)> =
            t.upstream.iter().map(|(name, dep)| (find_task(&g, &name.to_string()).unwrap(), *dep)).collect();
        let i = build_task_noschedule(&mut g, t.id.to_string(), t.kind, ups, false);
        actual_set(&mut g, i, t.actual);
    }
    let mut plan = ExecutePlan::new(g.len());
    for t in &tasks {
        if t.on {
            let i = find_task(&g, &t.id.to_string()).unwrap();
            plan_set_direct(&mut g, &mut plan, i, true, false);
        }
    }
    g
}

fn id(g: &TaskGraph, name: &str) -> usize {
    find_task(g, &name.to_string()).unwrap()
}

fn names(g: &TaskGraph, flags: &Vec<bool>) -> Vec<String> {
    let mut out: Vec<String> = ExecutePlan::members(flags).into_iter().map(|i| g.nodes[i].id.clone()).collect();
    out.sort();
    out
}

fn check(g: &TaskGraph, plan: ExecutePlan, start: &[&str], stop: &[&str], started: &[&str], stopped: &[&str]) {
    let mut errors = vec![];
    let mut expected_start: Vec<String> = start.iter().map(|x| x.to_string()).collect();
    expected_start.sort();
    let got_start = names(g, &plan.run);
    if got_start != expected_start {
        errors.push(format!("To start:\n  Expected: {:?}\n       Got: {:?}", expected_start, got_start));
    }
    let mut expected_stop: Vec<String> = stop.iter().map(|x| x.to_string()).collect();
    expected_stop.sort();
    let got_stop = names(g, &plan.stop);
    if got_stop != expected_stop {
        errors.push(format!("To stop:\n  Expected: {:?}\n       Got: {:?}", expected_stop, got_stop));
    }
    for task_id in started {
        if g.get_actual(id(g, task_id)) != Actual::Started {
            errors.push(format!("Expected [{}] started but isn't", task_id));
        }
    }
    for task_id in stopped {
        if g.get_actual(id(g, task_id)) != Actual::Stopped {
            errors.push(format!("Expected [{}] stopped but isn't", task_id));
        }
    }
    if !errors.is_empty() {
        panic!("Errors:\n{}", errors.join("\n"));
    }
}

fn new_plan(g: &TaskGraph) -> ExecutePlan {
    ExecutePlan::new(g.len())
}

#[test]
fn task_plan_test_single_on() {
    let mut g = build_state(vec![
        task_empty("a", false, vec![]),
    ]);
    let mut plan = new_plan(&g);
    let t = id(&g, "a");
    plan_set_direct_on(&mut g, &mut plan, t);
    check(&g, plan, &[], &[], &["a"], &[]);
}

#[test]
fn task_plan_test_single_on_proc() {
    let mut g = build_state(vec![
        task_long("a", false, Actual::Stopped, vec![]),
    ]);
    let mut plan = new_plan(&g);
    let t = id(&g, "a");
    plan_set_direct_on(&mut g, &mut plan, t);
    check(&g, plan, &["a"], &[], &[], &[]);
}

#[test]
fn task_plan_test_single_on_noop() {
    let mut g = build_state(vec![
        task_empty("a", true, vec![]),
    ]);
    let mut plan = new_plan(&g);
    let t = id(&g, "a");
    plan_set_direct_on(&mut g, &mut plan, t);
    check(&g, plan, &[], &[], &["a"], &[]);
}

#[test]
fn task_plan_test_single_off() {
    let mut g = build_state(vec![
        task_empty("a", true, vec![]),
    ]);
    let mut plan = new_plan(&g);
    let t = id(&g, "a");
    plan_set_direct_off(&mut g, &mut plan, t);
    check(&g, plan, &[], &[], &[], &["a"]);
}

#[test]
fn task_plan_test_single_off_proc() {
    let mut g = build_state(vec![
        task_long("a", true, Actual::Starting, vec![]),
    ]);
    let mut plan = new_plan(&g);
    let t = id(&g, "a");
    plan_set_direct_off(&mut g, &mut plan, t);
    check(&g, plan, &[], &["a"], &[], &[]);
}

#[test]
fn task_plan_test_single_off_proc_short() {
    let mut g = build_state(vec![
        task_short("a", true, Actual::Started, vec![]),
    ]);
    let mut plan = new_plan(&g);
    let t = id(&g, "a");
    plan_set_direct_off(&mut g, &mut plan, t);
    check(&g, plan, &[], &[], &[], &["a"]);
}

#[test]
fn task_plan_test_single_off_noop() {
    let mut g = build_state(vec![
        task_long("a", false, Actual::Stopped, vec![]),
    ]);
    let mut plan = new_plan(&g);
    let t = id(&g, "a");
    plan_set_direct_off(&mut g, &mut plan, t);
    check(&g, plan, &[], &[], &[], &["a"]);
}

#[test]
fn task_plan_test_start_strong_upstream() {
    let mut g = build_state(vec![
        task_empty("a", false, vec![]),
        task_empty("b", false, vec![("a", DependencyType::Strong)]),
    ]);
    let mut plan = new_plan(&g);
    let t = id(&g, "b");
    plan_set_direct_on(&mut g, &mut plan, t);
    check(&g, plan, &[], &[], &["a", "b"], &[]);
}

#[test]
fn task_plan_test_start_strong_upstream_proc() {
    let mut g = build_state(vec![
        task_empty("a", false, vec![]),
        task_long("b", false, Actual::Stopped, vec![("a", DependencyType::Strong)]),
    ]);
    let mut plan = new_plan(&g);
    let t = id(&g, "b");
    plan_set_direct_on(&mut g, &mut plan, t);
    check(&g, plan, &["b"], &[], &["a"], &[]);
}

#[test]
fn task_plan_test_start_weak_downstream() {
    let mut g = build_state(vec![
        task_empty("b", false, vec![]),
        task_long("c", true, Actual::Stopped, vec![("b", DependencyType::Weak)]),
    ]);
    let mut plan = new_plan(&g);
    let t = id(&g, "b");
    plan_set_direct_on(&mut g, &mut plan, t);
    check(&g, plan, &["c"], &[], &["b"], &[]);
}

#[test]
fn task_plan_test_start_strong_upstream_weak_downstream_1() {
    let mut g = build_state(vec![
        task_long("a", false, Actual::Stopped, vec![]),
        task_empty("b", false, vec![("a", DependencyType::Strong)]),
        task_long("c", true, Actual::Stopped, vec![("b", DependencyType::Weak)]),
    ]);
    let mut plan = new_plan(&g);
    let t = id(&g, "b");
    plan_set_direct_on(&mut g, &mut plan, t);
    check(&g, plan, &["a"], &[], &[], &[]);
}

#[test]
fn task_plan_test_start_strong_upstream_weak_downstream_2() {
    let mut g = build_state(vec![
        task_empty("a", false, vec![]),
        task_empty("b", false, vec![("a", DependencyType::Strong)]),
        task_long("c", true, Actual::Stopped, vec![("b", DependencyType::Weak)]),
    ]);
    let mut plan = new_plan(&g);
    let t = id(&g, "b");
    plan_set_direct_on(&mut g, &mut plan, t);
    check(&g, plan, &["c"], &[], &["a", "b"], &[]);
}

#[test]
fn task_plan_test_stop_strong_upstream() {
    let mut g = build_state(vec![
        task_long("a", false, Actual::Started, vec![]),
        task_empty("b", true, vec![("a", DependencyType::Strong)]),
    ]);
    let mut plan = new_plan(&g);
    let t = id(&g, "b");
    plan_set_direct_off(&mut g, &mut plan, t);
    check(&g, plan, &[], &["a"], &[], &["b"]);
}

#[test]
fn task_plan_test_stop_weak_downstream() {
    let mut g = build_state(vec![
        task_long("b", true, Actual::Started, vec![]),
        task_empty("c", true, vec![("b", DependencyType::Weak)]),
    ]);
    let mut plan = new_plan(&g);
    let t = id(&g, "b");
    plan_set_direct_off(&mut g, &mut plan, t);
    check(&g, plan, &[], &["b"], &[], &["c"]);
}

#[test]
fn task_plan_test_strong_downstream_dont_stop() {
    let mut g = build_state(vec![
        task_long("b", true, Actual::Started, vec![]),
        task_empty("c", true, vec![("b", DependencyType::Strong)]),
    ]);
    let mut plan = new_plan(&g);
    let t = id(&g, "b");
    plan_set_direct_off(&mut g, &mut plan, t);
    check(&g, plan, &[], &[], &[], &[]);
}

#[test]
fn task_plan_test_stop_strong_upstream_weak_downstream_1() {
    let mut g = build_state(vec![
        task_long("a", true, Actual::Started, vec![]),
        task_empty("b", true, vec![("a", DependencyType::Strong)]),
        task_long("c", true, Actual::Started, vec![("b", DependencyType::Weak)]),
    ]);
    let mut plan = new_plan(&g);
    let t = id(&g, "b");
    plan_set_direct_off(&mut g, &mut plan, t);
    check(&g, plan, &[], &["c"], &["a", "b"], &[]);
}

#[test]
fn task_plan_test_stop_strong_upstream_weak_downstream_2() {
    let mut g = build_state(vec![
        task_long("a", false, Actual::Started, vec![]),
        task_empty("b", true, vec![("a", DependencyType::Strong)]),
        task_empty("c", true, vec![("b", DependencyType::Weak)]),
    ]);
    let mut plan = new_plan(&g);
    let t = id(&g, "b");
    plan_set_direct_off(&mut g, &mut plan, t);
    check(&g, plan, &[], &["a"], &[], &["b", "c"]);
}
