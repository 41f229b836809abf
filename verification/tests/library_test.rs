use puteron::control::{plan_set_direct_off, plan_set_direct_on, sync_actual_should_start_downstream};
use puteron::delete::delete_task_recursive_off;
use puteron::events::{defer_blocked_deletes, event_started, event_stopped, event_stopping, execute_plan_actual};
use puteron::graph_edit::{build_task_noschedule, delete_task_immediate, find_task, validate_new_task, ValidationErrorKind};
use puteron::interface::{watch_snapshot, EventType, RulePeriod, Timezone};
use puteron::json_merge::{merge, JsonValue};
use puteron::model::{Actual, DependencyType, ShortTaskStartedAction, TaskGraph, TaskKind};
use puteron::plan::ExecutePlan;
use puteron::queries::{
    get_status, list_blocking_start, list_blocking_stop, list_downstream, list_tasks, list_upstream, list_user_on,
    wait_ready,
};
use puteron::requests::{task_add, task_delete, task_on_off, RequestError};
use puteron::task_dir::{group_task_files, task_of_file_name};
use puteron::restart::{jitter, watcher_timeout, RestartCounter, JITTER_STEPS};
use puteron::sanity::{sanity_check, SanityError};
use puteron::schedule::{calc_next_delay, Rule, RuleDaily, RuleWeekly, Schedule, ScheduleEvent, TimeOfDay};
use puteron::spec_order::{order_specs, NewSpec, OrderError};
use puteron::paths::{ipc_path, run_dir, run_path};
use puteron::supervise::{process_end, wait_step, ProcessEnd, WaitStep};
use puteron::spec_files::files_changed;
use puteron::systemd::{is_service, other_unit_meta, service_meta, started_file_name, unit_result_ok, UnitMeta};
use puteron::task_util::{actual_set, get_short_task_started_action, is_control_effective_on, transitive_on_set};
use puteron::time::{duration_text, parse_minute_second, parse_simple_duration, DurationParseError, MinuteSecond, SimpleDuration, SimpleDurationUnit};

fn add(g: &mut TaskGraph, plan: &mut ExecutePlan, name: &str, kind: TaskKind, ups: &[(&str, DependencyType)], on: bool) {
    let upstream: Vec<(String, DependencyType)> = ups.iter().map(|(n, d)| (n.to_string(), *d)).collect();
    let r = task_add(g, plan, name.to_string(), kind, &upstream, on, false, true, false);
    assert!(r.is_ok());
}

fn idx(g: &TaskGraph, name: &str) -> usize {
    find_task(g, &name.to_string()).unwrap()
}

fn control_errors(g: &TaskGraph) -> usize {
    let plan = ExecutePlan::new(g.len());
    sanity_check(g, &plan)
        .into_iter()
        .filter(|e| matches!(e, SanityError::TransitiveOnMismatch { .. } | SanityError::AwueoMismatch { .. }))
        .count()
}

#[test]
fn effective_on_needs_awueo_and_on() {
    let mut g = TaskGraph::new();
    let mut plan = ExecutePlan::new(0);
    add(&mut g, &mut plan, "a", TaskKind::Empty, &[], false);
    add(&mut g, &mut plan, "b", TaskKind::Long, &[("a", DependencyType::Weak)], false);
    let b = idx(&g, "b");
    assert!(!is_control_effective_on(&g, b));
    task_on_off(&mut g, &mut plan, &"b".to_string(), true).ok().unwrap();
    // b is on, but its weak upstream is off
    assert!(g.get_direct_on(b));
    assert!(!g.get_awueo(b));
    assert!(!is_control_effective_on(&g, b));
    task_on_off(&mut g, &mut plan, &"a".to_string(), true).ok().unwrap();
    assert!(g.get_awueo(b));
    assert!(is_control_effective_on(&g, b));
}

#[test]
fn short_task_started_action_defaults() {
    assert_eq!(get_short_task_started_action(None, false), ShortTaskStartedAction::NoAction);
    assert_eq!(get_short_task_started_action(None, true), ShortTaskStartedAction::TurnOff);
    assert_eq!(get_short_task_started_action(Some(ShortTaskStartedAction::Delete), true), ShortTaskStartedAction::Delete);
}

#[test]
fn transitive_on_follows_strong_downstream() {
    let mut g = TaskGraph::new();
    let mut plan = ExecutePlan::new(0);
    add(&mut g, &mut plan, "db", TaskKind::Long, &[], false);
    add(&mut g, &mut plan, "app", TaskKind::Long, &[("db", DependencyType::Strong)], false);
    let db = idx(&g, "db");
    let app = idx(&g, "app");
    task_on_off(&mut g, &mut plan, &"app".to_string(), true).ok().unwrap();
    assert!(g.get_transitive_on(db));
    assert!(!g.get_direct_on(db));
    assert!(plan.run[db]);
    assert!(!plan.run[app]);
    assert_eq!(control_errors(&g), 0);
    let mut plan = ExecutePlan::new(g.len());
    task_on_off(&mut g, &mut plan, &"app".to_string(), false).ok().unwrap();
    assert!(!g.get_transitive_on(db));
    assert_eq!(control_errors(&g), 0);
}

#[test]
fn on_off_unknown_task() {
    let mut g = TaskGraph::new();
    let mut plan = ExecutePlan::new(0);
    assert!(matches!(task_on_off(&mut g, &mut plan, &"x".to_string(), true), Err(RequestError::UnknownTask)));
}

#[test]
fn validate_reports_missing_and_turn_off_upstreams() {
    let mut g = TaskGraph::new();
    let mut plan = ExecutePlan::new(0);
    add(
        &mut g,
        &mut plan,
        "backup",
        TaskKind::Short { started_action: Some(ShortTaskStartedAction::TurnOff), scheduled: false },
        &[],
        false,
    );
    let ups = vec![("missing".to_string(), DependencyType::Strong), ("backup".to_string(), DependencyType::Strong)];
    let errors = validate_new_task(&g, &ups);
    assert_eq!(errors.len(), 2);
    assert_eq!(errors[0].kind, ValidationErrorKind::MissingUpstream);
    assert_eq!(errors[0].upstream, "missing");
    assert_eq!(errors[1].kind, ValidationErrorKind::UpstreamTurnsOff);
    assert_eq!(errors[1].upstream, "backup");
}

#[test]
fn add_errors() {
    let mut g = TaskGraph::new();
    let mut plan = ExecutePlan::new(0);
    add(&mut g, &mut plan, "a", TaskKind::Long, &[], false);
    let none: Vec<(String, DependencyType)> = vec![];
    assert!(matches!(
        task_add(&mut g, &mut plan, "a".to_string(), TaskKind::Long, &none, false, false, true, false),
        Err(RequestError::AlreadyExists)
    ));
    // same specification: nothing happens
    assert!(task_add(&mut g, &mut plan, "a".to_string(), TaskKind::Long, &none, false, false, false, true).is_ok());
    assert_eq!(g.len(), 1);
    let a = idx(&g, "a");
    actual_set(&mut g, a, Actual::Started);
    assert!(matches!(
        task_add(&mut g, &mut plan, "a".to_string(), TaskKind::Empty, &none, false, false, false, false),
        Err(RequestError::NotStopped)
    ));
    let bad = vec![("nope".to_string(), DependencyType::Weak)];
    match task_add(&mut g, &mut plan, "b".to_string(), TaskKind::Long, &bad, false, false, false, false) {
        Err(RequestError::Invalid(errs)) => {
            assert_eq!(errs.len(), 1);
            assert_eq!(errs[0].kind, ValidationErrorKind::MissingUpstream);
        },
        _ => panic!("expected invalid"),
    }
}

#[test]
fn add_replaces_stopped_task() {
    let mut g = TaskGraph::new();
    let mut plan = ExecutePlan::new(0);
    add(&mut g, &mut plan, "a", TaskKind::Long, &[], false);
    let none: Vec<(String, DependencyType)> = vec![];
    assert!(task_add(&mut g, &mut plan, "a".to_string(), TaskKind::Empty, &none, true, false, false, false).is_ok());
    let a = idx(&g, "a");
    assert_eq!(a, 1);
    assert!(!g.is_present(0));
    // the new empty task was turned on and started at once
    assert!(g.get_direct_on(a));
    assert_eq!(g.get_actual(a), Actual::Started);
}

#[test]
fn delete_errors_and_success() {
    let mut g = TaskGraph::new();
    let mut plan = ExecutePlan::new(0);
    add(&mut g, &mut plan, "a", TaskKind::Empty, &[], false);
    add(&mut g, &mut plan, "b", TaskKind::Empty, &[("a", DependencyType::Strong)], false);
    // unknown: already deleted
    assert!(task_delete(&mut g, &mut plan, &"x".to_string(), false, false).is_ok());
    match task_delete(&mut g, &mut plan, &"a".to_string(), false, false) {
        Err(RequestError::DownstreamNotMarked(d)) => assert_eq!(d, "b"),
        _ => panic!("expected downstream not marked"),
    }
    let b = idx(&g, "b");
    puteron::delete::mark_delete_when_stopped(&mut g, b);
    // b is still present, so a is marked to be deleted once it can be
    let a = idx(&g, "a");
    assert!(task_delete(&mut g, &mut plan, &"a".to_string(), false, false).is_ok());
    assert!(g.is_present(a));
    assert!(g.get_delete_when_stopped(a));
    task_on_off(&mut g, &mut plan, &"b".to_string(), true).ok().unwrap();
    assert_eq!(g.get_actual(b), Actual::Started);
    // a running task is marked, not deleted
    assert!(task_delete(&mut g, &mut plan, &"b".to_string(), false, false).is_ok());
    assert!(g.is_present(b));
    let mut plan = ExecutePlan::new(g.len());
    task_on_off(&mut g, &mut plan, &"b".to_string(), false).ok().unwrap();
    assert!(task_delete(&mut g, &mut plan, &"b".to_string(), false, false).is_ok());
    assert!(find_task(&g, &"b".to_string()).is_none());
    assert!(task_delete(&mut g, &mut plan, &"a".to_string(), false, false).is_ok());
    assert!(list_tasks(&g).is_empty());
}

#[test]
fn recursive_delete_off() {
    let mut g = TaskGraph::new();
    let mut plan = ExecutePlan::new(0);
    add(&mut g, &mut plan, "a", TaskKind::Empty, &[], false);
    add(&mut g, &mut plan, "b", TaskKind::Empty, &[("a", DependencyType::Strong)], true);
    add(&mut g, &mut plan, "c", TaskKind::Long, &[("a", DependencyType::Strong)], false);
    add(&mut g, &mut plan, "other", TaskKind::Empty, &[], true);
    let a = idx(&g, "a");
    assert_eq!(g.get_actual(a), Actual::Started);
    let mut plan = ExecutePlan::new(g.len());
    delete_task_recursive_off(&mut g, &mut plan, a, true);
    assert_eq!(list_tasks(&g), vec!["other".to_string()]);
    assert_eq!(control_errors(&g), 0);
}

#[test]
fn recursive_delete_marks_running() {
    let mut g = TaskGraph::new();
    let mut plan = ExecutePlan::new(0);
    add(&mut g, &mut plan, "a", TaskKind::Long, &[], false);
    let a = idx(&g, "a");
    actual_set(&mut g, a, Actual::Started);
    let mut plan = ExecutePlan::new(g.len());
    delete_task_recursive_off(&mut g, &mut plan, a, true);
    assert!(g.is_present(a));
    assert!(g.get_delete_when_stopped(a));
    assert!(plan.stop[a]);
}

#[test]
fn listing_queries() {
    let mut g = TaskGraph::new();
    let mut plan = ExecutePlan::new(0);
    add(&mut g, &mut plan, "a", TaskKind::Long, &[], false);
    add(&mut g, &mut plan, "b", TaskKind::Empty, &[("a", DependencyType::Strong)], false);
    add(&mut g, &mut plan, "c", TaskKind::Empty, &[("b", DependencyType::Weak)], false);
    task_on_off(&mut g, &mut plan, &"b".to_string(), true).ok().unwrap();
    assert_eq!(list_tasks(&g), vec!["a".to_string(), "b".to_string(), "c".to_string()]);
    assert_eq!(list_user_on(&g), vec!["b".to_string()]);
    let s = get_status(&g, &"a".to_string()).ok().unwrap();
    assert!(!s.direct_on);
    assert!(s.transitive_on);
    assert!(s.effective_on);
    assert_eq!(s.actual, Actual::Stopped);
    assert!(matches!(get_status(&g, &"zz".to_string()), Err(RequestError::UnknownTask)));
    assert_eq!(wait_ready(&g, &"a".to_string(), Actual::Stopped).ok(), Some(true));
    assert_eq!(wait_ready(&g, &"a".to_string(), Actual::Started).ok(), Some(false));
    // b waits for its stopped upstream a
    let b = idx(&g, "b");
    let a = idx(&g, "a");
    assert_eq!(list_blocking_start(&g, b), vec![a]);
    actual_set(&mut g, b, Actual::Started);
    assert_eq!(list_blocking_start(&g, b), vec![a]);
    actual_set(&mut g, a, Actual::Started);
    actual_set(&mut g, b, Actual::Started);
    assert_eq!(list_blocking_start(&g, b), Vec::<usize>::new());
    // a waits for its running downstream b, whose own downstream c is stopped
    assert_eq!(list_blocking_stop(&g, a), vec![b]);
    actual_set(&mut g, a, Actual::Stopped);
    assert_eq!(list_blocking_start(&g, b), vec![a]);
    actual_set(&mut g, b, Actual::Stopped);
    assert_eq!(list_blocking_stop(&g, a), Vec::<usize>::new());
    // a stopped task with stopped upstreams only is its own blocker
    assert_eq!(list_blocking_start(&g, a), vec![a]);
    let up = list_upstream(&g, &"c".to_string()).ok().unwrap();
    assert_eq!(up.len(), 1);
    assert_eq!(up[0].0, "b");
    assert_eq!(up[0].1.dependency_type, DependencyType::Weak);
    assert_eq!(up[0].1.upstream.len(), 1);
    assert_eq!(up[0].1.upstream[0].0, "a");
    let down = list_downstream(&g, &"a".to_string()).ok().unwrap();
    assert_eq!(down.len(), 1);
    assert_eq!(down[0].0, "b");
    assert_eq!(down[0].1.effective_dependency_type, DependencyType::Strong);
    assert_eq!(down[0].1.downstream[0].0, "c");
    assert_eq!(down[0].1.downstream[0].1.effective_dependency_type, DependencyType::Weak);
}

#[test]
fn sanity_check_reports_mismatch() {
    let mut g = TaskGraph::new();
    let mut plan = ExecutePlan::new(0);
    add(&mut g, &mut plan, "a", TaskKind::Long, &[], false);
    assert!(sanity_check(&g, &ExecutePlan::new(g.len())).is_empty());
    transitive_on_set(&mut g, 0, true);
    let errors = sanity_check(&g, &ExecutePlan::new(g.len()));
    assert_eq!(errors[0], SanityError::TransitiveOnMismatch { task: 0, want: false });
    // a is now effectively on but not starting
    assert!(errors.contains(&SanityError::OnNotStarting { task: 0 }));
}

#[test]
fn events_started_stopped_stopping() {
    let mut g = TaskGraph::new();
    let mut plan = ExecutePlan::new(0);
    add(&mut g, &mut plan, "a", TaskKind::Long, &[], false);
    add(&mut g, &mut plan, "b", TaskKind::Long, &[("a", DependencyType::Strong)], false);
    add(&mut g, &mut plan, "job", TaskKind::Short { started_action: None, scheduled: true }, &[], false);
    let a = idx(&g, "a");
    let b = idx(&g, "b");
    let job = idx(&g, "job");
    let mut plan = ExecutePlan::new(g.len());
    task_on_off(&mut g, &mut plan, &"b".to_string(), true).ok().unwrap();
    execute_plan_actual(&mut g, &plan, &vec![true; 3]);
    assert_eq!(g.get_actual(a), Actual::Starting);
    // a started: b can run now
    let mut plan = ExecutePlan::new(g.len());
    assert!(event_started(&mut g, &mut plan, a));
    assert_eq!(g.get_actual(a), Actual::Started);
    assert!(plan.log_started[a]);
    assert!(plan.run[b]);
    // a started again while not starting: ignored
    let mut plan = ExecutePlan::new(g.len());
    assert!(!event_started(&mut g, &mut plan, a));
    // b running, a's process exits: b is stopped at once
    actual_set(&mut g, b, Actual::Started);
    let mut plan = ExecutePlan::new(g.len());
    event_stopping(&mut g, &mut plan, a);
    assert_eq!(g.get_actual(a), Actual::Stopping);
    assert!(plan.stop[b]);
    // a stopped but still on: run again
    let mut plan = ExecutePlan::new(g.len());
    event_stopped(&mut g, &mut plan, a);
    assert!(plan.run[a]);
    // a scheduled short task turns itself off once started
    let mut plan = ExecutePlan::new(g.len());
    task_on_off(&mut g, &mut plan, &"job".to_string(), true).ok().unwrap();
    actual_set(&mut g, job, Actual::Starting);
    let mut plan = ExecutePlan::new(g.len());
    assert!(event_started(&mut g, &mut plan, job));
    assert!(!g.get_direct_on(job));
    assert_eq!(g.get_actual(job), Actual::Stopped);
}

#[test]
fn execute_plan_deletes_and_stops() {
    let mut g = TaskGraph::new();
    let mut plan = ExecutePlan::new(0);
    add(&mut g, &mut plan, "a", TaskKind::Long, &[], false);
    add(&mut g, &mut plan, "b", TaskKind::Empty, &[], false);
    actual_set(&mut g, 0, Actual::Started);
    let mut plan = ExecutePlan::new(2);
    plan.stop[0] = true;
    plan.delete[1] = true;
    execute_plan_actual(&mut g, &plan, &vec![true, true]);
    assert_eq!(g.get_actual(0), Actual::Stopping);
    assert!(!g.is_present(1));
    // without a stop handle nothing changes
    let mut g2 = TaskGraph::new();
    let mut p2 = ExecutePlan::new(0);
    add(&mut g2, &mut p2, "a", TaskKind::Long, &[], false);
    actual_set(&mut g2, 0, Actual::Started);
    let mut p2 = ExecutePlan::new(1);
    p2.stop[0] = true;
    execute_plan_actual(&mut g2, &p2, &vec![false]);
    assert_eq!(g2.get_actual(0), Actual::Started);
}

#[test]
fn blocked_deletes_are_deferred() {
    let mut g = TaskGraph::new();
    let mut plan = ExecutePlan::new(0);
    add(&mut g, &mut plan, "a", TaskKind::Empty, &[], false);
    add(&mut g, &mut plan, "b", TaskKind::Empty, &[("a", DependencyType::Weak)], false);
    add(&mut g, &mut plan, "c", TaskKind::Empty, &[], false);
    add(&mut g, &mut plan, "d", TaskKind::Empty, &[("c", DependencyType::Weak)], false);
    // a is to go but b (present, not to go) depends on it; c and d both go
    let mut plan = ExecutePlan::new(4);
    plan.delete[0] = true;
    plan.delete[2] = true;
    plan.delete[3] = true;
    defer_blocked_deletes(&mut g, &mut plan);
    assert_eq!(plan.delete, vec![false, false, true, true]);
    assert!(g.get_delete_when_stopped(0));
    execute_plan_actual(&mut g, &plan, &vec![false; 4]);
    assert!(g.is_present(0) && g.is_present(1));
    assert!(!g.is_present(2) && !g.is_present(3));
}

#[test]
fn start_downstream_offers_root_first() {
    let mut g = TaskGraph::new();
    let mut plan = ExecutePlan::new(0);
    add(&mut g, &mut plan, "a", TaskKind::Empty, &[], false);
    add(&mut g, &mut plan, "b", TaskKind::Empty, &[("a", DependencyType::Strong)], false);
    build_task_noschedule(&mut g, "c".to_string(), TaskKind::Long, vec![(1, DependencyType::Weak)], false);
    let mut plan = ExecutePlan::new(g.len());
    // turn both on without starting anything
    puteron::set_direct::plan_set_direct(&mut g, &mut plan, 1, true, false);
    puteron::set_direct::plan_set_direct(&mut g, &mut plan, 2, true, false);
    sync_actual_should_start_downstream(&mut g, &mut plan, 0);
    assert_eq!(g.get_actual(0), Actual::Started);
    assert_eq!(g.get_actual(1), Actual::Started);
    assert!(plan.run[2]);
}

#[test]
fn deleting_off_task_keeps_control() {
    let mut g = TaskGraph::new();
    let mut plan = ExecutePlan::new(0);
    add(&mut g, &mut plan, "a", TaskKind::Empty, &[], false);
    add(&mut g, &mut plan, "b", TaskKind::Empty, &[("a", DependencyType::Strong)], false);
    delete_task_immediate(&mut g, 1);
    assert_eq!(control_errors(&g), 0);
    assert!(!g.is_present(1));
}

#[test]
fn watch_snapshot_lists_state() {
    let mut g = TaskGraph::new();
    let mut plan = ExecutePlan::new(0);
    add(&mut g, &mut plan, "a", TaskKind::Empty, &[], true);
    let events = watch_snapshot(&g);
    assert_eq!(events.len(), 4);
    assert_eq!(events[0].event, EventType::DirectOn(true));
    assert_eq!(events[1].event, EventType::TransitiveOn(false));
    assert_eq!(events[2].event, EventType::EffectiveOn(true));
    assert_eq!(events[3].event, EventType::Actual(Actual::Started));
}

#[test]
fn order_specs_orders_and_reports() {
    let built = vec!["base".to_string()];
    let specs = vec![
        NewSpec { name: "app".to_string(), upstream: vec!["db".to_string(), "base".to_string()] },
        NewSpec { name: "db".to_string(), upstream: vec!["base".to_string()] },
    ];
    let (order, err) = order_specs(&built, &specs);
    assert_eq!(order, vec![1, 0]);
    assert!(err.is_none());
    let specs = vec![
        NewSpec { name: "a".to_string(), upstream: vec!["ghost".to_string()] },
        NewSpec { name: "b".to_string(), upstream: vec![] },
    ];
    let (order, err) = order_specs(&built, &specs);
    assert_eq!(order, vec![1]);
    match err {
        Some(OrderError::MissingUpstreams(m)) => {
            assert_eq!(m.len(), 1);
            assert_eq!(m[0].0, 0);
            assert_eq!(m[0].1, "ghost");
        },
        _ => panic!("expected missing upstreams"),
    }
    let specs = vec![
        NewSpec { name: "x".to_string(), upstream: vec!["y".to_string()] },
        NewSpec { name: "y".to_string(), upstream: vec!["x".to_string()] },
    ];
    let (order, err) = order_specs(&built, &specs);
    assert!(order.is_empty());
    match err {
        Some(OrderError::Cycle(c)) => assert_eq!(c, vec![0, 1]),
        _ => panic!("expected cycle"),
    }
}

fn obj(entries: Vec<(&str, JsonValue)>) -> JsonValue {
    JsonValue::Object(entries.into_iter().map(|(k, v)| (k.to_string(), v)).collect())
}

fn get<'a>(v: &'a JsonValue, k: &str) -> Option<&'a JsonValue> {
    match v {
        JsonValue::Object(e) => e.iter().find(|(kk, _)| kk == k).map(|(_, v)| v),
        _ => None,
    }
}

#[test]
fn json_merge_overlays_objects() {
    let lower = obj(vec![
        ("type", JsonValue::Str("long".to_string())),
        ("command", obj(vec![("command", JsonValue::Array(vec![JsonValue::Str("x".to_string())])), ("env", JsonValue::Null)])),
    ]);
    let upper = obj(vec![
        ("default_on", JsonValue::Bool(true)),
        ("command", obj(vec![("env", JsonValue::Number("1".to_string()))])),
    ]);
    let m = merge(lower, upper);
    assert!(matches!(get(&m, "type"), Some(JsonValue::Str(s)) if s == "long"));
    assert!(matches!(get(&m, "default_on"), Some(JsonValue::Bool(true))));
    let cmd = get(&m, "command").unwrap();
    assert!(matches!(get(cmd, "command"), Some(JsonValue::Array(a)) if a.len() == 1));
    assert!(matches!(get(cmd, "env"), Some(JsonValue::Number(n)) if n == "1"));
    // a non-object upper replaces
    let m = merge(obj(vec![("a", JsonValue::Null)]), JsonValue::Bool(false));
    assert!(matches!(m, JsonValue::Bool(false)));
}

#[test]
fn simple_duration_parse() {
    let d = parse_simple_duration("30s").ok().unwrap();
    assert_eq!(d, SimpleDuration { count: 30, unit: SimpleDurationUnit::Second });
    assert_eq!(d.to_secs(), 30);
    let d = parse_simple_duration("5m").ok().unwrap();
    assert_eq!(d.to_secs(), 300);
    assert_eq!(d.suffix(), "m");
    let d = parse_simple_duration("2h").ok().unwrap();
    assert_eq!(d.to_secs(), 7200);
    match parse_simple_duration("10d") {
        Err(DurationParseError::UnknownUnit(u)) => assert_eq!(u, "d"),
        _ => panic!("expected unknown unit"),
    }
    assert!(matches!(parse_simple_duration("abc"), Err(DurationParseError::BadFormat)));
    assert!(matches!(parse_simple_duration("10"), Err(DurationParseError::BadFormat)));
    assert!(matches!(parse_simple_duration("10S"), Err(DurationParseError::BadFormat)));
    assert!(matches!(parse_simple_duration("99999999999999999999s"), Err(DurationParseError::CountTooLarge)));
}

#[test]
fn minute_second_parse() {
    assert_eq!(parse_minute_second("5"), Some(MinuteSecond { minute: 5, second: 0 }));
    assert_eq!(parse_minute_second("05:30"), Some(MinuteSecond { minute: 5, second: 30 }));
    assert_eq!(parse_minute_second("59:59"), Some(MinuteSecond { minute: 59, second: 59 }));
    assert_eq!(parse_minute_second("60"), None);
    assert_eq!(parse_minute_second("5:7"), None);
    assert_eq!(parse_minute_second(""), None);
}

#[test]
fn restart_counter_doubles() {
    let c = RestartCounter::new(None, None);
    assert_eq!(c.min, 60);
    assert_eq!(c.max, 60);
    assert_eq!(c.max_count, 0);
    let one = SimpleDuration { count: 1, unit: SimpleDurationUnit::Second };
    let ten = SimpleDuration { count: 10, unit: SimpleDurationUnit::Second };
    let mut c = RestartCounter::new(Some(one), Some(ten));
    assert_eq!(c.max_count, 4);
    let (s, n) = c.next_delay();
    assert_eq!(s, 1);
    assert!(n < 1_000_000_000);
    let (s, _) = c.next_delay();
    assert!(s >= 2 && s < 4);
    c.next_delay();
    c.next_delay();
    let (s, _) = c.next_delay();
    // capped at max
    assert!(s >= 10 && s < 20);
    c.reset();
    assert_eq!(c.count, 0);
    // max below min is raised to min
    let c = RestartCounter::new(Some(ten), Some(one));
    assert_eq!(c.max, 10);
    assert_eq!(c.max_count, 0);
}

#[test]
fn restart_jitter_fraction() {
    assert_eq!(jitter(10, 0), (10, 0));
    assert_eq!(jitter(10, JITTER_STEPS - 1), (19, 999_999_997));
    assert_eq!(jitter(60, JITTER_STEPS / 2), (89, 999_999_993));
    assert_eq!(jitter(3, 1_234_567), (3, 862_335));
    assert_eq!(jitter(0, 5), (0, 0));
}

#[test]
fn watcher_timeout_is_ten_seconds() {
    assert_eq!(watcher_timeout(), 10);
}

#[test]
fn next_delays() {
    let p = Rule::Period(RulePeriod { period: SimpleDuration { count: 2, unit: SimpleDurationUnit::Minute }, scattered: true });
    assert_eq!(calc_next_delay(1_000, &p, false), Some(120));
    let d = calc_next_delay(1_000, &p, true).unwrap();
    assert!(d < 120);
    // 1970-01-01 00:16:40 UTC; hourly at :30:00 is in 13 min 20 s
    let h = Rule::Hourly(MinuteSecond { minute: 30, second: 0 });
    assert_eq!(calc_next_delay(1_000, &h, false), Some(800));
    // at :10:00 is already past, so the next hour
    let h = Rule::Hourly(MinuteSecond { minute: 10, second: 0 });
    assert_eq!(calc_next_delay(1_000, &h, false), Some(3600 - 400));
    let daily = Rule::Daily(RuleDaily { time: TimeOfDay { secs: 0 }, tz: Some(Timezone::Utc) });
    assert_eq!(calc_next_delay(1_000, &daily, false), Some(86400 - 1000));
    // 1970-01-01 was a Thursday; next Monday 00:00 is 4 days later
    let weekly = Rule::Weekly(RuleWeekly { weekday: 0, time: TimeOfDay { secs: 0 }, tz: None });
    assert_eq!(calc_next_delay(0, &weekly, false), Some(4 * 86400));
    let monthly = Rule::Monthly(puteron::schedule::RuleMonthly { day: 31, time: TimeOfDay { secs: 0 }, tz: None });
    // 1970-02-01: February has no 31st, so its last day (the 28th)
    assert_eq!(calc_next_delay(31 * 86400, &monthly, false), Some(27 * 86400));
}

#[test]
fn yearly_rule_moves_to_next_year() {
    let yearly = Rule::Yearly(puteron::schedule::RuleYearly { month: 3, day: 1, time: TimeOfDay { secs: 3600 }, tz: None });
    // 1970-03-01 is day 59
    assert_eq!(calc_next_delay(0, &yearly, false), Some(59 * 86400 + 3600));
    // on 1970-03-02 the next is 1971-03-01, day 424
    assert_eq!(calc_next_delay(60 * 86400, &yearly, false), Some((424 - 60) * 86400 + 3600));
    let bad_month = Rule::Yearly(puteron::schedule::RuleYearly { month: 13, day: 1, time: TimeOfDay { secs: 0 }, tz: None });
    assert_eq!(calc_next_delay(0, &bad_month, false), None);
}

#[test]
fn monthly_rule_clamps_each_month() {
    let monthly = Rule::Monthly(puteron::schedule::RuleMonthly { day: 31, time: TimeOfDay { secs: 0 }, tz: Some(Timezone::Utc) });
    // 2024-02-29 12:00 UTC is day 19782; the next time is 2024-03-31, day 19813
    let now = 19782 * 86400 + 43200;
    assert_eq!(calc_next_delay(now, &monthly, false), Some(31 * 86400 - 43200));
}

#[test]
fn yearly_rule_from_a_longer_month() {
    let yearly = Rule::Yearly(puteron::schedule::RuleYearly { month: 2, day: 1, time: TimeOfDay { secs: 0 }, tz: Some(Timezone::Utc) });
    // 2024-01-31 is day 19753; 1 February is a day later
    assert_eq!(calc_next_delay(19753 * 86400, &yearly, false), Some(86400));
    let daily = Rule::Daily(RuleDaily { time: TimeOfDay { secs: 0 }, tz: None });
    assert_eq!(calc_next_delay(u64::MAX, &daily, false), None);
}

#[test]
fn schedule_pops_earliest_last_added() {
    let mut s = Schedule::new();
    s.insert(10, ScheduleEvent::Rule { task: 0, rule: 0 });
    s.insert(5, ScheduleEvent::Rule { task: 1, rule: 0 });
    s.insert(5, ScheduleEvent::WatcherExpire(7));
    s.insert(20, ScheduleEvent::Rule { task: 1, rule: 1 });
    assert_eq!(s.pop_first(), Some((5, ScheduleEvent::WatcherExpire(7))));
    assert!(s.remove_task(1));
    assert!(!s.remove_task(1));
    assert_eq!(s.pop_first(), Some((10, ScheduleEvent::Rule { task: 0, rule: 0 })));
    assert_eq!(s.pop_first(), None);
}

#[test]
fn off_task_stops_downstream_first() {
    let mut g = TaskGraph::new();
    let mut plan = ExecutePlan::new(0);
    add(&mut g, &mut plan, "a", TaskKind::Long, &[], true);
    add(&mut g, &mut plan, "b", TaskKind::Long, &[("a", DependencyType::Weak)], true);
    actual_set(&mut g, 0, Actual::Started);
    actual_set(&mut g, 1, Actual::Started);
    let mut plan = ExecutePlan::new(2);
    plan_set_direct_off(&mut g, &mut plan, 0);
    // b must stop before a
    assert!(plan.stop[1]);
    assert!(!plan.stop[0]);
    actual_set(&mut g, 1, Actual::Stopped);
    let mut plan = ExecutePlan::new(2);
    event_stopped(&mut g, &mut plan, 1);
    assert!(plan.stop[0]);
    let mut plan = ExecutePlan::new(2);
    plan_set_direct_on(&mut g, &mut plan, 0);
    assert!(g.get_direct_on(0));
}

#[test]
fn task_file_names() {
    assert_eq!(task_of_file_name("web.json"), Some("web".to_string()));
    assert_eq!(task_of_file_name("web"), Some("web".to_string()));
    assert_eq!(task_of_file_name("a.b.json"), Some("a.b".to_string()));
    assert_eq!(task_of_file_name(".hidden"), Some(".hidden".to_string()));
    assert_eq!(task_of_file_name(".hidden.json"), Some(".hidden".to_string()));
    assert_eq!(task_of_file_name("notes.txt"), None);
    assert_eq!(task_of_file_name("web.json.bak"), None);
    assert_eq!(task_of_file_name("web."), None);
    assert_eq!(task_of_file_name(""), Some("".to_string()));
}

#[test]
fn task_files_grouped_by_task() {
    let names: Vec<String> =
        ["b.json", "a.json", "readme.md", "b.json", "c", "a.json"].iter().map(|s| s.to_string()).collect();
    let groups = group_task_files(&names);
    assert_eq!(
        groups,
        vec![("b".to_string(), vec![0, 3]), ("a".to_string(), vec![1, 5]), ("c".to_string(), vec![4])]
    );
    assert_eq!(group_task_files(&vec![]), vec![]);
}

fn control_state(g: &TaskGraph) -> Vec<(bool, bool, bool, bool)> {
    (0..g.len())
        .map(|i| (g.get_direct_on(i), g.get_transitive_on(i), g.get_awueo(i), is_control_effective_on(g, i)))
        .collect()
}

#[test]
fn on_then_off_restores_control_state() {
    let mut g = TaskGraph::new();
    let mut plan = ExecutePlan::new(0);
    add(&mut g, &mut plan, "db", TaskKind::Long, &[], false);
    add(&mut g, &mut plan, "app", TaskKind::Long, &[("db", DependencyType::Strong)], false);
    add(&mut g, &mut plan, "monitor", TaskKind::Long, &[("app", DependencyType::Weak)], true);
    add(&mut g, &mut plan, "cache", TaskKind::Empty, &[("db", DependencyType::Strong)], true);
    let before = control_state(&g);
    let mut plan = ExecutePlan::new(g.len());
    assert!(task_on_off(&mut g, &mut plan, &"app".to_string(), true).is_ok());
    assert_ne!(control_state(&g), before);
    assert!(is_control_effective_on(&g, idx(&g, "monitor")));
    assert!(task_on_off(&mut g, &mut plan, &"app".to_string(), false).is_ok());
    assert_eq!(control_state(&g), before);
    // and the other way round: off then on again
    assert!(task_on_off(&mut g, &mut plan, &"cache".to_string(), false).is_ok());
    assert!(!g.get_transitive_on(idx(&g, "db")));
    assert!(task_on_off(&mut g, &mut plan, &"cache".to_string(), true).is_ok());
    assert_eq!(control_state(&g), before);
}

#[test]
fn duration_text_reads_back() {
    let cases = [
        SimpleDuration { count: 30, unit: SimpleDurationUnit::Second },
        SimpleDuration { count: 0, unit: SimpleDurationUnit::Minute },
        SimpleDuration { count: 7, unit: SimpleDurationUnit::Hour },
        SimpleDuration { count: u64::MAX, unit: SimpleDurationUnit::Hour },
    ];
    assert_eq!(duration_text(&cases[0]), "30s");
    assert_eq!(duration_text(&cases[1]), "0m");
    assert_eq!(duration_text(&cases[3]), "18446744073709551615h");
    for d in cases {
        assert_eq!(parse_simple_duration(&duration_text(&d)).ok(), Some(d));
    }
}

#[test]
fn pick_delay_first_not_past() {
    assert_eq!(puteron::schedule::pick_delay(100, Some(150), Some(300)), Some(50));
    assert_eq!(puteron::schedule::pick_delay(100, Some(50), Some(300)), Some(200));
    assert_eq!(puteron::schedule::pick_delay(100, Some(50), Some(60)), None);
    assert_eq!(puteron::schedule::pick_delay(100, None, Some(300)), None);
    assert_eq!(puteron::schedule::pick_delay(100, Some(50), None), None);
}

#[test]
fn marked_tasks_are_swept_once_stopped() {
    let mut g = TaskGraph::new();
    let mut plan = ExecutePlan::new(0);
    add(&mut g, &mut plan, "a", TaskKind::Empty, &[], false);
    add(&mut g, &mut plan, "b", TaskKind::Empty, &[("a", DependencyType::Strong)], false);
    add(&mut g, &mut plan, "c", TaskKind::Empty, &[], true);
    let (a, b, c) = (idx(&g, "a"), idx(&g, "b"), idx(&g, "c"));
    puteron::delete::mark_delete_when_stopped(&mut g, a);
    puteron::delete::mark_delete_when_stopped(&mut g, b);
    puteron::delete::mark_delete_when_stopped(&mut g, c);
    puteron::delete::sweep_marked(&mut g);
    // b goes, then a (nothing downstream of it is left); c is on and started
    assert!(!g.is_present(a));
    assert!(!g.is_present(b));
    assert!(g.is_present(c));
}

#[test]
fn spec_files_layer_in_order() {
    let files: Vec<Vec<u8>> = vec![
        br#"{"type": "long", "command": {"command": ["x"], "env": null}}"#.to_vec(),
        b"not json".to_vec(),
        br#"{"default_on": true, "command": {"env": 1}}"#.to_vec(),
    ];
    let (value, hashes, ok) = puteron::spec_files::merge_spec_files(&files);
    assert_eq!(ok, vec![true, false, true]);
    assert_eq!(hashes.len(), 3);
    assert!(hashes.iter().all(|h| h.len() == 32));
    let m = value.unwrap();
    assert!(matches!(get(&m, "type"), Some(JsonValue::Str(s)) if s == "long"));
    assert!(matches!(get(&m, "default_on"), Some(JsonValue::Bool(true))));
    let cmd = get(&m, "command").unwrap();
    assert!(matches!(get(cmd, "command"), Some(JsonValue::Array(a)) if a.len() == 1));
    assert!(matches!(get(cmd, "env"), Some(JsonValue::Number(n)) if n == "1"));
    // the digest of "abc"
    let (none, h, ok) = puteron::spec_files::merge_spec_files(&vec![b"abc".to_vec()]);
    assert!(none.is_none());
    assert_eq!(ok, vec![false]);
    assert_eq!(h[0][..4], [0xba, 0x78, 0x16, 0xbf]);
    assert_eq!(h[0][28..], [0xf2, 0x00, 0x15, 0xad]);
}

#[test]
fn restart_counter_doubling_bounds() {
    let ten = SimpleDuration { count: 10, unit: SimpleDurationUnit::Second };
    let eighty = SimpleDuration { count: 80, unit: SimpleDurationUnit::Second };
    let mut c = RestartCounter::new(Some(ten), Some(eighty));
    assert_eq!(c.max_count, 3);
    // 10 * 2^3 >= 80 and 10 * 2^2 < 80
    assert!(c.min * 8 >= c.max && c.min * 4 < c.max);
    for base in [10u64, 20, 40, 80, 80] {
        let (s, n) = c.try_next_delay().unwrap();
        assert!(s >= base);
        assert!(s * 1_000_000_000 + n as u64 <= 2 * base * 1_000_000_000);
    }
    assert_eq!(c.count, 5);
    let two_minutes = SimpleDuration { count: 2, unit: SimpleDurationUnit::Minute };
    let half_minute = SimpleDuration { count: 30, unit: SimpleDurationUnit::Second };
    let c = RestartCounter::new(Some(two_minutes), Some(half_minute));
    assert_eq!(c.max, 120);
}

#[test]
fn restart_counter_past_bounds_is_refused() {
    let one = SimpleDuration { count: 1, unit: SimpleDurationUnit::Second };
    let mut c = RestartCounter::new(Some(one), Some(one));
    c.count = u32::MAX;
    assert_eq!(c.try_next_delay(), None);
    assert_eq!(c.count, u32::MAX);
}

#[test]
fn schedule_lists_ascending_stable() {
    let mut s = Schedule::new();
    s.insert(30, ScheduleEvent::Rule { task: 0, rule: 0 });
    s.insert(10, ScheduleEvent::Rule { task: 1, rule: 0 });
    s.insert(30, ScheduleEvent::Rule { task: 2, rule: 0 });
    s.insert(20, ScheduleEvent::WatcherExpire(7));
    s.insert(10, ScheduleEvent::Rule { task: 3, rule: 1 });
    let out = s.ascending();
    assert_eq!(
        out,
        vec![
            (10, ScheduleEvent::Rule { task: 1, rule: 0 }),
            (10, ScheduleEvent::Rule { task: 3, rule: 1 }),
            (20, ScheduleEvent::WatcherExpire(7)),
            (30, ScheduleEvent::Rule { task: 0, rule: 0 }),
            (30, ScheduleEvent::Rule { task: 2, rule: 0 }),
        ]
    );
    // listing leaves the schedule as it was
    assert_eq!(s.pop_first(), Some((10, ScheduleEvent::Rule { task: 3, rule: 1 })));
    assert_eq!(s.ascending().len(), 4);
}

#[test]
fn ipc_and_run_paths() {
    assert_eq!(ipc_path(None), "/run/puteron.sock");
    assert_eq!(ipc_path(Some("/tmp/x.sock".to_string())), "/tmp/x.sock");
    assert_eq!(run_dir(None), "/run");
    assert_eq!(run_dir(Some("/run/user/1000".to_string())), "/run/user/1000");
    assert_eq!(run_path(None, "svc.ready"), "/run/svc.ready");
    assert_eq!(run_path(Some("/run/user/1000/".to_string()), "svc.ready"), "/run/user/1000/svc.ready");
    assert_eq!(run_path(Some("/x".to_string()), "/abs/path"), "/abs/path");
    assert_eq!(run_path(Some("".to_string()), "a"), "a");
}

#[test]
fn process_end_meanings() {
    assert_eq!(process_end(true, true, Some(1), &vec![]), ProcessEnd::Stopped);
    assert_eq!(process_end(false, true, Some(0), &vec![]), ProcessEnd::Started);
    assert_eq!(process_end(false, true, Some(1), &vec![]), ProcessEnd::Failed);
    assert_eq!(process_end(false, true, Some(3), &vec![2, 3]), ProcessEnd::Started);
    assert_eq!(process_end(false, true, Some(0), &vec![2, 3]), ProcessEnd::Failed);
    assert_eq!(process_end(false, true, None, &vec![]), ProcessEnd::Failed);
    assert_eq!(process_end(false, false, Some(0), &vec![]), ProcessEnd::Failed);
}

#[test]
fn wait_steps() {
    assert_eq!(wait_step(Actual::Started, None, Actual::Started), WaitStep::Done);
    assert_eq!(wait_step(Actual::Started, None, Actual::Stopped), WaitStep::Pending);
    assert_eq!(wait_step(Actual::Started, Some(Actual::Starting), Actual::Stopped), WaitStep::Canceled);
    assert_eq!(wait_step(Actual::Started, Some(Actual::Stopped), Actual::Stopped), WaitStep::Pending);
    assert_eq!(wait_step(Actual::Stopped, Some(Actual::Stopping), Actual::Started), WaitStep::Canceled);
    assert_eq!(wait_step(Actual::Stopped, Some(Actual::Started), Actual::Stopping), WaitStep::Pending);
}

#[test]
fn wall_delay_hourly_daily_weekly() {
    // 1970-01-01 00:00:10 UTC, a Thursday
    let hourly = Rule::Hourly(MinuteSecond { minute: 0, second: 5 });
    assert_eq!(calc_next_delay(10, &hourly, false), Some(3595));
    let daily = Rule::Daily(RuleDaily { time: TimeOfDay { secs: 5 }, tz: None });
    assert_eq!(calc_next_delay(10, &daily, false), Some(86395));
    // Monday at 00:00:00 is four days after a Thursday
    let weekly = Rule::Weekly(RuleWeekly { weekday: 0, time: TimeOfDay { secs: 0 }, tz: None });
    assert_eq!(calc_next_delay(10, &weekly, false), Some(4 * 86400 - 10));
}

#[test]
fn order_specs_leaves_out_unbuildable() {
    let spec = |name: &str, ups: &[&str]| NewSpec { name: name.to_string(), upstream: ups.iter().map(|u| u.to_string()).collect() };
    let specs = vec![
        spec("b", &["a"]),
        spec("a", &["missing"]),
        spec("c", &["built"]),
        spec("d", &["e"]),
        spec("e", &["d"]),
        spec("f", &["c"]),
    ];
    let (out, err) = order_specs(&vec!["built".to_string()], &specs);
    assert_eq!(out, vec![2, 5]);
    match err {
        Some(OrderError::MissingUpstreams(m)) => assert_eq!(m, vec![(1, "missing".to_string())]),
        _ => panic!("expected a missing upstream"),
    }
}

#[test]
fn files_changed_detects_edits() {
    let loaded = vec![("/d/a.json".to_string(), vec![1u8, 2]), ("/d/a.local.json".to_string(), vec![3u8])];
    let same = Some(vec![("/d/a.json".to_string(), Some(vec![1u8, 2])), ("/d/a.local.json".to_string(), Some(vec![3u8]))]);
    assert!(!files_changed(&loaded, &same));
    let edited = Some(vec![("/d/a.json".to_string(), Some(vec![1u8, 9]))]);
    assert!(files_changed(&loaded, &edited));
    let unreadable = Some(vec![("/d/a.json".to_string(), None)]);
    assert!(files_changed(&loaded, &unreadable));
    let new_file = Some(vec![("/d/a.extra.json".to_string(), Some(vec![5u8]))]);
    assert!(files_changed(&loaded, &new_file));
    assert!(files_changed(&loaded, &None));
}

#[test]
fn systemd_unit_meta() {
    assert!(is_service("nginx.service"));
    assert!(is_service("a.b.service"));
    assert!(!is_service("home.mount"));
    // a name without a dot is its own suffix
    assert!(is_service("service"));
    assert!(!is_service("x.services"));
    assert_eq!(service_meta("oneshot", "yes"), Some(UnitMeta { started_at_pid: false, pid_relevant: true, active_stop: true }));
    assert_eq!(service_meta("oneshot", "no"), Some(UnitMeta { started_at_pid: false, pid_relevant: true, active_stop: false }));
    assert_eq!(service_meta("notify", ""), Some(UnitMeta { started_at_pid: true, pid_relevant: true, active_stop: false }));
    assert_eq!(service_meta("idle", ""), None);
    assert_eq!(other_unit_meta(), UnitMeta { started_at_pid: false, pid_relevant: false, active_stop: true });
    assert!(unit_result_ok("success"));
    assert!(unit_result_ok("mounted"));
    assert!(!unit_result_ok("exit-code"));
    assert_eq!(started_file_name("a.service"), "puteron-control-systemd-a.service-started");
}
