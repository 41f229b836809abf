use vstd::prelude::*;
use crate::model::{Actual, DependencyType, TaskGraph};
use crate::time::SimpleDuration;
use crate::task_util::is_control_effective_on;

verus! {

/// Environment variables for the demon or a task's command.
pub struct Environment {
    /// Inherit all parent environment variables (`keep` is then ignored).
    pub keep_all: bool,
    /// Variables to inherit (`true`) or not (`false`) from the parent.
    pub keep: Vec<(String, bool)>,
    /// Variables to add or override.
    pub add: Vec<(String, String)>,
}

/// Where the output of tasks goes.
#[derive(Clone, Copy, PartialEq, Eq, Structural, Debug)]
pub enum LogType {
    /// All task output goes to the demon's stderr.
    Stderr,
    /// All task output goes to the syslog, named by the task.
    Syslog,
}

/// The demon configuration.
pub struct Config {
    pub environment: Environment,
    /// Directories holding task specifications.
    pub task_dirs: Vec<String>,
    /// Keep the tasks in step with the task directories.
    pub watch: bool,
    pub log_type: LogType,
}

/// A command to run for a task.
pub struct Command {
    pub working_directory: Option<String>,
    pub environment: Environment,
    /// The program and its arguments.
    pub command: Vec<String>,
}

/// The specification of an empty task.
pub struct TaskSpecEmpty {
    pub upstream: Vec<(String, DependencyType)>,
    pub default_on: bool,
}

/// The state of a task's process (older name for the actual state).
#[derive(Clone, Copy, PartialEq, Eq, Structural, Debug)]
pub enum ProcState {
    Stopped,
    Starting,
    Started,
    Stopping,
}

/// A schedule rule: every `period`.
pub struct RulePeriod {
    pub period: SimpleDuration,
    /// Start with a random delay up to the period, to spread restarts.
    pub scattered: bool,
}

/// A schedule rule: every hour at `minute`.
pub struct ScheduleHourly {
    pub minute: usize,
}

/// The time zone of a schedule rule.
#[derive(Clone, Copy, PartialEq, Eq, Structural, Debug)]
pub enum Timezone {
    Local,
    Utc,
}

/// Arguments of the command-line task deletion.
pub struct DeleteArgs {
    pub task: String,
    /// Delete everything downstream too.
    pub recurse: bool,
    /// Turn the tasks off first.
    pub off: bool,
    /// Wait until the task is deleted.
    pub wait: bool,
}

/// Request: list the tasks.
pub struct RequestTaskList;

/// Request: turn a task on or off.
pub struct RequestTaskOnOff {
    pub task: String,
    pub on: bool,
}

/// Request: turn a task on or off (older form).
pub struct RequestTaskOn {
    pub task: String,
    pub on: bool,
}

/// Request: delete a task.
pub struct RequestTaskDelete(pub String);

/// Request: the status of a task.
pub struct RequestTaskGetStatus(pub String);

/// Request: the specification of a task.
pub struct RequestTaskGetSpec(pub String);

/// Request: wait until a task is started.
pub struct RequestTaskWaitStarted(pub String);

/// Request: wait until a task is stopped.
pub struct RequestTaskWaitStopped(pub String);

/// Request: list the tasks turned on by the user.
pub struct RequestTaskListUserOn;

/// Request: the tree of tasks upstream of a task.
pub struct RequestTaskListUpstream {
    pub task: String,
    pub include_started: bool,
}

/// Request: the tree of tasks downstream of a task.
pub struct RequestTaskListDownstream {
    pub task: String,
    pub include_weak: bool,
    pub include_stopped: bool,
}

/// Request: the tree of tasks upstream of a task (older form).
pub struct RequestTaskShowUpstream(pub String);

/// Request: the tree of tasks downstream of a task (older form).
pub struct RequestTaskShowDownstream(pub String);

/// A related task in the older dependency listings.
pub struct TaskDependencyStatus {
    pub on: bool,
    pub started: bool,
    pub dependency_type: DependencyType,
    pub related: Vec<(String, TaskDependencyStatus)>,
}

/// Request: the demon's effective environment.
pub struct RequestDemonEnv;

/// Request: the scheduled starts.
pub struct RequestDemonListSchedule;

/// Request: the task directories.
pub struct RequestDemonSpecDirs;

/// Request: watch for task state changes.
pub struct ReqTaskWatch;

/// A change of a task's state.
#[derive(Clone, Copy, PartialEq, Eq, Structural, Debug)]
pub enum EventType {
    DirectOn(bool),
    TransitiveOn(bool),
    EffectiveOn(bool),
    Actual(Actual),
}

/// A change of the state of the task at index `task`.
#[derive(Clone, Copy, PartialEq, Eq, Structural, Debug)]
pub struct Event {
    pub task: usize,
    pub event: EventType,
}

/// The events describing task `i` as it is now: direct, transitive and effective on,
/// and the actual state.
pub open spec fn task_snapshot(g: TaskGraph, i: int) -> Seq<Event> {
    seq![
        Event { task: i as usize, event: EventType::DirectOn(g.direct_on@[i]) },
        Event { task: i as usize, event: EventType::TransitiveOn(g.transitive_on@[i]) },
        Event { task: i as usize, event: EventType::EffectiveOn(g.eff(i)) },
        Event { task: i as usize, event: EventType::Actual(g.act(i)) },
    ]
}

/// The snapshot events of the present tasks before `n`, in index order.
pub open spec fn snapshot_events(g: TaskGraph, n: int) -> Seq<Event>
    decreases n,
{
    if n <= 0 {
        seq![]
    } else if g.valid(n - 1) {
        snapshot_events(g, n - 1) + task_snapshot(g, n - 1)
    } else {
        snapshot_events(g, n - 1)
    }
}

/// The state that an event reports about its task is the task's state now: direct
/// on, transitive on, effective on (`awueo && (direct_on || transitive_on)`) and actual.
pub open spec fn event_true_of(g: TaskGraph, e: Event) -> bool {
    let t = e.task as int;
    match e.event {
        EventType::DirectOn(b) => b == g.direct_on@[t],
        EventType::TransitiveOn(b) => b == g.transitive_on@[t],
        EventType::EffectiveOn(b) => b == (g.awueo@[t] && (g.direct_on@[t] || g.transitive_on@[t])),
        EventType::Actual(a) => a == g.actual@[t],
    }
}

/// The event saying whether task `t` is effectively on: on, with all its weak
/// upstreams effectively on.
pub open spec fn effective_on_event(g: TaskGraph, t: int) -> Event {
    Event {
        task: t as usize,
        event: EventType::EffectiveOn(g.awueo@[t] && (g.direct_on@[t] || g.transitive_on@[t])),
    }
}

/// Every event of a snapshot is about a present task and reports its state truly; and
/// every present task has an event reporting whether it is effectively on, that is
/// whether it is on and all its weak upstreams are effectively on.
pub proof fn lemma_snapshot_truthful(g: TaskGraph, n: int)
    requires
        0 <= n <= g.n(),
        g.n() <= usize::MAX,
    ensures
        forall|k: int|
            0 <= k < snapshot_events(g, n).len() ==> {
                let e = #[trigger] snapshot_events(g, n)[k];
                &&& 0 <= e.task < n
                &&& g.valid(e.task as int)
                &&& event_true_of(g, e)
            },
        forall|t: int|
            0 <= t < n && g.valid(t) ==> #[trigger] snapshot_events(g, n).contains(effective_on_event(g, t)),
    decreases n,
{
    if n > 0 {
        lemma_snapshot_truthful(g, n - 1);
        let s0 = snapshot_events(g, n - 1);
        let s = snapshot_events(g, n);
        if g.valid(n - 1) {
            let ts = task_snapshot(g, n - 1);
            assert(s == s0 + ts);
            assert forall|k: int| 0 <= k < s.len() implies {
                let e = #[trigger] s[k];
                &&& 0 <= e.task < n
                &&& g.valid(e.task as int)
                &&& event_true_of(g, e)
            } by {
                if k < s0.len() {
                    assert(s[k] == s0[k]);
                } else {
                    assert(s[k] == ts[k - s0.len()]);
                }
            }
            assert forall|t: int| 0 <= t < n && g.valid(t) implies #[trigger] s.contains(effective_on_event(g, t)) by {
                let ev = effective_on_event(g, t);
                if t < n - 1 {
                    assert(s0.contains(ev));
                    let k = choose|k: int| 0 <= k < s0.len() && s0[k] == ev;
                    assert(s[k] == ev);
                } else {
                    assert(s[s0.len() as int + 2] == ts[2]);
                    assert(ts[2] == ev);
                }
            }
        } else {
            assert(s == s0);
        }
    }
}

/// The events a new watcher first receives: the state of every task.
pub fn watch_snapshot(g: &TaskGraph) -> (r: Vec<Event>)
    requires
        g.wf(),
    ensures
        r@ == snapshot_events(*g, g.n()),
        forall|k: int|
            0 <= k < r@.len() ==> g.valid(r@[k].task as int) && event_true_of(*g, #[trigger] r@[k]),
        forall|t: int|
            0 <= t < g.n() && g.valid(t) ==> #[trigger] r@.contains(effective_on_event(*g, t)),
{
    let n = g.nodes.len();
    let mut out: Vec<Event> = Vec::new();
    let mut i: usize = 0;
    while i < n
        invariant
            g.wf(),
            n == g.n(),
            i <= n,
            out@ == snapshot_events(*g, i as int),
        decreases n - i,
    {
        if g.present[i] {
            let ghost o0 = out@;
            out.push(Event { task: i, event: EventType::DirectOn(g.direct_on[i]) });
            out.push(Event { task: i, event: EventType::TransitiveOn(g.transitive_on[i]) });
            out.push(Event { task: i, event: EventType::EffectiveOn(is_control_effective_on(g, i)) });
            out.push(Event { task: i, event: EventType::Actual(g.actual[i]) });
            proof {
                assert(out@ =~= o0 + task_snapshot(*g, i as int));
            }
        }
        i = i + 1;
    }
    proof {
        lemma_snapshot_truthful(*g, n as int);
    }
    out
}

} // verus!
