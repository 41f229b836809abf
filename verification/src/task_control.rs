use vstd::prelude::*;
use crate::model::{Actual, DependencyType, ShortTaskStartedAction, TaskGraph, TaskKind};
use crate::plan::{grows, ExecutePlan, PlanView};
use crate::task_util::{
    actual_set, are_all_downstream_tasks_stopped, is_actual_all_upstream_tasks_started,
    is_control_effective_on,
};

verus! {

/// Task `i` may start: effectively on and every upstream started.
pub open spec fn can_start(g: TaskGraph, i: int) -> bool {
    g.eff(i) && g.all_up_started(i)
}

/// Try to start task `i`.  Returns true if the task is started (so its downstream may
/// start now).  An empty task becomes started at once; a process task that is stopped
/// is added to `run`.
pub fn plan_actual_start_one(g: &mut TaskGraph, plan: &mut ExecutePlan, i: usize) -> (r: bool)
    requires
        old(g).wf(),
        old(plan)@.wf(old(g).n()),
        old(g).valid(i as int),
    ensures
        final(g).wf(),
        final(g).same_structure(*old(g)),
        final(g).same_control(*old(g)),
        final(plan)@.wf(old(g).n()),
        !can_start(*old(g), i as int) ==> !r && final(g).actual@ == old(g).actual@ && final(plan)@ == old(
            plan,
        )@,
        can_start(*old(g), i as int) && old(g).act(i as int) == Actual::Started ==> r && final(g).actual@
            == old(g).actual@ && final(plan)@ == old(plan)@,
        can_start(*old(g), i as int) && (old(g).act(i as int) == Actual::Starting || old(g).act(i as int)
            == Actual::Stopping) ==> !r && final(g).actual@ == old(g).actual@ && final(plan)@ == old(
            plan,
        )@,
        can_start(*old(g), i as int) && old(g).act(i as int) == Actual::Stopped && old(g).kind(i as int)
            is Empty ==> r && final(g).actual@ == old(g).actual@.update(i as int, Actual::Started)
            && final(plan)@ == (PlanView {
            log_starting: old(plan)@.log_starting.update(i as int, true),
            log_started: old(plan)@.log_started.update(i as int, true),
            ..old(plan)@
        }),
        can_start(*old(g), i as int) && old(g).act(i as int) == Actual::Stopped && !(old(g).kind(
            i as int,
        ) is Empty) ==> !r && final(g).actual@ == old(g).actual@ && final(plan)@ == (PlanView {
            run: old(plan)@.run.update(i as int, true),
            ..old(plan)@
        }),
{
    if !is_control_effective_on(g, i) {
        return false;
    }
    if !is_actual_all_upstream_tasks_started(g, i) {
        return false;
    }
    match g.actual[i] {
        Actual::Started => {
            return true;
        },
        Actual::Starting | Actual::Stopping => {
            return false;
        },
        Actual::Stopped => {},
    }
    match g.nodes[i].kind {
        TaskKind::Empty => {
            plan.log_starting.set(i, true);
            actual_set(g, i, Actual::Starting);
            plan.log_started.set(i, true);
            actual_set(g, i, Actual::Started);
            return true;
        },
        TaskKind::Long => {
            plan.run.set(i, true);
            return false;
        },
        TaskKind::Short { .. } => {
            plan.run.set(i, true);
            return false;
        },
    }
}

/// Task `i` may stop: every downstream stopped, and not both effectively on with every
/// upstream started.
pub open spec fn can_stop(g: TaskGraph, i: int) -> bool {
    g.all_down_stopped(i) && !(g.eff(i) && g.all_up_started(i))
}

/// Try to stop task `i` (unless `force`, only once its downstream has stopped and it
/// should no longer run).  An empty task, or a short task that has already completed,
/// becomes stopped at once; a running process is added to `stop`.  A completed short
/// task whose started action is `Delete` is added to `delete`.
pub fn plan_actual_stop_one(g: &mut TaskGraph, plan: &mut ExecutePlan, i: usize, force: bool)
    requires
        old(g).wf(),
        old(plan)@.wf(old(g).n()),
        old(g).valid(i as int),
    ensures
        final(g).wf(),
        final(g).same_structure(*old(g)),
        final(g).same_control(*old(g)),
        final(plan)@.wf(old(g).n()),
        (!force && !can_stop(*old(g), i as int)) || old(g).act(i as int) == Actual::Stopped
            ==> final(g).actual@ == old(g).actual@ && final(plan)@ == old(plan)@,
        (force || can_stop(*old(g), i as int)) && old(g).act(i as int) != Actual::Stopped ==> match old(
            g,
        ).kind(i as int) {
            TaskKind::Empty => final(g).actual@ == old(g).actual@.update(i as int, Actual::Stopped)
                && final(plan)@ == (PlanView {
                log_stopping: old(plan)@.log_stopping.update(i as int, true),
                log_stopped: old(plan)@.log_stopped.update(i as int, true),
                ..old(plan)@
            }),
            TaskKind::Long => final(g).actual@ == old(g).actual@ && final(plan)@ == (PlanView {
                stop: old(plan)@.stop.update(i as int, true),
                ..old(plan)@
            }),
            TaskKind::Short { started_action, .. } => if old(g).act(i as int) == Actual::Started {
                &&& final(g).actual@ == old(g).actual@.update(i as int, Actual::Stopped)
                &&& final(plan)@ == (PlanView {
                    log_stopping: old(plan)@.log_stopping.update(i as int, true),
                    log_stopped: old(plan)@.log_stopped.update(i as int, true),
                    delete: if started_action == Some(ShortTaskStartedAction::Delete) {
                        old(plan)@.delete.update(i as int, true)
                    } else {
                        old(plan)@.delete
                    },
                    ..old(plan)@
                })
            } else {
                final(g).actual@ == old(g).actual@ && final(plan)@ == (PlanView {
                    stop: old(plan)@.stop.update(i as int, true),
                    ..old(plan)@
                })
            },
        },
{
    if !force && !are_all_downstream_tasks_stopped(g, i) {
        return ;
    }
    if !force && is_control_effective_on(g, i) && is_actual_all_upstream_tasks_started(g, i) {
        return ;
    }
    if g.actual[i] == Actual::Stopped {
        return ;
    }
    match g.nodes[i].kind {
        TaskKind::Empty => {
            plan.log_stopping.set(i, true);
            actual_set(g, i, Actual::Stopping);
            plan.log_stopped.set(i, true);
            actual_set(g, i, Actual::Stopped);
        },
        TaskKind::Long => {
            plan.stop.set(i, true);
        },
        TaskKind::Short { started_action, .. } => {
            if g.actual[i] == Actual::Started {
                plan.log_stopping.set(i, true);
                actual_set(g, i, Actual::Stopping);
                plan.log_stopped.set(i, true);
                actual_set(g, i, Actual::Stopped);
                if let Some(ShortTaskStartedAction::Delete) = started_action {
                    plan.delete.set(i, true);
                }
            } else {
                plan.stop.set(i, true);
            }
        },
    }
}


/// Between `a` (with plan `pa`) and `b` (with plan `pb`) only starts happened, and each
/// is justified in `b`: an empty task went from stopped to started, or a stopped
/// process task was added to `run`, and in both cases the task can start in `b`.
pub open spec fn starts_only(a: TaskGraph, pa: PlanView, b: TaskGraph, pb: PlanView) -> bool {
    &&& b.actual@.len() == a.actual@.len()
    &&& pa.grows_to(pb)
    &&& pa.only_start_fields(pb)
    &&& forall|i: int|
        0 <= i < a.n() && #[trigger] b.act(i) != a.act(i) ==> a.act(i) == Actual::Stopped && b.act(i)
            == Actual::Started && a.kind(i) is Empty && b.valid(i) && can_start(b, i)
    &&& forall|i: int|
        0 <= i < a.n() && #[trigger] pb.run[i] && !pa.run[i] ==> a.act(i) == Actual::Stopped && b.act(i)
            == Actual::Stopped && !(a.kind(i) is Empty) && b.valid(i) && can_start(b, i)
}

pub proof fn lemma_starts_only_refl(a: TaskGraph, pa: PlanView)
    requires
        pa.wf(a.n()),
        a.wf(),
    ensures
        starts_only(a, pa, a, pa),
{
}

/// A control change that only makes tasks more effectively on keeps earlier starts
/// justified.
pub proof fn lemma_starts_only_control(a: TaskGraph, pa: PlanView, b: TaskGraph, pb: PlanView, c: TaskGraph)
    requires
        a.wf(),
        b.wf(),
        c.wf(),
        starts_only(a, pa, b, pb),
        b.same_structure(a),
        c.same_structure(a),
        c.actual@ == b.actual@,
        forall|i: int| 0 <= i < a.n() && b.eff(i) ==> #[trigger] c.eff(i),
    ensures
        starts_only(a, pa, c, pb),
{
    assert forall|i: int| 0 <= i < a.n() && b.all_up_started(i) implies #[trigger] c.all_up_started(i) by {
        assert forall|k: int| 0 <= k < c.up(i).len() implies c.act((#[trigger] c.up(i)[k]).0 as int)
            == Actual::Started by {
            assert(b.up(i)[k] == c.up(i)[k]);
        }
    }
    assert forall|i: int|
        0 <= i < a.n() && #[trigger] c.act(i) != a.act(i) implies a.act(i) == Actual::Stopped && c.act(i)
            == Actual::Started && a.kind(i) is Empty && c.valid(i) && can_start(c, i) by {
        assert(b.act(i) != a.act(i));
    }
    assert forall|i: int|
        0 <= i < a.n() && #[trigger] pb.run[i] && !pa.run[i] implies a.act(i) == Actual::Stopped && c.act(i)
            == Actual::Stopped && !(a.kind(i) is Empty) && c.valid(i) && can_start(c, i) by {
        assert(can_start(b, i));
    }
}

/// Offering a start keeps earlier starts justified.
pub proof fn lemma_starts_only_start_one(
    a: TaskGraph,
    pa: PlanView,
    b: TaskGraph,
    pb: PlanView,
    c: TaskGraph,
    pc: PlanView,
    i: int,
)
    requires
        a.wf(),
        b.wf(),
        c.wf(),
        pb.wf(a.n()),
        starts_only(a, pa, b, pb),
        b.same_structure(a),
        c.same_structure(b),
        c.same_control(b),
        b.valid(i),
        !can_start(b, i) ==> c.actual@ == b.actual@ && pc == pb,
        can_start(b, i) && b.act(i) != Actual::Stopped ==> c.actual@ == b.actual@ && pc == pb,
        can_start(b, i) && b.act(i) == Actual::Stopped && b.kind(i) is Empty ==> c.actual@ == b.actual@.update(
            i,
            Actual::Started,
        ) && pc == (PlanView {
            log_starting: pb.log_starting.update(i, true),
            log_started: pb.log_started.update(i, true),
            ..pb
        }),
        can_start(b, i) && b.act(i) == Actual::Stopped && !(b.kind(i) is Empty) ==> c.actual@ == b.actual@
            && pc == (PlanView { run: pb.run.update(i, true), ..pb }),
    ensures
        starts_only(a, pa, c, pc),
{
    assert forall|j: int| 0 <= j < a.n() && b.all_up_started(j) implies #[trigger] c.all_up_started(j) by {
        assert forall|k: int| 0 <= k < c.up(j).len() implies c.act((#[trigger] c.up(j)[k]).0 as int)
            == Actual::Started by {
            assert(b.up(j)[k] == c.up(j)[k]);
            assert(b.up(j)[k].0 < j);
        }
    }
    assert forall|j: int| 0 <= j < a.n() && b.eff(j) implies #[trigger] c.eff(j) by {}
    assert forall|j: int| 0 <= j < a.n() && j != i implies #[trigger] c.act(j) == b.act(j) by {}
    assert forall|j: int|
        0 <= j < a.n() && #[trigger] c.act(j) != a.act(j) implies a.act(j) == Actual::Stopped && c.act(j)
            == Actual::Started && a.kind(j) is Empty && c.valid(j) && can_start(c, j) by {
        if j == i && c.act(i) != b.act(i) {
            assert(b.act(i) == a.act(i));
        } else {
            assert(b.act(j) != a.act(j));
            assert(can_start(b, j));
        }
    }
    assert forall|j: int|
        0 <= j < a.n() && #[trigger] pc.run[j] && !pa.run[j] implies a.act(j) == Actual::Stopped && c.act(j)
            == Actual::Stopped && !(a.kind(j) is Empty) && c.valid(j) && can_start(c, j) by {
        if j == i && !pb.run[i] {
            assert(b.act(i) == a.act(i));
        } else {
            assert(pb.run[j]);
            assert(can_start(b, j));
        }
    }
    if can_start(b, i) && b.act(i) == Actual::Stopped && b.kind(i) is Empty {
        assert(pa.grows_to(pc)) by {
            assert(grows(pa.log_starting, pc.log_starting));
            assert(grows(pa.log_started, pc.log_started));
        }
    }
    if can_start(b, i) && b.act(i) == Actual::Stopped && !(b.kind(i) is Empty) {
        assert(pa.grows_to(pc)) by {
            assert(grows(pa.run, pc.run));
        }
    }
}


/// The state of task `i` after `b` came from `a` by stopping only: a task that was not
/// stopped either became stopped (an empty task, or a short task that had completed),
/// or had its process added to `stop`; and with `checked`, only where it may stop.
pub open spec fn stop_step_ok(a: TaskGraph, pa: PlanView, b: TaskGraph, pb: PlanView, i: int, checked: bool) -> bool {
    &&& b.act(i) != a.act(i) ==> a.act(i) != Actual::Stopped && b.act(i) == Actual::Stopped && (a.kind(i) is Empty
        || (a.kind(i) is Short && a.act(i) == Actual::Started))
    &&& pb.stop[i] && !pa.stop[i] ==> a.act(i) != Actual::Stopped && b.act(i) == a.act(i) && (a.kind(i) is Long
        || (a.kind(i) is Short && a.act(i) != Actual::Started))
    &&& pb.delete[i] && !pa.delete[i] ==> b.act(i) != a.act(i) && a.kind(i) is Short && a.kind(i)->started_action
        == Some(ShortTaskStartedAction::Delete)
    &&& (pb.log_stopped[i] && !pa.log_stopped[i]) ==> b.act(i) != a.act(i)
    &&& checked && (b.act(i) != a.act(i) || (pb.stop[i] && !pa.stop[i])) ==> b.valid(i) && can_stop(b, i)
}

/// Between `a` and `b` only stops happened (see `stop_step_ok`).
pub open spec fn stops_only(a: TaskGraph, pa: PlanView, b: TaskGraph, pb: PlanView, checked: bool) -> bool {
    &&& b.actual@.len() == a.actual@.len()
    &&& pa.grows_to(pb)
    &&& pa.only_stop_fields(pb)
    &&& forall|i: int| 0 <= i < a.n() ==> #[trigger] stop_step_ok(a, pa, b, pb, i, checked)
}

pub proof fn lemma_stops_only_refl(a: TaskGraph, pa: PlanView, checked: bool)
    requires
        pa.wf(a.n()),
        a.wf(),
    ensures
        stops_only(a, pa, a, pa, checked),
{
    assert forall|i: int| 0 <= i < a.n() implies #[trigger] stop_step_ok(a, pa, a, pa, i, checked) by {}
}

/// Offering a stop keeps earlier stops justified.
pub proof fn lemma_stops_only_stop_one(
    a: TaskGraph,
    pa: PlanView,
    b: TaskGraph,
    pb: PlanView,
    c: TaskGraph,
    pc: PlanView,
    i: int,
    force: bool,
    checked: bool,
)
    requires
        a.wf(),
        b.wf(),
        c.wf(),
        pb.wf(a.n()),
        stops_only(a, pa, b, pb, checked),
        checked ==> !force,
        b.same_structure(a),
        b.same_control(a),
        c.same_structure(b),
        c.same_control(b),
        b.valid(i),
        (!force && !can_stop(b, i)) || b.act(i) == Actual::Stopped ==> c.actual@ == b.actual@ && pc == pb,
        (force || can_stop(b, i)) && b.act(i) != Actual::Stopped ==> match b.kind(i) {
            TaskKind::Empty => c.actual@ == b.actual@.update(i, Actual::Stopped) && pc == (PlanView {
                log_stopping: pb.log_stopping.update(i, true),
                log_stopped: pb.log_stopped.update(i, true),
                ..pb
            }),
            TaskKind::Long => c.actual@ == b.actual@ && pc == (PlanView { stop: pb.stop.update(i, true), ..pb }),
            TaskKind::Short { started_action, .. } => if b.act(i) == Actual::Started {
                &&& c.actual@ == b.actual@.update(i, Actual::Stopped)
                &&& pc == (PlanView {
                    log_stopping: pb.log_stopping.update(i, true),
                    log_stopped: pb.log_stopped.update(i, true),
                    delete: if started_action == Some(ShortTaskStartedAction::Delete) {
                        pb.delete.update(i, true)
                    } else {
                        pb.delete
                    },
                    ..pb
                })
            } else {
                c.actual@ == b.actual@ && pc == (PlanView { stop: pb.stop.update(i, true), ..pb })
            },
        },
    ensures
        stops_only(a, pa, c, pc, checked),
{
    assert forall|j: int| 0 <= j < a.n() && j != i implies #[trigger] c.act(j) == b.act(j) by {}
    assert forall|j: int| 0 <= j < a.n() && c.act(j) == Actual::Started implies #[trigger] b.act(j) == Actual::Started by {}
    assert forall|j: int| 0 <= j < a.n() && b.act(j) == Actual::Stopped implies #[trigger] c.act(j) == Actual::Stopped by {}
    assert forall|j: int| 0 <= j < a.n() && can_stop(b, j) implies #[trigger] can_stop(c, j) by {
        assert forall|d: int| c.valid(d) && #[trigger] c.has_up(d, j) implies c.act(d) == Actual::Stopped by {
            b.lemma_same_nodes_deps(c);
            assert(b.has_up(d, j));
        }
        if c.all_up_started(j) {
            assert forall|k: int| 0 <= k < b.up(j).len() implies b.act((#[trigger] b.up(j)[k]).0 as int)
                == Actual::Started by {
                assert(b.up(j)[k] == c.up(j)[k]);
                assert(b.up(j)[k].0 < j);
            }
        }
    }
    assert forall|j: int| 0 <= j < a.n() implies #[trigger] stop_step_ok(a, pa, c, pc, j, checked) by {
        assert(stop_step_ok(a, pa, b, pb, j, checked));
        if j == i {
            assert(b.act(i) == a.act(i) || b.act(i) == Actual::Stopped);
        }
    }
    assert(pa.grows_to(pc)) by {
        assert(grows(pa.log_stopping, pc.log_stopping));
        assert(grows(pa.log_stopped, pc.log_stopped));
        assert(grows(pa.stop, pc.stop));
        assert(grows(pa.delete, pc.delete));
    }
}

} // verus!
