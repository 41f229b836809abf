use vstd::prelude::*;
use crate::control::{
    lemma_control_ok_frame, lemma_starts_only_base, lemma_stops_only_base, plan_event_started,
    plan_event_stopped, plan_set_direct_off, start_one_outcome, sync_actual_should_start_downstream,
};
use crate::model::{Actual, ShortTaskStartedAction, TaskGraph, TaskKind};
use crate::plan::{grows, ExecutePlan, PlanView};
use crate::start_down::start_outcome;
use crate::stop_down::{desc, force_stopped, plan_event_stopping, settled, untouched, sync_actual_should_stop_related};
use crate::task_control::{can_start, can_stop, stop_step_ok, starts_only, stops_only};
use crate::task_util::{actual_set, get_short_task_started_action, is_control_effective_on};
use crate::graph_edit::names_unique;

verus! {

/// `b` is `a` with the actual state of task `i` set to `v` (control state may differ).
pub open spec fn act_updated(a: TaskGraph, b: TaskGraph, i: int, v: Actual) -> bool {
    &&& b.nodes@ == a.nodes@
    &&& b.actual@ == a.actual@.update(i, v)
}

/// A short task whose started action (with its default) turns it off once started.
pub open spec fn turns_off_when_started(k: TaskKind) -> bool {
    match k {
        TaskKind::Short { started_action, scheduled } => TaskGraph::started_action_of(started_action, scheduled)
            != ShortTaskStartedAction::NoAction,
        _ => false,
    }
}

/// A task that could stop still can after further stops under the same control state.
pub proof fn lemma_can_stop_after_stops(b: TaskGraph, c: TaskGraph, i: int)
    requires
        b.wf(),
        c.wf(),
        c.same_structure(b),
        c.same_control(b),
        forall|j: int| 0 <= j < b.n() && #[trigger] c.act(j) != b.act(j) ==> c.act(j) == Actual::Stopped,
        0 <= i < b.n(),
        can_stop(b, i),
    ensures
        can_stop(c, i),
{
    b.lemma_same_nodes_deps(c);
    assert forall|d: int| c.valid(d) && #[trigger] c.has_up(d, i) implies c.act(d) == Actual::Stopped by {
        assert(b.has_up(d, i));
    }
    if b.eff(i) {
        let k = choose|k: int| 0 <= k < b.up(i).len() && b.act((#[trigger] b.up(i)[k]).0 as int) != Actual::Started;
        assert(c.up(i)[k] == b.up(i)[k]);
        assert(b.up(i)[k].0 < i);
    }
}

/// Stops after stops (under one control state) are stops.
pub proof fn lemma_stops_only_trans(
    a: TaskGraph,
    pa: PlanView,
    b: TaskGraph,
    pb: PlanView,
    c: TaskGraph,
    pc: PlanView,
    checked: bool,
)
    requires
        a.wf(),
        b.wf(),
        c.wf(),
        b.same_structure(a),
        c.same_structure(a),
        c.same_control(b),
        pa.wf(a.n()),
        stops_only(a, pa, b, pb, checked),
        stops_only(b, pb, c, pc, checked),
    ensures
        stops_only(a, pa, c, pc, checked),
{
    assert forall|j: int| 0 <= j < b.n() && #[trigger] c.act(j) != b.act(j) implies c.act(j) == Actual::Stopped by {
        assert(stop_step_ok(b, pb, c, pc, j, checked));
    }
    assert forall|i: int| 0 <= i < a.n() implies #[trigger] stop_step_ok(a, pa, c, pc, i, checked) by {
        assert(stop_step_ok(a, pa, b, pb, i, checked));
        assert(stop_step_ok(b, pb, c, pc, i, checked));
        if checked && (b.act(i) != a.act(i) || (pb.stop[i] && !pa.stop[i])) {
            lemma_can_stop_after_stops(b, c, i);
        }
    }
    assert(pa.grows_to(pc)) by {
        assert(grows(pa.log_stopping, pc.log_stopping)) by {
            assert forall|i: int| 0 <= i < pa.log_stopping.len() && #[trigger] pa.log_stopping[i] implies pc.log_stopping[i] by {
                assert(pb.log_stopping[i]);
            }
        }
        assert(grows(pa.log_stopped, pc.log_stopped)) by {
            assert forall|i: int| 0 <= i < pa.log_stopped.len() && #[trigger] pa.log_stopped[i] implies pc.log_stopped[i] by {
                assert(pb.log_stopped[i]);
            }
        }
        assert(grows(pa.stop, pc.stop)) by {
            assert forall|i: int| 0 <= i < pa.stop.len() && #[trigger] pa.stop[i] implies pc.stop[i] by {
                assert(pb.stop[i]);
            }
        }
        assert(grows(pa.delete, pc.delete)) by {
            assert forall|i: int| 0 <= i < pa.delete.len() && #[trigger] pa.delete[i] implies pc.delete[i] by {
                assert(pb.delete[i]);
            }
        }
    }
}

/// Task `task` began stopping (its process exited or was asked to stop): set its
/// actual state to stopping, log it, and stop every task downstream of it at once.
pub fn event_stopping(g: &mut TaskGraph, plan: &mut ExecutePlan, task: usize)
    requires
        old(g).wf(),
        old(plan)@.wf(old(g).n()),
        old(g).valid(task as int),
    ensures
        final(g).wf(),
        final(g).same_structure(*old(g)),
        final(g).same_control(*old(g)),
        final(plan)@.wf(old(g).n()),
        final(g).act(task as int) == Actual::Stopping,
        final(plan)@.log_stopping[task as int],
        forall|g1: TaskGraph|
            #[trigger] act_updated(*old(g), g1, task as int, Actual::Stopping) ==> stops_only(
                g1,
                PlanView { log_stopping: old(plan)@.log_stopping.update(task as int, true), ..old(plan)@ },
                *final(g),
                final(plan)@,
                false,
            ),
        forall|e: int|
            0 <= e < old(g).n() && #[trigger] desc(*old(g), task as int, e) ==> force_stopped(
                *old(g),
                old(plan)@,
                *final(g),
                final(plan)@,
                e,
            ),
        forall|e: int|
            0 <= e < old(g).n() && e != task && !#[trigger] desc(*old(g), task as int, e) ==> untouched(
                *old(g),
                old(plan)@,
                *final(g),
                final(plan)@,
                e,
            ),
{
    let ghost g0 = *g;
    let ghost p0 = plan@;
    actual_set(g, task, Actual::Stopping);
    let ghost g1 = *g;
    plan_event_stopping(g, plan, task);
    proof {
        crate::stop_down::lemma_desc_below(g1, task as int, task as int);
        assert(untouched(g1, p0, *g, plan@, task as int));
        assert forall|gx: TaskGraph| #[trigger] act_updated(g0, gx, task as int, Actual::Stopping) implies stops_only(
            gx,
            PlanView { log_stopping: p0.log_stopping.update(task as int, true), ..p0 },
            *g,
            plan@,
            false,
        ) by {
            assert(gx.actual@ =~= g1.actual@);
            lemma_stops_only_base(
                g1,
                gx,
                PlanView { log_stopping: p0.log_stopping.update(task as int, true), ..p0 },
                *g,
                plan@,
                false,
            );
        }
        assert forall|e: int| 0 <= e < g0.n() && #[trigger] desc(g0, task as int, e) implies force_stopped(
            g0,
            p0,
            *g,
            plan@,
            e,
        ) by {
            crate::stop_down::lemma_desc_same(g0, g1, task as int, e);
            assert(force_stopped(g1, p0, *g, plan@, e));
            if e == task {
                crate::stop_down::lemma_desc_below(g0, task as int, e);
            }
        }
        assert forall|e: int| 0 <= e < g0.n() && e != task && !#[trigger] desc(g0, task as int, e) implies untouched(
            g0,
            p0,
            *g,
            plan@,
            e,
        ) by {
            crate::stop_down::lemma_desc_same(g0, g1, task as int, e);
            assert(untouched(g1, p0, *g, plan@, e));
        }
    }
}

/// Task `task` reached stopped: set its actual state, then if it is still effectively
/// on, start it again (and what is downstream of it), else offer stops going upward
/// from it.
pub fn event_stopped(g: &mut TaskGraph, plan: &mut ExecutePlan, task: usize)
    requires
        old(g).wf(),
        old(plan)@.wf(old(g).n()),
        old(g).valid(task as int),
    ensures
        final(g).wf(),
        final(g).same_structure(*old(g)),
        final(g).same_control(*old(g)),
        final(plan)@.wf(old(g).n()),
        old(g).eff(task as int) ==> forall|g1: TaskGraph|
            #[trigger] act_updated(*old(g), g1, task as int, Actual::Stopped) ==> starts_only(
                g1,
                old(plan)@,
                *final(g),
                final(plan)@,
            ),
        old(g).eff(task as int) && old(g).all_up_started(task as int) ==> if old(g).kind(task as int) is Empty {
            final(g).act(task as int) == Actual::Started
        } else {
            final(g).act(task as int) == Actual::Stopped && final(plan)@.run[task as int]
        },
        old(g).eff(task as int) && !old(g).all_up_started(task as int) ==> final(g).act(task as int)
            == Actual::Stopped && final(plan)@.run[task as int] == old(plan)@.run[task as int],
        old(g).eff(task as int) && old(g).all_up_started(task as int) && old(g).kind(task as int) is Empty
            ==> forall|e: int|
            0 <= e < old(g).n() && e != task ==> #[trigger] start_outcome(
                *old(g),
                *final(g),
                old(plan)@.run,
                final(plan)@.run,
                task as int,
                e,
            ),
        !old(g).eff(task as int) ==> forall|g1: TaskGraph|
            #[trigger] act_updated(*old(g), g1, task as int, Actual::Stopped) ==> stops_only(
                g1,
                old(plan)@,
                *final(g),
                final(plan)@,
                true,
            ),
        !old(g).eff(task as int) ==> settled(*final(g), final(plan)@, task as int),
        !old(g).eff(task as int) ==> forall|d: int|
            #[trigger] desc(*old(g), task as int, d) ==> settled(*final(g), final(plan)@, d),
        !old(g).eff(task as int) ==> forall|u: int|
            old(g).valid(u) && !old(g).eff(u) ==> #[trigger] settled(*final(g), final(plan)@, u),
{
    let ghost g0 = *g;
    let ghost p0 = plan@;
    actual_set(g, task, Actual::Stopped);
    let ghost g1 = *g;
    proof {
        assert forall|k: int| 0 <= k < g1.up(task as int).len() implies g1.act((#[trigger] g1.up(task as int)[k]).0 as int)
            == g0.act(g0.up(task as int)[k].0 as int) by {
            assert(g1.up(task as int)[k].0 < task);
        }
        assert(g1.all_up_started(task as int) == g0.all_up_started(task as int));
        assert forall|d: int| #[trigger] desc(g0, task as int, d) == desc(g1, task as int, d) by {
            crate::stop_down::lemma_desc_same(g0, g1, task as int, d);
        }
    }
    if is_control_effective_on(g, task) {
        sync_actual_should_start_downstream(g, plan, task);
        proof {
            assert forall|gx: TaskGraph| #[trigger] act_updated(g0, gx, task as int, Actual::Stopped) implies starts_only(
                gx,
                p0,
                *g,
                plan@,
            ) by {
                assert(gx.actual@ =~= g1.actual@);
                lemma_starts_only_base(g1, gx, p0, *g, plan@);
            }
            if g0.all_up_started(task as int) && g0.kind(task as int) is Empty {
                assert forall|e: int| 0 <= e < g0.n() && e != task implies #[trigger] start_outcome(
                    g0,
                    *g,
                    p0.run,
                    plan@.run,
                    task as int,
                    e,
                ) by {
                    assert(start_outcome(g1, *g, p0.run, plan@.run, task as int, e));
                }
            }
        }
    } else {
        plan_event_stopped(g, plan, task);
        proof {
            assert forall|gx: TaskGraph| #[trigger] act_updated(g0, gx, task as int, Actual::Stopped) implies stops_only(
                gx,
                p0,
                *g,
                plan@,
                true,
            ) by {
                assert(gx.actual@ =~= g1.actual@);
                lemma_stops_only_base(g1, gx, p0, *g, plan@, true);
            }
        }
    }
}

/// Task `task` reached started.  Unless it was starting (it was asked to stop
/// meanwhile), nothing happens and false is returned.  Else its actual state becomes
/// started; a short task whose started action is `TurnOff` or `Delete` is turned off;
/// then if it is effectively on, what is downstream of it is started, else stops are
/// offered going upward from it.
pub fn event_started(g: &mut TaskGraph, plan: &mut ExecutePlan, task: usize) -> (r: bool)
    requires
        old(g).wf(),
        old(plan)@.wf(old(g).n()),
        old(g).valid(task as int),
    ensures
        r == (old(g).act(task as int) == Actual::Starting),
        final(g).wf(),
        final(g).same_structure(*old(g)),
        final(plan)@.wf(old(g).n()),
        !r ==> final(g).actual@ == old(g).actual@ && final(g).same_control(*old(g)) && final(plan)@ == old(plan)@,
        r ==> final(g).direct_on@ == if turns_off_when_started(old(g).kind(task as int)) {
            old(g).direct_on@.update(task as int, false)
        } else {
            old(g).direct_on@
        },
        old(g).control_ok() ==> final(g).control_ok(),
        r && final(g).eff(task as int) ==> final(g).act(task as int) == Actual::Started && final(plan)@.log_started[task as int],
        r && final(g).eff(task as int) ==> forall|e: int|
            0 <= e < old(g).n() && e != task ==> #[trigger] start_outcome(
                *old(g),
                *final(g),
                old(plan)@.run,
                final(plan)@.run,
                task as int,
                e,
            ),
        r && final(g).eff(task as int) ==> forall|g1: TaskGraph|
            #[trigger] act_updated(*old(g), g1, task as int, Actual::Started) ==> starts_only(
                g1,
                PlanView { log_started: old(plan)@.log_started.update(task as int, true), ..old(plan)@ },
                *final(g),
                final(plan)@,
            ),
        r && !final(g).eff(task as int) ==> forall|g1: TaskGraph|
            #[trigger] act_updated(*old(g), g1, task as int, Actual::Started) ==> stops_only(
                g1,
                old(plan)@,
                *final(g),
                final(plan)@,
                true,
            ),
        r && !final(g).eff(task as int) ==> settled(*final(g), final(plan)@, task as int),
        r && !final(g).eff(task as int) ==> forall|d: int|
            #[trigger] desc(*old(g), task as int, d) ==> settled(*final(g), final(plan)@, d),
{
    let ghost g0 = *g;
    let ghost p0 = plan@;
    if g.actual[task] != Actual::Starting {
        return false;
    }
    actual_set(g, task, Actual::Started);
    let ghost g1 = *g;
    proof {
        if g0.control_ok() {
            lemma_control_ok_frame(g0, g1);
        }
        crate::task_control::lemma_stops_only_refl(g1, p0, true);
        assert forall|d: int| #[trigger] desc(g0, task as int, d) == desc(g1, task as int, d) by {
            crate::stop_down::lemma_desc_same(g0, g1, task as int, d);
        }
    }
    let turn_off = match g.nodes[task].kind {
        TaskKind::Short { started_action, scheduled } => {
            match get_short_task_started_action(started_action, scheduled) {
                ShortTaskStartedAction::NoAction => false,
                ShortTaskStartedAction::TurnOff | ShortTaskStartedAction::Delete => true,
            }
        },
        _ => false,
    };
    if turn_off {
        plan_set_direct_off(g, plan, task);
    }
    let ghost g2 = *g;
    let ghost p2 = plan@;
    proof {
        assert(stops_only(g1, p0, g2, p2, true));
        assert forall|d: int| #[trigger] desc(g0, task as int, d) == desc(g2, task as int, d) by {
            crate::stop_down::lemma_desc_same(g0, g2, task as int, d);
        }
    }
    if !is_control_effective_on(g, task) {
        sync_actual_should_stop_related(g, plan, task);
        proof {
            if g0.control_ok() {
                lemma_control_ok_frame(g2, *g);
            }
            lemma_stops_only_trans(g1, p0, g2, p2, *g, plan@, true);
            assert forall|gx: TaskGraph| #[trigger] act_updated(g0, gx, task as int, Actual::Started) implies stops_only(
                gx,
                p0,
                *g,
                plan@,
                true,
            ) by {
                assert(gx.actual@ =~= g1.actual@);
                lemma_stops_only_base(g1, gx, p0, *g, plan@, true);
            }
        }
    } else {
        proof {
            assert(g2.actual@ == g1.actual@ && p2 == p0);
        }
        plan_event_started(g, plan, task);
        proof {
            if g0.control_ok() {
                lemma_control_ok_frame(g2, *g);
            }
            crate::start_down::lemma_reach_below(*g, task as int, task as int);
            assert(start_outcome(g2, *g, p2.run, plan@.run, task as int, task as int));
            assert forall|e: int| 0 <= e < g0.n() && e != task implies #[trigger] start_outcome(
                g0,
                *g,
                p0.run,
                plan@.run,
                task as int,
                e,
            ) by {
                assert(start_outcome(g2, *g, p2.run, plan@.run, task as int, e));
            }
            assert forall|gx: TaskGraph| #[trigger] act_updated(g0, gx, task as int, Actual::Started) implies starts_only(
                gx,
                PlanView { log_started: p0.log_started.update(task as int, true), ..p0 },
                *g,
                plan@,
            ) by {
                assert(gx.actual@ =~= g2.actual@);
                lemma_starts_only_base(
                    g2,
                    gx,
                    PlanView { log_started: p0.log_started.update(task as int, true), ..p0 },
                    *g,
                    plan@,
                );
            }
        }
    }
    true
}

/// The actual state of task `i` once the plan's processes are started and stopped:
/// a stop that can be sent makes it stopping, a start makes it starting.
pub open spec fn actual_after_plan(g: TaskGraph, p: PlanView, stoppable: Seq<bool>, i: int) -> Actual {
    if g.valid(i) && p.stop[i] && stoppable[i] {
        Actual::Stopping
    } else if g.valid(i) && p.run[i] {
        Actual::Starting
    } else {
        g.act(i)
    }
}

/// Apply the graph part of a plan: each task to run becomes starting, each task to
/// stop whose process can be signalled (`stoppable`) becomes stopping, and each task
/// to delete is deleted.  The deletions must be closed downward (`deletes_closed`;
/// see `defer_blocked_deletes`).  Starting and stopping processes is left to the
/// caller.
pub fn execute_plan_actual(g: &mut TaskGraph, plan: &ExecutePlan, stoppable: &Vec<bool>)
    requires
        old(g).wf(),
        plan@.wf(old(g).n()),
        stoppable@.len() == old(g).n(),
        deletes_closed(*old(g), plan@),
    ensures
        final(g).wf(),
        final(g).nodes@ == old(g).nodes@,
        final(g).same_control(*old(g)),
        forall|i: int| 0 <= i < old(g).n() ==> #[trigger] final(g).act(i) == actual_after_plan(*old(g), plan@, stoppable@, i),
        forall|i: int| 0 <= i < old(g).n() && !plan@.delete[i] ==> #[trigger] final(g).present@[i] == old(g).present@[i],
        forall|i: int| 0 <= i < old(g).n() && plan@.delete[i] && old(g).present@[i] ==> !#[trigger] final(g).present@[i],
        final(g).delete_when_stopped@ == old(g).delete_when_stopped@,
        forall|i: int| 0 <= i < old(g).n() && final(g).present@[i] ==> #[trigger] old(g).present@[i],
        old(g).control_ok() && (forall|i: int| old(g).valid(i) && plan@.delete[i] ==> !#[trigger] old(g).on(i))
            ==> final(g).control_ok(),
        names_unique(*old(g)) ==> names_unique(*final(g)),
{
    let ghost g0 = *g;
    let n = g.nodes.len();
    let mut i: usize = 0;
    while i < n
        invariant
            g0.wf(),
            g.wf(),
            g.same_structure(g0),
            g.same_control(g0),
            plan@.wf(n as int),
            stoppable@.len() == n,
            n == g0.n(),
            i <= n,
            forall|j: int| 0 <= j < i ==> #[trigger] g.act(j) == actual_after_plan(g0, plan@, stoppable@, j),
            forall|j: int| i <= j < n ==> #[trigger] g.act(j) == g0.act(j),
        decreases n - i,
    {
        let ghost gb = *g;
        if g.present[i] && plan.stop[i] && stoppable[i] {
            actual_set(g, i, Actual::Stopping);
        } else if g.present[i] && plan.run[i] {
            actual_set(g, i, Actual::Starting);
        }
        proof {
            assert forall|j: int| 0 <= j < n && j != i implies #[trigger] g.act(j) == gb.act(j) by {}
            assert forall|j: int| 0 <= j < i + 1 implies #[trigger] g.act(j) == actual_after_plan(g0, plan@, stoppable@, j) by {
                if j < i {
                    assert(gb.act(j) == actual_after_plan(g0, plan@, stoppable@, j));
                } else {
                    assert(gb.act(j) == g0.act(j));
                }
            }
            assert forall|j: int| i + 1 <= j < n implies #[trigger] g.act(j) == g0.act(j) by {
                assert(gb.act(j) == g0.act(j));
            }
        }
        i = i + 1;
    }
    let ghost g1 = *g;
    proof {
        if g0.control_ok() {
            crate::control::lemma_control_ok_frame(g0, g1);
        }
    }
    let mut i: usize = n;
    while i > 0
        invariant
            g1.wf(),
            g.wf(),
            g.nodes@ == g1.nodes@,
            g.same_control(g1),
            g.actual@ == g1.actual@,
            g.delete_when_stopped@ == g1.delete_when_stopped@,
            g1.same_structure(g0),
            g1.same_control(g0),
            forall|j: int| 0 <= j < n ==> #[trigger] g1.act(j) == actual_after_plan(g0, plan@, stoppable@, j),
            plan@.wf(n as int),
            deletes_closed(g0, plan@),
            n == g0.n(),
            i <= n,
            forall|j: int| 0 <= j < n && (j < i || !plan@.delete[j]) ==> #[trigger] g.present@[j] == g1.present@[j],
            forall|j: int| i <= j < n && plan@.delete[j] ==> !#[trigger] g.present@[j],
            forall|j: int| 0 <= j < n && g.present@[j] ==> #[trigger] g1.present@[j],
            g1.control_ok() && (forall|j: int| g0.valid(j) && plan@.delete[j] ==> !#[trigger] g0.on(j)) ==> g.control_ok(),
            names_unique(g1) ==> names_unique(*g),
        decreases i,
    {
        i = i - 1;
        if plan.delete[i] && g.present[i] {
            proof {
                assert(g0.valid(i as int));
                g1.lemma_same_nodes_deps(*g);
                g0.lemma_same_nodes_deps(g1);
                assert forall|d: int| g.valid(d) implies !#[trigger] g.has_up(d, i as int) by {
                    if g.has_up(d, i as int) {
                        let k = choose|k: int| 0 <= k < g.up(d).len() && (#[trigger] g.up(d)[k]).0 == i;
                        assert(g.up(d)[k].0 < d);
                        assert(g0.valid(d));
                        assert(g0.has_up(d, i as int));
                        assert(plan@.delete[d]);
                    }
                }
                assert(g.direct_on@ == g0.direct_on@ && g.transitive_on@ == g0.transitive_on@);
                assert(g.on(i as int) == g0.on(i as int));
            }
            crate::graph_edit::delete_task_immediate(g, i);
        }
    }
    proof {
        if names_unique(g0) {
            assert forall|a: int, b: int| g1.valid(a) && g1.valid(b) && a != b implies #[trigger] g1.nodes@[a].id@ != #[trigger] g1.nodes@[b].id@ by {
                assert(g0.valid(a) && g0.valid(b));
            }
        }
        assert forall|j: int| 0 <= j < g0.n() implies #[trigger] g.act(j) == actual_after_plan(g0, plan@, stoppable@, j) by {
            assert(g1.act(j) == actual_after_plan(g0, plan@, stoppable@, j));
        }
    }
}

/// Every present task downstream of a present task that the plan deletes is deleted
/// by the plan too, so the deletions leave no task with a missing upstream.
pub open spec fn deletes_closed(g: TaskGraph, p: PlanView) -> bool {
    forall|i: int, d: int|
        0 <= i < g.n() && p.delete[i] && g.valid(i) && g.valid(d) && #[trigger] g.has_up(d, i) ==> p.delete[d]
}

/// A task that the plan deletes while a present task downstream of it is not also
/// deleted cannot go now (that task would lose an upstream): it is taken out of the
/// deletions and marked to be deleted once it can (see `sweep_marked`).  Tasks are
/// taken last first, so the deletions that stay are closed downward.
pub fn defer_blocked_deletes(g: &mut TaskGraph, plan: &mut ExecutePlan)
    requires
        old(g).wf(),
        old(plan)@.wf(old(g).n()),
    ensures
        final(g).wf(),
        final(g).nodes@ == old(g).nodes@,
        final(g).present@ == old(g).present@,
        final(g).same_control(*old(g)),
        final(g).actual@ == old(g).actual@,
        final(plan)@ == (PlanView { delete: final(plan)@.delete, ..old(plan)@ }),
        final(plan)@.wf(old(g).n()),
        deletes_closed(*final(g), final(plan)@),
        forall|i: int|
            0 <= i < old(g).n() ==> #[trigger] final(plan)@.delete[i] == (old(plan)@.delete[i] && (!old(g).valid(i)
                || forall|d: int| old(g).valid(d) && #[trigger] old(g).has_up(d, i) ==> final(plan)@.delete[d])),
        forall|i: int|
            0 <= i < old(g).n() ==> #[trigger] final(g).delete_when_stopped@[i] == (old(g).delete_when_stopped@[i]
                || (old(plan)@.delete[i] && !final(plan)@.delete[i])),
        old(g).control_ok() ==> final(g).control_ok(),
        names_unique(*old(g)) ==> names_unique(*final(g)),
{
    let ghost g0 = *g;
    let ghost p0 = plan@;
    let n = g.nodes.len();
    let mut x: usize = n;
    while x > 0
        invariant
            g0.wf(),
            g.wf(),
            n == g0.n(),
            x <= n,
            g.nodes@ == g0.nodes@,
            g.present@ == g0.present@,
            g.same_control(g0),
            g.actual@ == g0.actual@,
            plan@ == (PlanView { delete: plan@.delete, ..p0 }),
            plan@.wf(n as int),
            forall|i: int| 0 <= i < x ==> #[trigger] plan@.delete[i] == p0.delete[i],
            forall|i: int|
                x <= i < n ==> #[trigger] plan@.delete[i] == (p0.delete[i] && (!g0.valid(i) || forall|d: int|
                    g0.valid(d) && #[trigger] g0.has_up(d, i) ==> plan@.delete[d])),
            forall|i: int|
                0 <= i < n ==> #[trigger] g.delete_when_stopped@[i] == (g0.delete_when_stopped@[i] || (p0.delete[i]
                    && !plan@.delete[i])),
            g0.control_ok() ==> g.control_ok(),
            names_unique(g0) ==> names_unique(*g),
        decreases x,
    {
        x = x - 1;
        if plan.delete[x] && g.present[x] {
            let mut blocked = false;
            let mut d: usize = x + 1;
            while d < n
                invariant
                    g0.wf(),
                    g.wf(),
                    g.nodes@ == g0.nodes@,
                    g.present@ == g0.present@,
                    n == g0.n(),
                    x < n,
                    x < d <= n,
                    plan@.wf(n as int),
                    blocked == exists|e: int| x < e < d && g0.valid(e) && #[trigger] g0.has_up(e, x as int) && !plan@.delete[e],
                decreases n - d,
            {
                let hit = g.present[d] && g.dep_type(d, x).is_some() && !plan.delete[d];
                proof {
                    g0.lemma_same_nodes_deps(*g);
                    assert(hit == (g0.valid(d as int) && g0.has_up(d as int, x as int) && !plan@.delete[d as int]));
                }
                if hit {
                    blocked = true;
                }
                d = d + 1;
            }
            proof {
                assert((exists|e: int| g0.valid(e) && #[trigger] g0.has_up(e, x as int) && !plan@.delete[e]) == blocked) by {
                    if exists|e: int| g0.valid(e) && #[trigger] g0.has_up(e, x as int) && !plan@.delete[e] {
                        let e = choose|e: int| g0.valid(e) && #[trigger] g0.has_up(e, x as int) && !plan@.delete[e];
                        let k = choose|k: int| 0 <= k < g0.up(e).len() && (#[trigger] g0.up(e)[k]).0 == x;
                        assert(g0.up(e)[k].0 < e);
                    }
                }
            }
            if blocked {
                let ghost gb = *g;
                plan.delete.set(x, false);
                crate::delete::mark_delete_when_stopped(g, x);
                proof {
                    if g0.control_ok() {
                        crate::control::lemma_control_ok_frame(gb, *g);
                    }
                    if names_unique(g0) {
                        assert forall|a: int, b: int| g.valid(a) && g.valid(b) && a != b implies #[trigger] g.nodes@[a].id@ != #[trigger] g.nodes@[b].id@ by {
                            assert(gb.valid(a) && gb.valid(b));
                        }
                    }
                }
            }
        }
    }
    proof {
        g0.lemma_same_nodes_deps(*g);
        assert forall|i: int, d: int|
            0 <= i < g.n() && plan@.delete[i] && g.valid(i) && g.valid(d) && #[trigger] g.has_up(d, i) implies plan@.delete[d] by {
            assert(g0.has_up(d, i));
        }
    }
}

} // verus!
