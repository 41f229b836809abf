use vstd::prelude::*;
use crate::model::{Actual, DependencyType, TaskGraph, TaskKind};
use crate::plan::{grows, ExecutePlan, PlanView};
use crate::set_direct::plan_set_direct;
use crate::start_down::{lemma_reach_below, start_outcome, sync_actual_should_start_downstream_exclusive};
use crate::stop_down::{desc, lemma_desc_same, settled, sync_actual_should_stop_related};
use crate::task_control::{
    can_start, lemma_starts_only_refl, lemma_starts_only_start_one, plan_actual_start_one, starts_only, stops_only,
};

verus! {

/// What offering task `i` a start does to its actual state and its `run` flag.
pub open spec fn start_one_outcome(g0: TaskGraph, g: TaskGraph, run0: Seq<bool>, run: Seq<bool>, i: int) -> bool {
    if can_start(g0, i) && g0.act(i) == Actual::Stopped {
        if g0.kind(i) is Empty {
            g.act(i) == Actual::Started && run[i] == run0[i]
        } else {
            g.act(i) == Actual::Stopped && run[i]
        }
    } else {
        g.act(i) == g0.act(i) && run[i] == run0[i]
    }
}

/// Offering task `i` a start leaves it started: it could start and was started, or is
/// an empty task that was stopped.
pub open spec fn start_one_passes(g: TaskGraph, i: int) -> bool {
    can_start(g, i) && (g.act(i) == Actual::Started || (g.act(i) == Actual::Stopped && g.kind(i) is Empty))
}

/// Offer task `root` a start, and if it is then started, start what is downstream of it.
pub fn sync_actual_should_start_downstream(g: &mut TaskGraph, plan: &mut ExecutePlan, root: usize)
    requires
        old(g).wf(),
        old(plan)@.wf(old(g).n()),
        old(g).valid(root as int),
    ensures
        final(g).wf(),
        final(g).same_structure(*old(g)),
        final(g).same_control(*old(g)),
        final(plan)@.wf(old(g).n()),
        starts_only(*old(g), old(plan)@, *final(g), final(plan)@),
        start_one_outcome(*old(g), *final(g), old(plan)@.run, final(plan)@.run, root as int),
        start_one_passes(*old(g), root as int) ==> forall|e: int|
            0 <= e < old(g).n() && e != root ==> #[trigger] start_outcome(
                *old(g),
                *final(g),
                old(plan)@.run,
                final(plan)@.run,
                root as int,
                e,
            ),
        !start_one_passes(*old(g), root as int) ==> forall|e: int|
            0 <= e < old(g).n() && e != root ==> #[trigger] final(g).actual@[e] == old(g).actual@[e]
                && final(plan)@.run[e] == old(plan)@.run[e],
{
    let ghost g0 = *g;
    let ghost p0 = plan@;
    proof {
        lemma_starts_only_refl(g0, p0);
    }
    let started = plan_actual_start_one(g, plan, root);
    let ghost g1 = *g;
    let ghost p1 = plan@;
    proof {
        lemma_starts_only_start_one(g0, p0, g0, p0, g1, p1, root as int);
    }
    if started {
        sync_actual_should_start_downstream_exclusive(g, plan, root);
        proof {
            lemma_reach_below(*g, root as int, root as int);
            assert(start_outcome(g1, *g, p1.run, plan@.run, root as int, root as int));
            assert forall|e: int| 0 <= e < g0.n() && e != root implies #[trigger] start_outcome(
                g0,
                *g,
                p0.run,
                plan@.run,
                root as int,
                e,
            ) by {
                assert(start_outcome(g1, *g, p1.run, plan@.run, root as int, e));
            }
            lemma_starts_only_trans(g0, p0, g1, p1, *g, plan@);
        }
    }
}

/// Starts after starts are starts.
pub proof fn lemma_starts_only_trans(a: TaskGraph, pa: PlanView, b: TaskGraph, pb: PlanView, c: TaskGraph, pc: PlanView)
    requires
        a.wf(),
        b.wf(),
        c.wf(),
        b.same_structure(a),
        c.same_structure(a),
        c.same_control(b),
        pa.wf(a.n()),
        starts_only(a, pa, b, pb),
        starts_only(b, pb, c, pc),
    ensures
        starts_only(a, pa, c, pc),
{
    assert forall|i: int| 0 <= i < a.n() && #[trigger] c.act(i) != a.act(i) implies a.act(i) == Actual::Stopped
        && c.act(i) == Actual::Started && a.kind(i) is Empty && c.valid(i) && can_start(c, i) by {
        if b.act(i) != a.act(i) {
            assert(b.act(i) == Actual::Started);
            assert(c.act(i) == b.act(i));
            lemma_start_still(b, c, i);
        }
    }
    assert forall|i: int| 0 <= i < a.n() && #[trigger] pc.run[i] && !pa.run[i] implies a.act(i) == Actual::Stopped
        && c.act(i) == Actual::Stopped && !(a.kind(i) is Empty) && c.valid(i) && can_start(c, i) by {
        if pb.run[i] {
            assert(b.act(i) == Actual::Stopped);
            assert(c.act(i) != b.act(i) ==> b.kind(i) is Empty);
            lemma_start_still(b, c, i);
        } else {
            assert(b.act(i) == a.act(i)) by {
                if b.act(i) != a.act(i) {
                    assert(a.kind(i) is Empty);
                }
            }
        }
    }
    assert(pa.grows_to(pc)) by {
        assert(grows(pa.log_starting, pc.log_starting)) by {
            assert forall|i: int| 0 <= i < pa.log_starting.len() && #[trigger] pa.log_starting[i] implies pc.log_starting[i] by {
                assert(pb.log_starting[i]);
            }
        }
        assert(grows(pa.log_started, pc.log_started)) by {
            assert forall|i: int| 0 <= i < pa.log_started.len() && #[trigger] pa.log_started[i] implies pc.log_started[i] by {
                assert(pb.log_started[i]);
            }
        }
        assert(grows(pa.run, pc.run)) by {
            assert forall|i: int| 0 <= i < pa.run.len() && #[trigger] pa.run[i] implies pc.run[i] by {
                assert(pb.run[i]);
            }
        }
    }
}

/// The control invariant depends only on the tasks and their control state.
pub proof fn lemma_control_ok_frame(a: TaskGraph, b: TaskGraph)
    requires
        b.nodes@ == a.nodes@,
        b.present@ == a.present@,
        b.same_control(a),
        a.control_ok(),
    ensures
        b.control_ok(),
{
    a.lemma_same_nodes_deps(b);
    assert forall|i: int| b.valid(i) implies #[trigger] b.node_control_ok(i) by {
        assert(a.node_control_ok(i));
        assert(b.strong_down_on(i) == a.strong_down_on(i)) by {
            if a.strong_down_on(i) {
                let d = choose|d: int| a.valid(d) && #[trigger] a.is_up(d, i, DependencyType::Strong) && a.on(d);
                assert(b.is_up(d, i, DependencyType::Strong));
            }
            if b.strong_down_on(i) {
                let d = choose|d: int| b.valid(d) && #[trigger] b.is_up(d, i, DependencyType::Strong) && b.on(d);
                assert(a.is_up(d, i, DependencyType::Strong));
            }
        }
        assert(b.all_weak_up_eff(i) == a.all_weak_up_eff(i)) by {
            assert forall|k: int| 0 <= k < b.up(i).len() implies #[trigger] b.up(i)[k] == a.up(i)[k] by {}
        }
    }
}

/// Offer a start, in index order (so each task after its upstreams), to every present
/// task flagged in `mask`: each that can start and is stopped is started (an empty
/// task) or added to `run`.
pub fn start_ready(g: &mut TaskGraph, plan: &mut ExecutePlan, mask: &Vec<bool>)
    requires
        old(g).wf(),
        old(plan)@.wf(old(g).n()),
        mask@.len() == old(g).n(),
    ensures
        final(g).wf(),
        final(g).same_structure(*old(g)),
        final(g).same_control(*old(g)),
        final(plan)@.wf(old(g).n()),
        starts_only(*old(g), old(plan)@, *final(g), final(plan)@),
        forall|i: int|
            0 <= i < old(g).n() && mask@[i] && final(g).valid(i) && #[trigger] can_start(*final(g), i) && final(g).act(i)
                == Actual::Stopped ==> final(plan)@.run[i] && !(final(g).kind(i) is Empty),
        forall|i: int| 0 <= i < old(g).n() && !mask@[i] ==> #[trigger] final(g).act(i) == old(g).act(i),
{
    let ghost g0 = *g;
    let ghost p0 = plan@;
    proof {
        lemma_starts_only_refl(g0, p0);
    }
    let n = g.nodes.len();
    let mut x: usize = 0;
    while x < n
        invariant
            g0.wf(),
            g.wf(),
            n == g0.n(),
            x <= n,
            mask@.len() == n,
            g.same_structure(g0),
            g.same_control(g0),
            plan@.wf(n as int),
            starts_only(g0, p0, *g, plan@),
            forall|i: int|
                0 <= i < x && mask@[i] && g.valid(i) && #[trigger] can_start(*g, i) && g.act(i) == Actual::Stopped
                    ==> plan@.run[i] && !(g.kind(i) is Empty),
            forall|i: int| 0 <= i < n && !mask@[i] ==> #[trigger] g.act(i) == g0.act(i),
        decreases n - x,
    {
        if mask[x] && g.present[x] {
            let ghost gb = *g;
            let ghost pb = plan@;
            plan_actual_start_one(g, plan, x);
            proof {
                lemma_starts_only_start_one(g0, p0, gb, pb, *g, plan@, x as int);
                assert forall|i: int| 0 <= i < n && !mask@[i] implies #[trigger] g.act(i) == g0.act(i) by {
                    assert(i != x);
                    assert(gb.act(i) == g0.act(i));
                }
                assert forall|i: int| 0 <= i <= x implies #[trigger] can_start(*g, i) == can_start(gb, i) by {
                    assert forall|k: int| 0 <= k < g.up(i).len() implies (#[trigger] g.up(i)[k]).0 < x || g.up(i)[k].0 < i by {
                        assert(g.up(i)[k].0 < i);
                    }
                    if g.all_up_started(i) != gb.all_up_started(i) {
                        if g.all_up_started(i) {
                            let k = choose|k: int| 0 <= k < gb.up(i).len() && gb.act((#[trigger] gb.up(i)[k]).0 as int) != Actual::Started;
                            assert(g.up(i)[k] == gb.up(i)[k]);
                            assert(gb.up(i)[k].0 < i);
                        } else {
                            let k = choose|k: int| 0 <= k < g.up(i).len() && g.act((#[trigger] g.up(i)[k]).0 as int) != Actual::Started;
                            assert(g.up(i)[k] == gb.up(i)[k]);
                            assert(gb.up(i)[k].0 < i);
                        }
                    }
                }
                assert forall|i: int|
                    0 <= i < x + 1 && mask@[i] && g.valid(i) && #[trigger] can_start(*g, i) && g.act(i) == Actual::Stopped
                        implies plan@.run[i] && !(g.kind(i) is Empty) by {
                    assert(can_start(gb, i));
                    if i < x {
                        assert(gb.act(i) == g.act(i));
                        assert(pb.run[i]);
                    }
                }
            }
        } else {
            proof {
                assert forall|i: int|
                    0 <= i < x + 1 && mask@[i] && g.valid(i) && #[trigger] can_start(*g, i) && g.act(i) == Actual::Stopped
                        implies plan@.run[i] && !(g.kind(i) is Empty) by {
                    if i == x {
                        assert(!g.valid(i));
                    }
                }
            }
        }
        x = x + 1;
    }
}

/// Turn `root` on by the user: update the control state (see `plan_set_direct`), offer
/// a start to every task whose control state changed, then to `root` and what is
/// downstream of it.  If `root` can start in the end, it is not left stopped without
/// its process asked to run.
pub fn plan_set_direct_on(g: &mut TaskGraph, plan: &mut ExecutePlan, root: usize)
    requires
        old(g).wf(),
        old(plan)@.wf(old(g).n()),
        old(g).valid(root as int),
    ensures
        final(g).wf(),
        final(g).same_structure(*old(g)),
        final(plan)@.wf(old(g).n()),
        final(g).direct_on@ == old(g).direct_on@.update(root as int, true),
        old(g).control_ok() ==> final(g).control_ok(),
        starts_only(*old(g), old(plan)@, *final(g), final(plan)@),
        can_start(*final(g), root as int) && final(g).act(root as int) == Actual::Stopped ==> final(plan)@.run[root as int] && !(final(g).kind(root as int) is Empty),
        forall|i: int|
            0 <= i < old(g).n() && (i == root || desc(*old(g), root as int, i) || !ctl_same(*old(g), *final(g), i))
                && final(g).valid(i) && #[trigger] can_start(*final(g), i) && final(g).act(i) == Actual::Stopped
                ==> final(plan)@.run[i] && !(final(g).kind(i) is Empty),
{
    let ghost g0 = *g;
    let ghost p0 = plan@;
    let before = control_snapshot(g);
    let down = crate::stop_down::descendants(g, root);
    plan_set_direct(g, plan, root, true, true);
    let ghost g1 = *g;
    let ghost p1 = plan@;
    sync_actual_should_start_downstream(g, plan, root);
    proof {
        assert forall|k: int| 0 <= k < g.up(root as int).len() implies g.act((#[trigger] g.up(root as int)[k]).0 as int)
            == g1.act(g1.up(root as int)[k].0 as int) by {
            let u = g.up(root as int)[k].0 as int;
            assert(g1.up(root as int)[k] == g.up(root as int)[k]);
            assert(u < root);
            if start_one_passes(g1, root as int) {
                lemma_reach_below(*g, root as int, u);
                assert(start_outcome(g1, *g, p1.run, plan@.run, root as int, u));
            }
        }
        if g0.control_ok() {
            lemma_control_ok_frame(g1, *g);
        }
        assert(can_start(*g, root as int) == can_start(g1, root as int));
        assert(starts_only(g0, p0, *g, plan@)) by {
            assert forall|i: int| 0 <= i < g0.n() && #[trigger] g.act(i) != g0.act(i) implies g0.act(i)
                == Actual::Stopped && g.act(i) == Actual::Started && g0.kind(i) is Empty && g.valid(i)
                && can_start(*g, i) by {
                if g1.act(i) != g0.act(i) {
                    assert(can_start(g1, i));
                    assert(g1.act(i) == Actual::Started);
                    assert(g.act(i) != g1.act(i) ==> g1.act(i) == Actual::Stopped);
                    assert(g.act(i) == Actual::Started);
                    lemma_start_still(g1, *g, i);
                }
            }
            assert forall|i: int| 0 <= i < g0.n() && #[trigger] plan@.run[i] && !p0.run[i] implies g0.act(i)
                == Actual::Stopped && g.act(i) == Actual::Stopped && !(g0.kind(i) is Empty) && g.valid(i)
                && can_start(*g, i) by {
                if p1.run[i] {
                    assert(can_start(g1, i));
                    assert(g1.act(i) == Actual::Stopped);
                    if g.act(i) != g1.act(i) {
                        assert(g1.kind(i) is Empty);
                    }
                    lemma_start_still(g1, *g, i);
                }
            }
            assert(p0.grows_to(plan@));
        }
    }
    let ghost g2 = *g;
    let ghost p2 = plan@;
    let n = g.nodes.len();
    let mut mask: Vec<bool> = Vec::new();
    let mut i: usize = 0;
    while i < n
        invariant
            n == g.n(),
            g.wf(),
            n == g0.n(),
            i <= n,
            before@.len() == n,
            down@.len() == n,
            forall|k: int| 0 <= k < n ==> #[trigger] before@[k] == (g0.direct_on@[k], g0.transitive_on@[k], g0.awueo@[k]),
            forall|k: int| 0 <= k < n ==> #[trigger] down@[k] == desc(g0, root as int, k),
            mask@.len() == i,
            forall|k: int|
                0 <= k < i ==> #[trigger] mask@[k] == (k == root || desc(g0, root as int, k) || !ctl_same(g0, *g, k)),
        decreases n - i,
    {
        let c = before[i];
        mask.push(i == root || down[i] || c.0 != g.direct_on[i] || c.1 != g.transitive_on[i] || c.2 != g.awueo[i]);
        i = i + 1;
    }
    start_ready(g, plan, &mask);
    proof {
        lemma_starts_only_trans(g0, p0, g2, p2, *g, plan@);
        if g0.control_ok() {
            lemma_control_ok_frame(g2, *g);
        }
        assert forall|i: int|
            0 <= i < g0.n() && (i == root || desc(g0, root as int, i) || !ctl_same(g0, *g, i)) && g.valid(i)
                && #[trigger] can_start(*g, i) && g.act(i) == Actual::Stopped implies plan@.run[i] && !(g.kind(i) is Empty) by {
            assert(mask@[i]);
        }
        assert(g.valid(root as int));
        assert(mask@[root as int]);
    }
}

/// Task `i` has the same control state (direct, transitive, awueo) in `a` and `b`.
pub open spec fn ctl_same(a: TaskGraph, b: TaskGraph, i: int) -> bool {
    a.direct_on@[i] == b.direct_on@[i] && a.transitive_on@[i] == b.transitive_on@[i] && a.awueo@[i] == b.awueo@[i]
}

/// The control state of each task slot: direct, transitive and awueo.
fn control_snapshot(g: &TaskGraph) -> (r: Vec<(bool, bool, bool)>)
    requires
        g.wf(),
    ensures
        r@.len() == g.n(),
        forall|k: int| 0 <= k < g.n() ==> #[trigger] r@[k] == (g.direct_on@[k], g.transitive_on@[k], g.awueo@[k]),
{
    let n = g.nodes.len();
    let mut r: Vec<(bool, bool, bool)> = Vec::new();
    let mut i: usize = 0;
    while i < n
        invariant
            g.wf(),
            n == g.n(),
            i <= n,
            r@.len() == i,
            forall|k: int| 0 <= k < i ==> #[trigger] r@[k] == (g.direct_on@[k], g.transitive_on@[k], g.awueo@[k]),
        decreases n - i,
    {
        r.push((g.direct_on[i], g.transitive_on[i], g.awueo[i]));
        i = i + 1;
    }
    r
}

/// Between `a` and `b` only starts happened, so a task that could start in `a` still can.
pub proof fn lemma_start_still(a: TaskGraph, b: TaskGraph, i: int)
    requires
        a.wf(),
        b.wf(),
        b.same_structure(a),
        b.same_control(a),
        0 <= i < a.n(),
        forall|j: int| 0 <= j < a.n() && #[trigger] b.act(j) != a.act(j) ==> a.act(j) == Actual::Stopped && b.act(j)
            == Actual::Started,
        can_start(a, i),
    ensures
        can_start(b, i),
{
    assert forall|k: int| 0 <= k < b.up(i).len() implies b.act((#[trigger] b.up(i)[k]).0 as int) == Actual::Started by {
        assert(a.up(i)[k] == b.up(i)[k]);
        assert(a.up(i)[k].0 < i);
    }
}

/// Turn `task` off by the user: update the control state (see `plan_set_direct`), then
/// offer stops going upward from `task` (see `sync_actual_should_stop_related`).
pub fn plan_set_direct_off(g: &mut TaskGraph, plan: &mut ExecutePlan, task: usize)
    requires
        old(g).wf(),
        old(plan)@.wf(old(g).n()),
        old(g).valid(task as int),
    ensures
        final(g).wf(),
        final(g).same_structure(*old(g)),
        final(plan)@.wf(old(g).n()),
        final(g).direct_on@ == old(g).direct_on@.update(task as int, false),
        old(g).control_ok() ==> final(g).control_ok(),
        stops_only(*old(g), old(plan)@, *final(g), final(plan)@, true),
        !final(g).eff(task as int) ==> settled(*final(g), final(plan)@, task as int),
        !final(g).eff(task as int) ==> forall|d: int|
            #[trigger] desc(*old(g), task as int, d) ==> settled(*final(g), final(plan)@, d),
        !final(g).eff(task as int) ==> forall|u: int|
            final(g).valid(u) && !final(g).eff(u) ==> #[trigger] settled(*final(g), final(plan)@, u),
        final(g).eff(task as int) ==> final(g).actual@ == old(g).actual@ && final(plan)@ == old(plan)@,
{
    let ghost g0 = *g;
    let ghost p0 = plan@;
    plan_set_direct(g, plan, task, false, false);
    let ghost g1 = *g;
    sync_actual_should_stop_related(g, plan, task);
    proof {
        if g0.control_ok() {
            lemma_control_ok_frame(g1, *g);
        }
        assert forall|d: int| #[trigger] desc(g0, task as int, d) == desc(g1, task as int, d) by {
            lemma_desc_same(g0, g1, task as int, d);
        }
        lemma_stops_only_base(g1, g0, p0, *g, plan@, true);
    }
}

/// `stops_only` depends on the base graph only through its tasks and actual states.
pub proof fn lemma_stops_only_base(a1: TaskGraph, a2: TaskGraph, pa: PlanView, b: TaskGraph, pb: PlanView, checked: bool)
    requires
        a1.nodes@ == a2.nodes@,
        a1.actual@ == a2.actual@,
        stops_only(a1, pa, b, pb, checked),
    ensures
        stops_only(a2, pa, b, pb, checked),
{
    assert forall|i: int| 0 <= i < a2.n() implies #[trigger] crate::task_control::stop_step_ok(a2, pa, b, pb, i, checked) by {
        assert(crate::task_control::stop_step_ok(a1, pa, b, pb, i, checked));
        assert(a1.act(i) == a2.act(i));
        assert(a1.kind(i) == a2.kind(i));
    }
}

/// `starts_only` depends on the base graph only through its tasks and actual states.
pub proof fn lemma_starts_only_base(a1: TaskGraph, a2: TaskGraph, pa: PlanView, b: TaskGraph, pb: PlanView)
    requires
        a1.nodes@ == a2.nodes@,
        a1.actual@ == a2.actual@,
        starts_only(a1, pa, b, pb),
    ensures
        starts_only(a2, pa, b, pb),
{
    assert forall|i: int| 0 <= i < a2.n() && #[trigger] b.act(i) != a2.act(i) implies a2.act(i) == Actual::Stopped
        && b.act(i) == Actual::Started && a2.kind(i) is Empty && b.valid(i) && can_start(b, i) by {
        assert(a1.act(i) == a2.act(i));
        assert(a1.kind(i) == a2.kind(i));
    }
    assert forall|i: int| 0 <= i < a2.n() && #[trigger] pb.run[i] && !pa.run[i] implies a2.act(i) == Actual::Stopped
        && b.act(i) == Actual::Stopped && !(a2.kind(i) is Empty) && b.valid(i) && can_start(b, i) by {
        assert(a1.act(i) == a2.act(i));
        assert(a1.kind(i) == a2.kind(i));
    }
}

/// After task `task` reached started: log it and start what is downstream of it.
pub fn plan_event_started(g: &mut TaskGraph, plan: &mut ExecutePlan, task: usize)
    requires
        old(g).wf(),
        old(plan)@.wf(old(g).n()),
        old(g).valid(task as int),
    ensures
        final(g).wf(),
        final(g).same_structure(*old(g)),
        final(g).same_control(*old(g)),
        final(plan)@.wf(old(g).n()),
        final(plan)@.log_started[task as int],
        starts_only(
            *old(g),
            PlanView { log_started: old(plan)@.log_started.update(task as int, true), ..old(plan)@ },
            *final(g),
            final(plan)@,
        ),
        forall|e: int|
            0 <= e < old(g).n() ==> #[trigger] start_outcome(
                *old(g),
                *final(g),
                old(plan)@.run,
                final(plan)@.run,
                task as int,
                e,
            ),
{
    plan.log_started.set(task, true);
    let ghost p1 = plan@;
    sync_actual_should_start_downstream_exclusive(g, plan, task);
    proof {
        assert(p1.log_started[task as int]);
        assert(grows(p1.log_started, plan@.log_started));
    }
}

/// After task `task` reached stopped: offer stops going upward from it.
pub fn plan_event_stopped(g: &mut TaskGraph, plan: &mut ExecutePlan, task: usize)
    requires
        old(g).wf(),
        old(plan)@.wf(old(g).n()),
        old(g).valid(task as int),
    ensures
        final(g).wf(),
        final(g).same_structure(*old(g)),
        final(g).same_control(*old(g)),
        final(plan)@.wf(old(g).n()),
        stops_only(*old(g), old(plan)@, *final(g), final(plan)@, true),
        !old(g).eff(task as int) ==> settled(*final(g), final(plan)@, task as int),
        !old(g).eff(task as int) ==> forall|d: int|
            #[trigger] desc(*old(g), task as int, d) ==> settled(*final(g), final(plan)@, d),
        !old(g).eff(task as int) ==> forall|u: int|
            old(g).valid(u) && !old(g).eff(u) ==> #[trigger] settled(*final(g), final(plan)@, u),
{
    sync_actual_should_stop_related(g, plan, task);
}

} // verus!
