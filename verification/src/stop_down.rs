use vstd::prelude::*;
use crate::measure::{count_ne, lemma_count_ne_update, lemma_p2_pos, lemma_stack_push, p2, stack_w};
use crate::model::{Actual, ShortTaskStartedAction, TaskGraph, TaskKind};
use crate::plan::{ExecutePlan, PlanView};
use crate::task_control::{
    can_stop, lemma_stops_only_refl, lemma_stops_only_stop_one, plan_actual_stop_one, stops_only,
};
use crate::task_util::is_control_effective_on;

verus! {

/// `d` is a present task downstream of `r`, directly or through other tasks.
pub open spec fn desc(g: TaskGraph, r: int, d: int) -> bool
    decreases d,
{
    g.valid(d) && exists|k: int|
        0 <= k < g.up(d).len() && ((#[trigger] g.up(d)[k]).0 == r || (g.up(d)[k].0 < d && desc(
            g,
            r,
            g.up(d)[k].0 as int,
        )))
}

pub proof fn lemma_desc_below(g: TaskGraph, r: int, e: int)
    requires
        g.wf(),
        e <= r,
    ensures
        !desc(g, r, e),
    decreases e,
{
    if desc(g, r, e) {
        let k = choose|k: int|
            0 <= k < g.up(e).len() && ((#[trigger] g.up(e)[k]).0 == r || (g.up(e)[k].0 < e && desc(
                g,
                r,
                g.up(e)[k].0 as int,
            )));
        assert(g.up(e)[k].0 < e);
        lemma_desc_below(g, r, g.up(e)[k].0 as int);
    }
}

pub proof fn lemma_desc_same(g1: TaskGraph, g2: TaskGraph, r: int, e: int)
    requires
        g1.nodes@ == g2.nodes@,
        g1.present@ == g2.present@,
    ensures
        desc(g1, r, e) == desc(g2, r, e),
    decreases e,
{
    if 0 <= e < g1.n() {
        assert forall|k: int| 0 <= k < g1.up(e).len() && (#[trigger] g1.up(e)[k]).0 < e implies desc(
            g1,
            r,
            g1.up(e)[k].0 as int,
        ) == desc(g2, r, g1.up(e)[k].0 as int) by {
            lemma_desc_same(g1, g2, r, g1.up(e)[k].0 as int);
        }
        if desc(g1, r, e) {
            let k = choose|k: int|
                0 <= k < g1.up(e).len() && ((#[trigger] g1.up(e)[k]).0 == r || (g1.up(e)[k].0 < e && desc(
                    g1,
                    r,
                    g1.up(e)[k].0 as int,
                )));
            assert(g2.up(e)[k] == g1.up(e)[k]);
        }
        if desc(g2, r, e) {
            let k = choose|k: int|
                0 <= k < g2.up(e).len() && ((#[trigger] g2.up(e)[k]).0 == r || (g2.up(e)[k].0 < e && desc(
                    g2,
                    r,
                    g2.up(e)[k].0 as int,
                )));
            assert(g2.up(e)[k] == g1.up(e)[k]);
        }
    }
}

pub open spec fn pending_desc(g: TaskGraph, r: int, d: int, e: int) -> bool {
    g.valid(e) && exists|k: int|
        0 <= k < g.up(e).len() && ((#[trigger] g.up(e)[k]).0 == r || (g.up(e)[k].0 < d && desc(
            g,
            r,
            g.up(e)[k].0 as int,
        )))
}

/// A forced stop of task `e`, from `g0`/`p0` to `g`/`p`: what is not stopped ends up
/// stopped or with its process in `stop`, and a completed short task with the
/// `Delete` started action is added to `delete`.
pub open spec fn force_stopped(g0: TaskGraph, p0: PlanView, g: TaskGraph, p: PlanView, e: int) -> bool {
    &&& g0.act(e) != Actual::Stopped ==> g.act(e) == Actual::Stopped || p.stop[e]
    &&& g0.act(e) == Actual::Started && g0.kind(e) is Short && g0.kind(e)->started_action == Some(
        ShortTaskStartedAction::Delete,
    ) ==> p.delete[e]
}

/// Task `e` kept its actual state and its stop-related plan flags.
pub open spec fn untouched(g0: TaskGraph, p0: PlanView, g: TaskGraph, p: PlanView, e: int) -> bool {
    &&& g.act(e) == g0.act(e)
    &&& p.stop[e] == p0.stop[e]
    &&& p.delete[e] == p0.delete[e]
    &&& p.log_stopped[e] == p0.log_stopped[e]
}

/// After `task` started stopping: log it, and stop every task downstream of it at
/// once (without waiting for their own downstreams).  Forced stops do not depend on
/// order, so the downstream tasks are visited in index order.
pub fn plan_event_stopping(g: &mut TaskGraph, plan: &mut ExecutePlan, task: usize)
    requires
        old(g).wf(),
        old(plan)@.wf(old(g).n()),
        old(g).valid(task as int),
    ensures
        final(g).wf(),
        final(g).same_structure(*old(g)),
        final(g).same_control(*old(g)),
        final(plan)@.wf(old(g).n()),
        final(plan)@.log_stopping[task as int],
        stops_only(
            *old(g),
            PlanView { log_stopping: old(plan)@.log_stopping.update(task as int, true), ..old(plan)@ },
            *final(g),
            final(plan)@,
            false,
        ),
        forall|e: int|
            0 <= e < old(g).n() && #[trigger] desc(*old(g), task as int, e) ==> force_stopped(
                *old(g),
                old(plan)@,
                *final(g),
                final(plan)@,
                e,
            ),
        forall|e: int|
            0 <= e < old(g).n() && !#[trigger] desc(*old(g), task as int, e) ==> untouched(
                *old(g),
                old(plan)@,
                *final(g),
                final(plan)@,
                e,
            ),
{
    let ghost g0 = *g;
    plan.log_stopping.set(task, true);
    let ghost p0 = plan@;
    let n = g.nodes.len();
    let mut reached: Vec<bool> = Vec::new();
    let mut e: usize = 0;
    while e < n
        invariant
            g.wf(),
            n == g.n(),
            e <= n,
            reached@.len() == e,
            forall|j: int| 0 <= j < e ==> #[trigger] reached@[j] == pending_desc(*g, task as int, task + 1, j),
        decreases n - e,
    {
        let r = g.present[e] && g.dep_type(e, task).is_some();
        proof {
            if r {
                let k = choose|k: int| 0 <= k < g.up(e as int).len() && (#[trigger] g.up(e as int)[k]).0 == task;
                assert(pending_desc(*g, task as int, task + 1, e as int));
            }
            if pending_desc(*g, task as int, task + 1, e as int) {
                let k = choose|k: int|
                    0 <= k < g.up(e as int).len() && ((#[trigger] g.up(e as int)[k]).0 == task || (g.up(e as int)[k].0
                        < task + 1 && desc(*g, task as int, g.up(e as int)[k].0 as int)));
                if g.up(e as int)[k].0 != task {
                    lemma_desc_below(*g, task as int, g.up(e as int)[k].0 as int);
                }
                assert(g.has_up(e as int, task as int));
            }
        }
        reached.push(r);
        e = e + 1;
    }
    proof {
        lemma_stops_only_refl(g0, p0, false);
        assert forall|j: int| 0 <= j <= task implies !#[trigger] desc(g0, task as int, j) by {
            lemma_desc_below(g0, task as int, j);
        }
    }
    let mut d: usize = task + 1;
    while d < n
        invariant
            g0.wf(),
            g.wf(),
            g.same_structure(g0),
            g.same_control(g0),
            plan@.wf(g0.n()),
            n == g.n(),
            task < d <= n,
            reached@.len() == n,
            stops_only(g0, p0, *g, plan@, false),
            forall|j: int| d <= j < n ==> #[trigger] reached@[j] == pending_desc(g0, task as int, d as int, j),
            forall|j: int| d <= j < n ==> #[trigger] untouched(g0, p0, *g, plan@, j),
            forall|j: int| 0 <= j < d && #[trigger] desc(g0, task as int, j) ==> force_stopped(g0, p0, *g, plan@, j),
            forall|j: int| 0 <= j < d && !#[trigger] desc(g0, task as int, j) ==> untouched(g0, p0, *g, plan@, j),
            forall|j: int| 0 <= j <= task ==> !#[trigger] desc(g0, task as int, j),
        decreases n - d,
    {
        let ghost gb = *g;
        let ghost pb = plan@;
        proof {
            assert(reached@[d as int] == desc(g0, task as int, d as int)) by {
                if desc(g0, task as int, d as int) {
                    let k = choose|k: int|
                        0 <= k < g0.up(d as int).len() && ((#[trigger] g0.up(d as int)[k]).0 == task || (g0.up(
                            d as int,
                        )[k].0 < d && desc(g0, task as int, g0.up(d as int)[k].0 as int)));
                    assert(pending_desc(g0, task as int, d as int, d as int));
                }
                if pending_desc(g0, task as int, d as int, d as int) {
                    let k = choose|k: int|
                        0 <= k < g0.up(d as int).len() && ((#[trigger] g0.up(d as int)[k]).0 == task || (g0.up(
                            d as int,
                        )[k].0 < d && desc(g0, task as int, g0.up(d as int)[k].0 as int)));
                    assert(g0.up(d as int)[k].0 < d);
                }
            }
        }
        if g.present[d] && reached[d] {
            plan_actual_stop_one(g, plan, d, true);
            proof {
                lemma_stops_only_stop_one(g0, p0, gb, pb, *g, plan@, d as int, true, false);
                assert(untouched(g0, p0, gb, pb, d as int));
                assert(force_stopped(g0, p0, *g, plan@, d as int));
            }
            let ghost ga = *g;
            let mut e: usize = d + 1;
            while e < n
                invariant
                    g.wf(),
                    g0.wf(),
                    ga.same_structure(g0),
                    n == g.n(),
                    n == g0.n(),
                    d < e <= n,
                    reached@.len() == n,
                    *g == ga,
                    desc(g0, task as int, d as int),
                    forall|j: int| e <= j < n ==> #[trigger] reached@[j] == pending_desc(g0, task as int, d as int, j),
                    forall|j: int| d < j < e ==> #[trigger] reached@[j] == pending_desc(g0, task as int, d + 1, j),
                decreases n - e,
            {
                let r = g.present[e] && g.dep_type(e, d).is_some();
                let ghost old_r = reached@[e as int];
                proof {
                    ga.lemma_same_nodes_deps(g0);
                    lemma_pending_desc_step(g0, task as int, d as int, e as int);
                }
                if r {
                    reached.set(e, true);
                }
                e = e + 1;
            }
        } else {
            proof {
                assert forall|j: int| d < j < n implies #[trigger] reached@[j] == pending_desc(g0, task as int, d + 1, j) by {
                    lemma_pending_desc_step(g0, task as int, d as int, j);
                }
            }
        }
        proof {
            assert forall|j: int| 0 <= j < d && #[trigger] desc(g0, task as int, j) implies force_stopped(g0, p0, *g, plan@, j) by {
                assert(force_stopped(g0, p0, gb, pb, j));
            }
            assert forall|j: int| 0 <= j < d && !#[trigger] desc(g0, task as int, j) implies untouched(g0, p0, *g, plan@, j) by {
                assert(untouched(g0, p0, gb, pb, j));
            }
            assert forall|j: int| d + 1 <= j < n implies #[trigger] untouched(g0, p0, *g, plan@, j) by {
                assert(untouched(g0, p0, gb, pb, j));
            }
        }
        d = d + 1;
    }
    assert(p0.log_stopping[task as int]);
}

pub proof fn lemma_pending_desc_step(g: TaskGraph, r: int, d: int, e: int)
    requires
        g.wf(),
        0 <= d < e < g.n(),
    ensures
        pending_desc(g, r, d + 1, e) == (pending_desc(g, r, d, e) || (g.valid(e) && g.has_up(e, d) && desc(g, r, d))),
{
    if pending_desc(g, r, d + 1, e) {
        let k = choose|k: int|
            0 <= k < g.up(e).len() && ((#[trigger] g.up(e)[k]).0 == r || (g.up(e)[k].0 < d + 1 && desc(
                g,
                r,
                g.up(e)[k].0 as int,
            )));
        if g.up(e)[k].0 == d && g.up(e)[k].0 != r {
            assert(g.has_up(e, d));
        }
    }
    if g.valid(e) && g.has_up(e, d) && desc(g, r, d) {
        let k = choose|k: int| 0 <= k < g.up(e).len() && (#[trigger] g.up(e)[k]).0 == d;
        assert(pending_desc(g, r, d + 1, e));
    }
}


fn seen_vec(n: usize) -> (v: Vec<bool>)
    ensures
        v@.len() == n,
        forall|i: int| 0 <= i < n ==> !#[trigger] v@[i],
{
    let mut v: Vec<bool> = Vec::new();
    let mut i: usize = 0;
    while i < n
        invariant
            i <= n,
            v@.len() == i,
            forall|j: int| 0 <= j < i ==> !#[trigger] v@[j],
        decreases n - i,
    {
        v.push(false);
        i = i + 1;
    }
    v
}

/// Task `x` needs nothing more to stop: it is stopped, its process is asked to
/// stop, or it may not stop yet (a downstream is not stopped, or it should run).
pub open spec fn settled(g: TaskGraph, p: PlanView, x: int) -> bool {
    g.act(x) == Actual::Stopped || p.stop[x] || !can_stop(g, x)
}

/// Offering task `x` a stop keeps every task in a downstream-closed set that excludes
/// `x` settled.
pub proof fn lemma_settled_frame(
    g0: TaskGraph,
    gb: TaskGraph,
    pb: PlanView,
    g: TaskGraph,
    p: PlanView,
    x: int,
    seen: Seq<bool>,
)
    requires
        g0.wf(),
        gb.wf(),
        g.wf(),
        gb.same_structure(g0),
        g.same_structure(g0),
        g.same_control(gb),
        seen.len() == g0.n(),
        0 <= x < g0.n(),
        !seen[x],
        pb.grows_to(p),
        pb.wf(g0.n()),
        forall|j: int| 0 <= j < g0.n() && j != x ==> #[trigger] g.act(j) == gb.act(j),
        g.act(x) != gb.act(x) ==> can_stop(gb, x),
        forall|y: int| 0 <= y < g0.n() && #[trigger] seen[y] ==> settled(gb, pb, y) && g0.present@[y],
        forall|y: int, d: int| 0 <= y < g0.n() && #[trigger] seen[y] && g0.valid(d) && #[trigger] g0.has_up(d, y) ==> seen[d],
    ensures
        forall|y: int| 0 <= y < g0.n() && #[trigger] seen[y] ==> settled(g, p, y),
{
    g0.lemma_same_nodes_deps(gb);
    g0.lemma_same_nodes_deps(g);
    assert forall|y: int| 0 <= y < g0.n() && #[trigger] seen[y] implies settled(g, p, y) by {
        assert(settled(gb, pb, y));
        assert(g.act(y) == gb.act(y));
        if gb.act(y) != Actual::Stopped && !pb.stop[y] {
            assert(!can_stop(gb, y));
            if !gb.all_down_stopped(y) {
                let d = choose|d: int| gb.valid(d) && #[trigger] gb.has_up(d, y) && gb.act(d) != Actual::Stopped;
                assert(g0.has_up(d, y));
                assert(seen[d]);
                assert(g.act(d) == gb.act(d));
                assert(!g.all_down_stopped(y));
            } else {
                assert(gb.eff(y) && gb.all_up_started(y));
                if g.act(x) != gb.act(x) {
                    assert(gb.all_down_stopped(x));
                    if gb.has_up(y, x) {
                        assert(gb.act(y) == Actual::Stopped);
                    }
                }
                assert forall|k: int| 0 <= k < g.up(y).len() implies g.act((#[trigger] g.up(y)[k]).0 as int)
                    == Actual::Started by {
                    assert(gb.up(y)[k] == g.up(y)[k]);
                    assert(gb.up(y)[k].0 < y);
                    if g.up(y)[k].0 == x && g.act(x) != gb.act(x) {
                        assert(gb.has_up(y, x));
                    }
                }
                assert(g.eff(y) && g.all_up_started(y));
            }
        }
    }
}

/// In a downstream-closed set, every task downstream of a member is a member.
pub proof fn lemma_closed_desc(g0: TaskGraph, seen: Seq<bool>, r: int, d: int)
    requires
        g0.wf(),
        seen.len() == g0.n(),
        0 <= r < g0.n(),
        seen[r],
        forall|y: int, e: int| 0 <= y < g0.n() && #[trigger] seen[y] && g0.valid(e) && #[trigger] g0.has_up(e, y) ==> seen[e],
        desc(g0, r, d),
    ensures
        seen[d],
    decreases d,
{
    let k = choose|k: int|
        0 <= k < g0.up(d).len() && ((#[trigger] g0.up(d)[k]).0 == r || (g0.up(d)[k].0 < d && desc(
            g0,
            r,
            g0.up(d)[k].0 as int,
        )));
    let u = g0.up(d)[k].0 as int;
    assert(u < d);
    assert(g0.has_up(d, u));
    if u != r {
        lemma_closed_desc(g0, seen, r, u);
    }
}

/// After `task` became not effectively on (or stopped): going upward from `task`
/// through tasks that are not effectively on, offer a stop to each of them and to
/// every task downstream of them, downstream first (post-order), each task once.
/// When `task` is not effectively on, it and every task downstream of it end up
/// settled.
pub fn sync_actual_should_stop_related(g: &mut TaskGraph, plan: &mut ExecutePlan, task: usize)
    requires
        old(g).wf(),
        old(plan)@.wf(old(g).n()),
        old(g).valid(task as int),
    ensures
        final(g).wf(),
        final(g).same_structure(*old(g)),
        final(g).same_control(*old(g)),
        final(plan)@.wf(old(g).n()),
        stops_only(*old(g), old(plan)@, *final(g), final(plan)@, true),
        !old(g).eff(task as int) ==> settled(*final(g), final(plan)@, task as int),
        !old(g).eff(task as int) ==> forall|d: int|
            #[trigger] desc(*old(g), task as int, d) ==> settled(*final(g), final(plan)@, d),
        !old(g).eff(task as int) ==> forall|u: int|
            old(g).valid(u) && !old(g).eff(u) ==> #[trigger] settled(*final(g), final(plan)@, u),
        old(g).eff(task as int) ==> final(g).actual@ == old(g).actual@ && final(plan)@ == old(plan)@,
{
    let ghost g0 = *g;
    let ghost p0 = plan@;
    let n = g.nodes.len();
    let ghost nn = n as nat;
    let mut seen = seen_vec(n);
    let mut up_frontier: Vec<usize> = Vec::new();
    up_frontier.push(task);
    proof {
        lemma_stops_only_refl(g0, p0, true);
        assert(up_frontier@[0] == task);
    }
    while up_frontier.len() > 0
        invariant
            g0.wf(),
            g.wf(),
            g.same_structure(g0),
            g.same_control(g0),
            plan@.wf(g0.n()),
            n == g.n(),
            nn == n,
            task < n,
            seen@.len() == n,
            stops_only(g0, p0, *g, plan@, true),
            forall|j: int| 0 <= j < up_frontier@.len() ==> g.valid(#[trigger] up_frontier@[j] as int),
            forall|y: int| 0 <= y < n && #[trigger] seen@[y] ==> settled(*g, plan@, y) && g0.present@[y],
            forall|y: int, d: int|
                0 <= y < n && #[trigger] seen@[y] && g0.valid(d) && #[trigger] g0.has_up(d, y) ==> seen@[d],
            !g0.eff(task as int) ==> seen@[task as int] || (up_frontier@.len() > 0 && up_frontier@[0] == task),
            g0.eff(task as int) ==> g.actual@ == g0.actual@ && plan@ == p0 && (up_frontier@.len() == 0
                || up_frontier@ == seq![task]),
        decreases count_ne(seen@, true), up_frontier@.len(),
    {
        let ghost fb = up_frontier@;
        let u = up_frontier.pop().unwrap();
        proof {
            assert(fb.drop_last() =~= up_frontier@);
            assert(g.valid(u as int));
            if !g0.eff(task as int) && !seen@[task as int] && up_frontier@.len() > 0 {
                assert(up_frontier@[0] == fb[0]);
            }
            if g0.eff(task as int) {
                assert(u == task);
                assert(up_frontier@.len() == 0);
            }
        }
        if seen[u] {
            continue;
        }
        if is_control_effective_on(g, u) {
            continue;
        }
        let ghost c0 = count_ne(seen@, true);
        let mut df: Vec<(bool, usize)> = Vec::new();
        df.push((true, u));
        proof {
            assert(df@[0] == (true, u));
        }
        while df.len() > 0
            invariant
                g0.wf(),
                g.wf(),
                g.same_structure(g0),
                g.same_control(g0),
                plan@.wf(g0.n()),
                n == g.n(),
                nn == n,
                task < n,
                seen@.len() == n,
                u < n,
                stops_only(g0, p0, *g, plan@, true),
                forall|j: int| 0 <= j < df@.len() ==> g.valid((#[trigger] df@[j]).1 as int),
                forall|j: int| 0 <= j < up_frontier@.len() ==> g.valid(#[trigger] up_frontier@[j] as int),
                seen@[u as int] || exists|j: int| 0 <= j < df@.len() && (#[trigger] df@[j]).1 == u,
                count_ne(seen@, true) + (if seen@[u as int] {
                    1nat
                } else {
                    0nat
                }) <= c0,
                forall|y: int| 0 <= y < n && #[trigger] seen@[y] ==> settled(*g, plan@, y) && g0.present@[y],
                forall|y: int, d: int|
                    0 <= y < n && #[trigger] seen@[y] && g0.valid(d) && #[trigger] g0.has_up(d, y) ==> seen@[d],
                forall|j: int, d: int|
                    0 <= j < df@.len() && !(#[trigger] df@[j]).0 && g0.valid(d) && #[trigger] g0.has_up(d, df@[j].1 as int)
                        ==> seen@[d] || exists|j2: int| j < j2 < df@.len() && (#[trigger] df@[j2]).1 == d,
                !g0.eff(task as int) ==> seen@[task as int] || (up_frontier@.len() > 0 && up_frontier@[0] == task)
                    || u == task,
            decreases stack_w(df@, false, nn),
        {
            let ghost dfb = df@;
            let (first, x) = df.pop().unwrap();
            proof {
                assert(dfb.drop_last() =~= df@);
                assert(dfb.last() == (first, x));
                assert(g.valid(dfb[dfb.len() - 1].1 as int));
                lemma_p2_pos((nn - x) as nat);
                if !seen@[u as int] && x != u {
                    let j = choose|j: int| 0 <= j < dfb.len() && (#[trigger] dfb[j]).1 == u;
                    assert(df@[j] == dfb[j]);
                }
            }
            if seen[x] {
                proof {
                    assert forall|j: int, d: int|
                        0 <= j < df@.len() && !(#[trigger] df@[j]).0 && g0.valid(d) && #[trigger] g0.has_up(d, df@[j].1 as int)
                            implies seen@[d] || exists|j2: int| j < j2 < df@.len() && (#[trigger] df@[j2]).1 == d by {
                        assert(df@[j] == dfb[j]);
                        if !seen@[d] {
                            let j2 = choose|j2: int| j < j2 < dfb.len() && (#[trigger] dfb[j2]).1 == d;
                            if j2 < df@.len() {
                                assert(df@[j2] == dfb[j2]);
                            }
                        }
                    }
                }
                continue;
            }
            if first {
                let ghost fm = df@;
                df.push((false, x));
                proof {
                    lemma_stack_push(fm, (false, x), false, nn);
                    assert(df@[df@.len() - 1] == (false, x));
                }
                let ghost f1 = df@;
                proof {
                    assert forall|j: int, d: int|
                        0 <= j < fm.len() && !(#[trigger] fm[j]).0 && g0.valid(d) && #[trigger] g0.has_up(d, fm[j].1 as int)
                            implies seen@[d] || exists|j2: int| j < j2 < f1.len() && (#[trigger] f1[j2]).1 == d by {
                        assert(fm[j] == dfb[j]);
                        if !seen@[d] {
                            let j2 = choose|j2: int| j < j2 < dfb.len() && (#[trigger] dfb[j2]).1 == d;
                            if j2 < fm.len() {
                                assert(f1[j2] == dfb[j2]);
                            } else {
                                assert(f1[j2].1 == x);
                            }
                        }
                    }
                }
                let mut k: usize = x + 1;
                while k < n
                    invariant
                        g.wf(),
                        g0.wf(),
                        g.same_structure(g0),
                        n == g.n(),
                        nn == n,
                        x < k <= n,
                        f1.len() == fm.len() + 1,
                        f1[fm.len() as int] == (false, x),
                        df@.len() >= f1.len(),
                        df@.subrange(0, f1.len() as int) == f1,
                        forall|j: int| 0 <= j < df@.len() ==> g.valid((#[trigger] df@[j]).1 as int),
                        forall|j: int| f1.len() <= j < df@.len() ==> (#[trigger] df@[j]).0,
                        forall|d: int|
                            x < d < k && g0.valid(d) && #[trigger] g0.has_up(d, x as int) ==> exists|j2: int|
                                fm.len() < j2 < df@.len() && (#[trigger] df@[j2]).1 == d,
                        stack_w(df@, false, nn) + p2((nn - k + 1) as nat) <= stack_w(f1, false, nn) + p2(
                            (nn - x) as nat,
                        ),
                    decreases n - k,
                {
                    let ghost fk = df@;
                    if g.present[k] && g.dep_type(k, x).is_some() {
                        df.push((true, k));
                        proof {
                            lemma_stack_push(fk, (true, k), false, nn);
                            assert(p2((nn - k + 1) as nat) == 2 * p2((nn - k) as nat));
                            assert(df@.subrange(0, f1.len() as int) =~= fk.subrange(0, f1.len() as int));
                            assert forall|j: int| 0 <= j < df@.len() implies g.valid((#[trigger] df@[j]).1 as int) by {
                                if j < fk.len() {
                                    assert(df@[j] == fk[j]);
                                }
                            }
                            assert forall|j: int| f1.len() <= j < df@.len() implies (#[trigger] df@[j]).0 by {
                                if j < fk.len() {
                                    assert(df@[j] == fk[j]);
                                }
                            }
                            assert forall|d: int|
                                x < d < k + 1 && g0.valid(d) && #[trigger] g0.has_up(d, x as int) implies exists|j2: int|
                                    fm.len() < j2 < df@.len() && (#[trigger] df@[j2]).1 == d by {
                                if d < k {
                                    let j2 = choose|j2: int| fm.len() < j2 < fk.len() && (#[trigger] fk[j2]).1 == d;
                                    assert(df@[j2] == fk[j2]);
                                } else {
                                    assert(df@[fk.len() as int].1 == d);
                                }
                            }
                        }
                    } else {
                        proof {
                            assert(p2((nn - k + 1) as nat) == 2 * p2((nn - k) as nat));
                            lemma_p2_pos((nn - k) as nat);
                            g0.lemma_same_nodes_deps(*g);
                        }
                    }
                    k = k + 1;
                }
                proof {
                    assert(p2(1) == 2 * p2(0));
                    if !seen@[u as int] {
                        if x == u {
                            assert(df@[f1.len() - 1] == f1[f1.len() - 1]);
                        } else {
                            let j = choose|j: int| 0 <= j < fm.len() && (#[trigger] fm[j]).1 == u;
                            assert(df@[j] == df@.subrange(0, f1.len() as int)[j]);
                            assert(f1[j] == fm[j]);
                        }
                    }
                    assert forall|j: int, d: int|
                        0 <= j < df@.len() && !(#[trigger] df@[j]).0 && g0.valid(d) && #[trigger] g0.has_up(d, df@[j].1 as int)
                            implies seen@[d] || exists|j2: int| j < j2 < df@.len() && (#[trigger] df@[j2]).1 == d by {
                        assert(j < f1.len());
                        assert(df@[j] == df@.subrange(0, f1.len() as int)[j]);
                        if j == fm.len() {
                            let kk = choose|kk: int| 0 <= kk < g0.up(d).len() && (#[trigger] g0.up(d)[kk]).0 == x;
                            assert(g0.up(d)[kk].0 < d);
                        } else if !seen@[d] {
                            let j2 = choose|j2: int| j < j2 < f1.len() && (#[trigger] f1[j2]).1 == d;
                            assert(df@[j2] == df@.subrange(0, f1.len() as int)[j2]);
                        }
                    }
                }
            } else {
                let ghost gb = *g;
                let ghost pb = plan@;
                plan_actual_stop_one(g, plan, x, false);
                proof {
                    lemma_stops_only_stop_one(g0, p0, gb, pb, *g, plan@, x as int, false, true);
                    lemma_count_ne_update(seen@, true, x as int);
                    lemma_settled_frame(g0, gb, pb, *g, plan@, x as int, seen@);
                    assert forall|d: int| g0.valid(d) && #[trigger] g0.has_up(d, x as int) implies seen@[d] by {
                        assert(dfb[dfb.len() - 1] == (false, x));
                        assert(!dfb[dfb.len() - 1].0 && g0.has_up(d, dfb[dfb.len() - 1].1 as int));
                    }
                }
                let ghost sb = seen@;
                seen.set(x, true);
                proof {
                    if gb.act(x as int) != Actual::Stopped && !can_stop(gb, x as int) {
                        assert(g.actual@ == gb.actual@);
                        g0.lemma_same_nodes_deps(gb);
                        g0.lemma_same_nodes_deps(*g);
                        if can_stop(*g, x as int) {
                            assert forall|d: int| gb.valid(d) && #[trigger] gb.has_up(d, x as int) implies gb.act(d) == Actual::Stopped by {
                                gb.lemma_same_nodes_deps(*g);
                                assert(g.has_up(d, x as int));
                            }
                            if gb.eff(x as int) && gb.all_up_started(x as int) {
                                assert forall|k: int| 0 <= k < g.up(x as int).len() implies g.act((#[trigger] g.up(x as int)[k]).0 as int) == Actual::Started by {
                                    assert(gb.up(x as int)[k] == g.up(x as int)[k]);
                                }
                            }
                        }
                    }
                    assert(settled(*g, plan@, x as int));
                    assert forall|y: int| 0 <= y < n && #[trigger] seen@[y] implies settled(*g, plan@, y) && g0.present@[y] by {
                        if y != x {
                            assert(sb[y]);
                        }
                    }
                    assert forall|y: int, d: int|
                        0 <= y < n && #[trigger] seen@[y] && g0.valid(d) && #[trigger] g0.has_up(d, y) implies seen@[d] by {
                        if y != x {
                            assert(sb[y]);
                        }
                    }
                    assert forall|j: int, d: int|
                        0 <= j < df@.len() && !(#[trigger] df@[j]).0 && g0.valid(d) && #[trigger] g0.has_up(d, df@[j].1 as int)
                            implies seen@[d] || exists|j2: int| j < j2 < df@.len() && (#[trigger] df@[j2]).1 == d by {
                        assert(df@[j] == dfb[j]);
                        if !sb[d] {
                            let j2 = choose|j2: int| j < j2 < dfb.len() && (#[trigger] dfb[j2]).1 == d;
                            if j2 < df@.len() {
                                assert(df@[j2] == dfb[j2]);
                            }
                        }
                    }
                }
            }
        }
        // Subtree fully stopped, move upstream
        let ghost fu = up_frontier@;
        let ups = &g.nodes[u].upstream;
        let mut k: usize = 0;
        while k < ups.len()
            invariant
                g.wf(),
                u < g.n(),
                g.valid(u as int),
                ups@ == g.up(u as int),
                k <= ups@.len(),
                up_frontier@.len() >= fu.len(),
                up_frontier@.subrange(0, fu.len() as int) == fu,
                forall|j: int| 0 <= j < up_frontier@.len() ==> g.valid(#[trigger] up_frontier@[j] as int),
            decreases ups@.len() - k,
        {
            let up = ups[k].0;
            proof {
                assert(g.present@[g.up(u as int)[k as int].0 as int]);
                assert(g.up(u as int)[k as int].0 < u);
            }
            let ghost fk = up_frontier@;
            up_frontier.push(up);
            proof {
                assert(up_frontier@.subrange(0, fu.len() as int) =~= fk.subrange(0, fu.len() as int));
            }
            k = k + 1;
        }
        proof {
            if !g0.eff(task as int) && !seen@[task as int] && fu.len() > 0 {
                assert(up_frontier@[0] == up_frontier@.subrange(0, fu.len() as int)[0]);
            }
        }
    }
    proof {
        if !g0.eff(task as int) {
            assert(seen@[task as int]);
            assert forall|d: int| #[trigger] desc(g0, task as int, d) implies settled(*g, plan@, d) by {
                lemma_closed_desc(g0, seen@, task as int, d);
                assert(g0.valid(d));
            }
        }
    }
    if !is_control_effective_on(g, task) {
        let ghost g1 = *g;
        let ghost p1 = plan@;
        let down = descendants(g, task);
        let mut mask: Vec<bool> = Vec::new();
        let mut i: usize = 0;
        while i < n
            invariant
                g.wf(),
                n == g.n(),
                task < n,
                i <= n,
                down@.len() == n,
                forall|k: int| 0 <= k < n ==> #[trigger] down@[k] == desc(*g, task as int, k),
                mask@.len() == i,
                forall|k: int| 0 <= k < i ==> #[trigger] mask@[k] == (k == task || down@[k] || !g.eff(k)),
            decreases n - i,
        {
            mask.push(i == task || down[i] || !is_control_effective_on(g, i));
            i = i + 1;
        }
        stop_ready(g, plan, &mask);
        proof {
            crate::events::lemma_stops_only_trans(g0, p0, g1, p1, *g, plan@, true);
            assert forall|d: int| #[trigger] desc(g0, task as int, d) implies settled(*g, plan@, d) by {
                lemma_desc_same(g0, g1, task as int, d);
                assert(g0.valid(d));
                assert(mask@[d]);
            }
            assert(mask@[task as int]);
            assert forall|u: int| g0.valid(u) && !g0.eff(u) implies #[trigger] settled(*g, plan@, u) by {
                assert(mask@[u]);
            }
        }
    }
}

/// One flag per task slot: whether the task is a present task downstream of `r`,
/// directly or through other tasks.
pub fn descendants(g: &TaskGraph, r: usize) -> (v: Vec<bool>)
    requires
        g.wf(),
        r < g.n(),
    ensures
        v@.len() == g.n(),
        forall|e: int| 0 <= e < g.n() ==> #[trigger] v@[e] == desc(*g, r as int, e),
{
    let n = g.nodes.len();
    let mut reached: Vec<bool> = Vec::new();
    let mut e: usize = 0;
    while e < n
        invariant
            g.wf(),
            n == g.n(),
            r < n,
            e <= n,
            reached@.len() == e,
            forall|j: int| 0 <= j < e ==> #[trigger] reached@[j] == pending_desc(*g, r as int, r + 1, j),
        decreases n - e,
    {
        let x = g.present[e] && g.dep_type(e, r).is_some();
        proof {
            if x {
                let k = choose|k: int| 0 <= k < g.up(e as int).len() && (#[trigger] g.up(e as int)[k]).0 == r;
                assert(pending_desc(*g, r as int, r + 1, e as int));
            }
            if pending_desc(*g, r as int, r + 1, e as int) {
                let k = choose|k: int|
                    0 <= k < g.up(e as int).len() && ((#[trigger] g.up(e as int)[k]).0 == r || (g.up(e as int)[k].0
                        < r + 1 && desc(*g, r as int, g.up(e as int)[k].0 as int)));
                if g.up(e as int)[k].0 != r {
                    lemma_desc_below(*g, r as int, g.up(e as int)[k].0 as int);
                }
                assert(g.has_up(e as int, r as int));
            }
        }
        reached.push(x);
        e = e + 1;
    }
    proof {
        assert forall|j: int| 0 <= j <= r implies !#[trigger] desc(*g, r as int, j) by {
            lemma_desc_below(*g, r as int, j);
        }
    }
    let mut d: usize = r + 1;
    while d < n
        invariant
            g.wf(),
            n == g.n(),
            r < d <= n,
            reached@.len() == n,
            forall|j: int| d <= j < n ==> #[trigger] reached@[j] == pending_desc(*g, r as int, d as int, j),
            forall|j: int| 0 <= j < d ==> #[trigger] reached@[j] == desc(*g, r as int, j),
        decreases n - d,
    {
        proof {
            assert(reached@[d as int] == desc(*g, r as int, d as int)) by {
                if desc(*g, r as int, d as int) {
                    let k = choose|k: int|
                        0 <= k < g.up(d as int).len() && ((#[trigger] g.up(d as int)[k]).0 == r || (g.up(
                            d as int,
                        )[k].0 < d && desc(*g, r as int, g.up(d as int)[k].0 as int)));
                    assert(pending_desc(*g, r as int, d as int, d as int));
                }
                if pending_desc(*g, r as int, d as int, d as int) {
                    let k = choose|k: int|
                        0 <= k < g.up(d as int).len() && ((#[trigger] g.up(d as int)[k]).0 == r || (g.up(
                            d as int,
                        )[k].0 < d && desc(*g, r as int, g.up(d as int)[k].0 as int)));
                    assert(g.up(d as int)[k].0 < d);
                }
            }
        }
        if reached[d] {
            let mut e: usize = d + 1;
            while e < n
                invariant
                    g.wf(),
                    n == g.n(),
                    d < e <= n,
                    reached@.len() == n,
                    desc(*g, r as int, d as int),
                    forall|j: int| 0 <= j <= d ==> #[trigger] reached@[j] == desc(*g, r as int, j),
                    forall|j: int| e <= j < n ==> #[trigger] reached@[j] == pending_desc(*g, r as int, d as int, j),
                    forall|j: int| d < j < e ==> #[trigger] reached@[j] == pending_desc(*g, r as int, d + 1, j),
                decreases n - e,
            {
                let x = g.present[e] && g.dep_type(e, d).is_some();
                proof {
                    lemma_pending_desc_step(*g, r as int, d as int, e as int);
                }
                if x {
                    reached.set(e, true);
                }
                e = e + 1;
            }
        } else {
            proof {
                assert forall|j: int| d < j < n implies #[trigger] reached@[j] == pending_desc(*g, r as int, d + 1, j) by {
                    lemma_pending_desc_step(*g, r as int, d as int, j);
                }
            }
        }
        d = d + 1;
    }
    reached
}


/// Offering task `x` a stop keeps settled a task `y` other than `x` that was settled.
proof fn lemma_settled_keep(gb: TaskGraph, pb: PlanView, g: TaskGraph, p: PlanView, x: int, y: int)
    requires
        gb.wf(),
        g.wf(),
        g.same_structure(gb),
        g.same_control(gb),
        pb.grows_to(p),
        pb.wf(gb.n()),
        0 <= x < gb.n(),
        x < y < gb.n(),
        gb.valid(y),
        forall|j: int| 0 <= j < gb.n() && j != x ==> #[trigger] g.act(j) == gb.act(j),
        g.act(x) != gb.act(x) ==> can_stop(gb, x),
        settled(gb, pb, y),
    ensures
        settled(g, p, y),
{
    gb.lemma_same_nodes_deps(g);
    if gb.act(y) != Actual::Stopped && !pb.stop[y] {
        assert(!can_stop(gb, y));
        if !gb.all_down_stopped(y) {
            let d = choose|d: int| gb.valid(d) && #[trigger] gb.has_up(d, y) && gb.act(d) != Actual::Stopped;
            let k = choose|k: int| 0 <= k < gb.up(d).len() && (#[trigger] gb.up(d)[k]).0 == y;
            assert(gb.up(d)[k].0 < d);
            assert(d != x);
            assert(g.has_up(d, y));
            assert(g.valid(d));
            assert(g.act(d) == gb.act(d));
            assert(!g.all_down_stopped(y));
        } else {
            assert(gb.eff(y) && gb.all_up_started(y));
            if g.act(x) != gb.act(x) {
                assert(gb.all_down_stopped(x));
                if gb.has_up(y, x) {
                    assert(gb.act(y) == Actual::Stopped);
                }
            }
            assert forall|k: int| 0 <= k < g.up(y).len() implies g.act((#[trigger] g.up(y)[k]).0 as int)
                == Actual::Started by {
                assert(gb.up(y)[k] == g.up(y)[k]);
                assert(gb.up(y)[k].0 < y);
                if g.up(y)[k].0 == x && g.act(x) != gb.act(x) {
                    assert(gb.has_up(y, x));
                }
            }
            assert(g.eff(y) && g.all_up_started(y));
        }
    }
}

/// Offer a stop, from the last task down (so each task after its downstreams), to
/// every present task flagged in `mask`; each then needs nothing more to stop
/// (`settled`).
pub fn stop_ready(g: &mut TaskGraph, plan: &mut ExecutePlan, mask: &Vec<bool>)
    requires
        old(g).wf(),
        old(plan)@.wf(old(g).n()),
        mask@.len() == old(g).n(),
    ensures
        final(g).wf(),
        final(g).same_structure(*old(g)),
        final(g).same_control(*old(g)),
        final(plan)@.wf(old(g).n()),
        stops_only(*old(g), old(plan)@, *final(g), final(plan)@, true),
        forall|i: int| 0 <= i < old(g).n() && mask@[i] && final(g).valid(i) ==> #[trigger] settled(*final(g), final(plan)@, i),
        forall|i: int| 0 <= i < old(g).n() && !mask@[i] ==> #[trigger] final(g).act(i) == old(g).act(i),
{
    let ghost g0 = *g;
    let ghost p0 = plan@;
    proof {
        lemma_stops_only_refl(g0, p0, true);
    }
    let n = g.nodes.len();
    let mut x: usize = n;
    while x > 0
        invariant
            g0.wf(),
            g.wf(),
            n == g0.n(),
            x <= n,
            mask@.len() == n,
            g.same_structure(g0),
            g.same_control(g0),
            plan@.wf(n as int),
            stops_only(g0, p0, *g, plan@, true),
            forall|i: int| x <= i < n && mask@[i] && g.valid(i) ==> #[trigger] settled(*g, plan@, i),
            forall|i: int| 0 <= i < n && !mask@[i] ==> #[trigger] g.act(i) == g0.act(i),
        decreases x,
    {
        x = x - 1;
        if mask[x] && g.present[x] {
            let ghost gb = *g;
            let ghost pb = plan@;
            plan_actual_stop_one(g, plan, x, false);
            proof {
                lemma_stops_only_stop_one(g0, p0, gb, pb, *g, plan@, x as int, false, true);
                assert(pb.grows_to(plan@));
                assert forall|j: int| 0 <= j < gb.n() && j != x implies #[trigger] g.act(j) == gb.act(j) by {}
                if g.act(x as int) != Actual::Stopped && !plan@.stop[x as int] {
                    assert(!can_stop(gb, x as int));
                    assert(g.actual@ == gb.actual@);
                    gb.lemma_same_nodes_deps(*g);
                    if !gb.all_down_stopped(x as int) {
                        let d = choose|d: int| gb.valid(d) && #[trigger] gb.has_up(d, x as int) && gb.act(d) != Actual::Stopped;
                        assert(g.has_up(d, x as int) && g.valid(d) && g.act(d) == gb.act(d));
                    } else {
                        assert forall|k: int| 0 <= k < g.up(x as int).len() implies g.act((#[trigger] g.up(x as int)[k]).0 as int)
                            == Actual::Started by {
                            assert(g.up(x as int)[k] == gb.up(x as int)[k]);
                        }
                    }
                    assert(!can_stop(*g, x as int));
                }
                assert forall|i: int| x <= i < n && mask@[i] && g.valid(i) implies #[trigger] settled(*g, plan@, i) by {
                    if i > x {
                        assert(gb.valid(i));
                        lemma_settled_keep(gb, pb, *g, plan@, x as int, i);
                    }
                }
                assert forall|i: int| 0 <= i < n && !mask@[i] implies #[trigger] g.act(i) == g0.act(i) by {
                    assert(gb.act(i) == g0.act(i));
                }
            }
        }
    }
}

} // verus!
