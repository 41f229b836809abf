use vstd::prelude::*;
use crate::model::{Actual, TaskGraph, TaskKind};
use crate::plan::ExecutePlan;
use crate::task_control::{
    can_start, lemma_starts_only_refl, lemma_starts_only_start_one, plan_actual_start_one, starts_only,
};
use crate::task_util::is_control_effective_on;

verus! {

/// Task `u` lets its downstream start: it is effectively on, started, and every
/// upstream of it is started.
pub open spec fn passes(g: TaskGraph, u: int) -> bool {
    g.eff(u) && g.act(u) == Actual::Started && g.all_up_started(u)
}

/// Task `d` is reached when starting downstream of `from`: it is a present downstream
/// of `from`, or of a reached task that lets its downstream start.
pub open spec fn reach_from(g: TaskGraph, from: int, d: int) -> bool
    decreases d,
{
    g.valid(d) && exists|k: int|
        0 <= k < g.up(d).len() && ((#[trigger] g.up(d)[k]).0 == from || (g.up(d)[k].0 < d && passes(
            g,
            g.up(d)[k].0 as int,
        ) && reach_from(g, from, g.up(d)[k].0 as int)))
}

/// Reaching `e` only depends on the actual state of tasks before `e`.
pub proof fn lemma_reach_frame(g1: TaskGraph, g2: TaskGraph, from: int, e: int)
    requires
        g1.wf(),
        g2.wf(),
        g1.same_structure(g2),
        g1.same_control(g2),
        forall|i: int| 0 <= i < e ==> #[trigger] g1.act(i) == g2.act(i),
    ensures
        reach_from(g1, from, e) == reach_from(g2, from, e),
    decreases e,
{
    if 0 <= e < g1.n() {
        assert forall|k: int| 0 <= k < g1.up(e).len() implies {
            let u = (#[trigger] g1.up(e)[k]).0 as int;
            (passes(g1, u) == passes(g2, u) && reach_from(g1, from, u) == reach_from(g2, from, u))
        } by {
            let u = g1.up(e)[k].0 as int;
            assert(g2.up(e)[k] == g1.up(e)[k]);
            assert(u < e);
            lemma_reach_frame(g1, g2, from, u);
            assert forall|j: int| 0 <= j < g1.up(u).len() implies g1.act((#[trigger] g1.up(u)[j]).0 as int)
                == g2.act(g2.up(u)[j].0 as int) by {
                assert(g2.up(u)[j] == g1.up(u)[j]);
                assert(g1.up(u)[j].0 < u);
            }
        }
        if reach_from(g1, from, e) {
            let k = choose|k: int|
                0 <= k < g1.up(e).len() && ((#[trigger] g1.up(e)[k]).0 == from || (g1.up(e)[k].0 < e && passes(
                    g1,
                    g1.up(e)[k].0 as int,
                ) && reach_from(g1, from, g1.up(e)[k].0 as int)));
            assert(g2.up(e)[k] == g1.up(e)[k]);
        }
        if reach_from(g2, from, e) {
            let k = choose|k: int|
                0 <= k < g2.up(e).len() && ((#[trigger] g2.up(e)[k]).0 == from || (g2.up(e)[k].0 < e && passes(
                    g2,
                    g2.up(e)[k].0 as int,
                ) && reach_from(g2, from, g2.up(e)[k].0 as int)));
            assert(g2.up(e)[k] == g1.up(e)[k]);
        }
    }
}

/// Nothing at or before `from` is reached from it.
pub proof fn lemma_reach_below(g: TaskGraph, from: int, e: int)
    requires
        g.wf(),
        e <= from,
    ensures
        !reach_from(g, from, e),
    decreases e,
{
    if reach_from(g, from, e) {
        let k = choose|k: int|
            0 <= k < g.up(e).len() && ((#[trigger] g.up(e)[k]).0 == from || (g.up(e)[k].0 < e && passes(
                g,
                g.up(e)[k].0 as int,
            ) && reach_from(g, from, g.up(e)[k].0 as int)));
        assert(g.up(e)[k].0 < e);
        lemma_reach_below(g, from, g.up(e)[k].0 as int);
    }
}

/// The flags of tasks at or after `d` that are reached through tasks before `d`.
pub open spec fn pending_reach(g: TaskGraph, from: int, d: int, e: int) -> bool {
    g.valid(e) && exists|k: int|
        0 <= k < g.up(e).len() && ((#[trigger] g.up(e)[k]).0 == from || (g.up(e)[k].0 < d && passes(
            g,
            g.up(e)[k].0 as int,
        ) && reach_from(g, from, g.up(e)[k].0 as int)))
}

/// The outcome for task `e` of starting downstream of `from`, between `g0` and `g`.
pub open spec fn start_outcome(g0: TaskGraph, g: TaskGraph, run0: Seq<bool>, run: Seq<bool>, from: int, e: int) -> bool {
    if reach_from(g, from, e) && can_start(g, e) && g0.act(e) == Actual::Stopped {
        if g0.kind(e) is Empty {
            g.act(e) == Actual::Started
        } else {
            run[e]
        }
    } else {
        g.act(e) == g0.act(e) && run[e] == run0[e]
    }
}

/// Start every task downstream of `from` that can start, in dependency order: a
/// task is visited when it is a downstream of `from` or of a visited task that is
/// started, and is then offered a start.  Tasks are visited in index order, which is
/// a topological order, so each task is offered its start once all its upstreams have
/// reached their final state.
pub fn sync_actual_should_start_downstream_exclusive(g: &mut TaskGraph, plan: &mut ExecutePlan, from: usize)
    requires
        old(g).wf(),
        old(plan)@.wf(old(g).n()),
        old(g).valid(from as int),
    ensures
        final(g).wf(),
        final(g).same_structure(*old(g)),
        final(g).same_control(*old(g)),
        final(plan)@.wf(old(g).n()),
        starts_only(*old(g), old(plan)@, *final(g), final(plan)@),
        forall|e: int|
            0 <= e < old(g).n() ==> #[trigger] start_outcome(
                *old(g),
                *final(g),
                old(plan)@.run,
                final(plan)@.run,
                from as int,
                e,
            ),
{
    let ghost g0 = *g;
    let ghost p0 = plan@;
    let n = g.nodes.len();
    let mut reached: Vec<bool> = Vec::new();
    let mut e: usize = 0;
    while e < n
        invariant
            g.wf(),
            n == g.n(),
            e <= n,
            reached@.len() == e,
            forall|j: int| 0 <= j < e ==> #[trigger] reached@[j] == pending_reach(*g, from as int, from + 1, j),
        decreases n - e,
    {
        let r = g.present[e] && g.dep_type(e, from).is_some();
        proof {
            if r {
                let k = choose|k: int| 0 <= k < g.up(e as int).len() && (#[trigger] g.up(e as int)[k]).0 == from;
                assert(pending_reach(*g, from as int, from + 1, e as int));
            }
            if pending_reach(*g, from as int, from + 1, e as int) {
                let k = choose|k: int|
                    0 <= k < g.up(e as int).len() && ((#[trigger] g.up(e as int)[k]).0 == from || (g.up(e as int)[k].0
                        < from + 1 && passes(*g, g.up(e as int)[k].0 as int) && reach_from(
                        *g,
                        from as int,
                        g.up(e as int)[k].0 as int,
                    )));
                if g.up(e as int)[k].0 != from {
                    lemma_reach_below(*g, from as int, g.up(e as int)[k].0 as int);
                }
                assert(g.has_up(e as int, from as int));
            }
        }
        reached.push(r);
        e = e + 1;
    }
    proof {
        lemma_starts_only_refl(g0, p0);
        assert forall|j: int| 0 <= j < from + 1 implies #[trigger] start_outcome(
            g0,
            *g,
            p0.run,
            plan@.run,
            from as int,
            j,
        ) by {
            lemma_reach_below(*g, from as int, j);
        }
    }
    let mut d: usize = from + 1;
    while d < n
        invariant
            g0.wf(),
            g.wf(),
            g.same_structure(g0),
            g.same_control(g0),
            plan@.wf(g0.n()),
            n == g.n(),
            from < d <= n,
            reached@.len() == n,
            starts_only(g0, p0, *g, plan@),
            forall|j: int| d <= j < n ==> #[trigger] reached@[j] == pending_reach(*g, from as int, d as int, j),
            forall|j: int| d <= j < n ==> #[trigger] g.act(j) == g0.act(j) && plan@.run[j] == p0.run[j],
            forall|j: int| 0 <= j < d ==> #[trigger] start_outcome(g0, *g, p0.run, plan@.run, from as int, j),
        decreases n - d,
    {
        let ghost gb = *g;
        let ghost pb = plan@;
        proof {
            lemma_reach_frame(gb, gb, from as int, d as int);
            assert(reached@[d as int] == reach_from(gb, from as int, d as int)) by {
                if reach_from(gb, from as int, d as int) {
                    let k = choose|k: int|
                        0 <= k < gb.up(d as int).len() && ((#[trigger] gb.up(d as int)[k]).0 == from || (gb.up(
                            d as int,
                        )[k].0 < d && passes(gb, gb.up(d as int)[k].0 as int) && reach_from(
                            gb,
                            from as int,
                            gb.up(d as int)[k].0 as int,
                        )));
                    assert(pending_reach(gb, from as int, d as int, d as int));
                }
                if pending_reach(gb, from as int, d as int, d as int) {
                    let k = choose|k: int|
                        0 <= k < gb.up(d as int).len() && ((#[trigger] gb.up(d as int)[k]).0 == from || (gb.up(
                            d as int,
                        )[k].0 < d && passes(gb, gb.up(d as int)[k].0 as int) && reach_from(
                            gb,
                            from as int,
                            gb.up(d as int)[k].0 as int,
                        )));
                    assert(gb.up(d as int)[k].0 < d);
                }
            }
        }
        let mut started = false;
        if g.present[d] && reached[d] {
            if is_control_effective_on(g, d) {
                started = plan_actual_start_one(g, plan, d);
                proof {
                    lemma_starts_only_start_one(g0, p0, gb, pb, *g, plan@, d as int);
                }
            }
        }
        let ghost ga = *g;
        let ghost pa = plan@;
        proof {
            assert forall|j: int| 0 <= j < n && j != d implies #[trigger] ga.act(j) == gb.act(j) by {}
            // earlier tasks keep their outcome
            assert forall|j: int| 0 <= j < d implies #[trigger] start_outcome(g0, ga, p0.run, pa.run, from as int, j) by {
                assert(start_outcome(g0, gb, p0.run, pb.run, from as int, j));
                lemma_reach_frame(gb, ga, from as int, j);
                assert forall|k: int| 0 <= k < ga.up(j).len() implies ga.act((#[trigger] ga.up(j)[k]).0 as int)
                    == gb.act(gb.up(j)[k].0 as int) by {
                    assert(gb.up(j)[k] == ga.up(j)[k]);
                    assert(ga.up(j)[k].0 < j);
                }
            }
            lemma_reach_frame(gb, ga, from as int, d as int);
            assert forall|k: int| 0 <= k < ga.up(d as int).len() implies ga.act((#[trigger] ga.up(d as int)[k]).0 as int)
                == gb.act(gb.up(d as int)[k].0 as int) by {
                assert(gb.up(d as int)[k] == ga.up(d as int)[k]);
                assert(ga.up(d as int)[k].0 < d);
            }
            assert(start_outcome(g0, ga, p0.run, pa.run, from as int, d as int));
            assert(started == passes(ga, d as int) && reach_from(ga, from as int, d as int) || !reach_from(
                ga,
                from as int,
                d as int,
            ) && !started);
        }
        if started {
            let mut e: usize = d + 1;
            while e < n
                invariant
                    g.wf(),
                    n == g.n(),
                    d < e <= n,
                    reached@.len() == n,
                    *g == ga,
                    gb.wf(),
                    ga.wf(),
                    ga.same_structure(gb),
                    ga.same_control(gb),
                    gb.n() == n,
                    forall|j: int| 0 <= j < gb.n() && j != d ==> #[trigger] ga.act(j) == gb.act(j),
                    started,
                    passes(ga, d as int) && reach_from(ga, from as int, d as int),
                    forall|j: int| e <= j < n ==> #[trigger] reached@[j] == pending_reach(gb, from as int, d as int, j),
                    forall|j: int| d < j < e ==> #[trigger] reached@[j] == pending_reach(ga, from as int, d + 1, j),
                decreases n - e,
            {
                let r = g.present[e] && g.dep_type(e, d).is_some();
                let ghost old_r = reached@[e as int];
                proof {
                    lemma_pending_step(gb, ga, from as int, d as int, e as int);
                }
                if r {
                    reached.set(e, true);
                }
                proof {
                    if !r {
                        if pending_reach(ga, from as int, d + 1, e as int) {
                            assert(old_r);
                        }
                    }
                }
                e = e + 1;
            }
        } else {
            proof {
                assert forall|j: int| d < j < n implies #[trigger] reached@[j] == pending_reach(ga, from as int, d + 1, j) by {
                    lemma_pending_step(gb, ga, from as int, d as int, j);
                }
            }
        }
        d = d + 1;
    }
}

/// Moving past task `d` adds the downstreams of `d` when `d` lets them start.
pub proof fn lemma_pending_step(gb: TaskGraph, ga: TaskGraph, from: int, d: int, e: int)
    requires
        gb.wf(),
        ga.wf(),
        ga.same_structure(gb),
        ga.same_control(gb),
        forall|j: int| 0 <= j < gb.n() && j != d ==> #[trigger] ga.act(j) == gb.act(j),
        0 <= d < e < gb.n(),
    ensures
        pending_reach(ga, from, d + 1, e) == (pending_reach(gb, from, d, e) || (ga.valid(e) && ga.has_up(e, d)
            && passes(ga, d) && reach_from(ga, from, d))),
{
    assert forall|u: int| 0 <= u < d implies passes(ga, u) == passes(gb, u) && reach_from(ga, from, u) == reach_from(
        gb,
        from,
        u,
    ) by {
        lemma_reach_frame(gb, ga, from, u);
        assert forall|k: int| 0 <= k < ga.up(u).len() implies ga.act((#[trigger] ga.up(u)[k]).0 as int) == gb.act(
            gb.up(u)[k].0 as int,
        ) by {
            assert(gb.up(u)[k] == ga.up(u)[k]);
            assert(ga.up(u)[k].0 < u);
        }
    }
    if pending_reach(ga, from, d + 1, e) {
        let k = choose|k: int|
            0 <= k < ga.up(e).len() && ((#[trigger] ga.up(e)[k]).0 == from || (ga.up(e)[k].0 < d + 1 && passes(
                ga,
                ga.up(e)[k].0 as int,
            ) && reach_from(ga, from, ga.up(e)[k].0 as int)));
        assert(gb.up(e)[k] == ga.up(e)[k]);
        if ga.up(e)[k].0 == d && ga.up(e)[k].0 != from {
            assert(ga.has_up(e, d));
        }
    }
    if pending_reach(gb, from, d, e) {
        let k = choose|k: int|
            0 <= k < gb.up(e).len() && ((#[trigger] gb.up(e)[k]).0 == from || (gb.up(e)[k].0 < d && passes(
                gb,
                gb.up(e)[k].0 as int,
            ) && reach_from(gb, from, gb.up(e)[k].0 as int)));
        assert(gb.up(e)[k] == ga.up(e)[k]);
    }
    if ga.valid(e) && ga.has_up(e, d) && passes(ga, d) && reach_from(ga, from, d) {
        let k = choose|k: int| 0 <= k < ga.up(e).len() && (#[trigger] ga.up(e)[k]).0 == d;
        assert(pending_reach(ga, from, d + 1, e));
    }
}

} // verus!
