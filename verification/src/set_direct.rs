use vstd::prelude::*;
use crate::measure::{count_ne, lemma_count_ne_update, lemma_p2_pos, lemma_stack_push, p2, stack_w};
use crate::model::{DependencyType, TaskGraph};
use crate::plan::ExecutePlan;
use crate::set_direct_inv::{
    ctl_inv, has_id, in_first, lemma_ascended_from_push, lemma_ctl_final, lemma_ctl_frame, lemma_ctl_start,
    lemma_enter_inner, lemma_first_off, lemma_first_on, lemma_inner_set, lemma_inner_skip, order_inv,
};
use crate::task_control::{
    lemma_starts_only_control, lemma_starts_only_refl, lemma_starts_only_start_one,
    plan_actual_start_one, starts_only,
};
use crate::task_util::{
    are_all_strong_downstream_direct_or_transitive_off, are_all_weak_upstream_effective_on,
    awueo_set, direct_on_set, is_control_effective_on, transitive_on_set,
};

verus! {

/// Push a first-pass entry for every strong upstream of `x`.
fn push_strong_upstream(g: &TaskGraph, f: &mut Vec<(bool, usize)>, x: usize)
    requires
        g.wf(),
        g.valid(x as int),
    ensures
        final(f)@.len() >= old(f)@.len(),
        final(f)@.subrange(0, old(f)@.len() as int) == old(f)@,
        forall|j: int|
            old(f)@.len() <= j < final(f)@.len() ==> (#[trigger] final(f)@[j]).0 && g.is_up(
                x as int,
                final(f)@[j].1 as int,
                DependencyType::Strong,
            ),
        forall|p: int| g.is_up(x as int, p, DependencyType::Strong) ==> in_first(final(f)@, p),
        stack_w(final(f)@, true, g.n() as nat) + 2 <= stack_w(old(f)@, true, g.n() as nat) + p2(
            (x + 1) as nat,
        ),
{
    let ghost f0 = f@;
    assert(p2(1) == 2 * p2(0));
    let mut p: usize = 0;
    while p < x
        invariant
            g.wf(),
            g.valid(x as int),
            p <= x,
            f@.len() >= f0.len(),
            f@.subrange(0, f0.len() as int) == f0,
            forall|j: int|
                f0.len() <= j < f@.len() ==> (#[trigger] f@[j]).0 && g.is_up(
                    x as int,
                    f@[j].1 as int,
                    DependencyType::Strong,
                ),
            forall|q: int| 0 <= q < p && g.is_up(x as int, q, DependencyType::Strong) ==> in_first(f@, q),
            stack_w(f@, true, g.n() as nat) + 2 <= stack_w(f0, true, g.n() as nat) + p2(
                (p + 1) as nat,
            ),
        decreases x - p,
    {
        let ghost fb = f@;
        if let Some(DependencyType::Strong) = g.dep_type(x, p) {
            f.push((true, p));
            proof {
                lemma_stack_push(fb, (true, p), true, g.n() as nat);
                assert(f@[f@.len() - 1] == (true, p));
                assert forall|q: int|
                    0 <= q < p + 1 && g.is_up(x as int, q, DependencyType::Strong) implies in_first(
                    f@,
                    q,
                ) by {
                    if q < p {
                        let j = choose|j: int| 0 <= j < fb.len() && (#[trigger] fb[j]).0 && fb[j].1 == q;
                        assert(f@[j] == fb[j]);
                    }
                }
                assert(f@.subrange(0, f0.len() as int) =~= fb.subrange(0, f0.len() as int));
            }
        } else {
            proof {
                assert forall|q: int|
                    0 <= q < p + 1 && g.is_up(x as int, q, DependencyType::Strong) implies in_first(
                    f@,
                    q,
                ) by {
                    if q == p {
                        assert(false);
                    }
                }
            }
        }
        p = p + 1;
    }
    proof {
        assert forall|q: int| g.is_up(x as int, q, DependencyType::Strong) implies in_first(f@, q) by {
            let k = choose|k: int|
                0 <= k < g.up(x as int).len() && (#[trigger] g.up(x as int)[k]).0 == q && g.up(x as int)[k].1 == DependencyType::Strong;
            assert(g.up(x as int)[k].0 < x);
        }
    }
}

/// Push every present weak downstream of `x`.
fn push_weak_downstream(g: &TaskGraph, dq: &mut Vec<usize>, x: usize)
    requires
        g.wf(),
    ensures
        final(dq)@.len() >= old(dq)@.len(),
        final(dq)@.subrange(0, old(dq)@.len() as int) == old(dq)@,
        forall|j: int|
            old(dq)@.len() <= j < final(dq)@.len() ==> g.valid(#[trigger] final(dq)@[j] as int) && g.is_up(
                final(dq)@[j] as int,
                x as int,
                DependencyType::Weak,
            ),
        forall|d: int| g.valid(d) && #[trigger] g.is_up(d, x as int, DependencyType::Weak) ==> has_id(final(dq)@, d),
{
    let ghost q0 = dq@;
    let n = g.nodes.len();
    let mut d: usize = 0;
    while d < n
        invariant
            g.wf(),
            n == g.n(),
            d <= n,
            dq@.len() >= q0.len(),
            dq@.subrange(0, q0.len() as int) == q0,
            forall|j: int|
                q0.len() <= j < dq@.len() ==> g.valid(#[trigger] dq@[j] as int) && g.is_up(
                    dq@[j] as int,
                    x as int,
                    DependencyType::Weak,
                ),
            forall|e: int|
                0 <= e < d && g.valid(e) && g.is_up(e, x as int, DependencyType::Weak) ==> has_id(dq@, e),
        decreases n - d,
    {
        let ghost qb = dq@;
        if g.present[d] {
            if let Some(DependencyType::Weak) = g.dep_type(d, x) {
                dq.push(d);
                proof {
                    assert(dq@[dq@.len() - 1] == d);
                    assert forall|e: int|
                        0 <= e < d && g.valid(e) && g.is_up(e, x as int, DependencyType::Weak) implies has_id(dq@, e) by {
                        let j = choose|j: int| 0 <= j < qb.len() && qb[j] == e;
                        assert(dq@[j] == qb[j]);
                    }
                    assert(dq@.subrange(0, q0.len() as int) =~= qb.subrange(0, q0.len() as int));
                }
            }
        }
        d = d + 1;
    }
}

/// Set the direct-on state of `root` to `want_on` and propagate the control state:
/// `transitive_on` upward through strong upstreams, then `awueo` downward through weak
/// downstreams of every task whose on state changed.  With `start_changed`, each task
/// whose control state changed is offered a start (`plan_actual_start_one`).
pub fn plan_set_direct(
    g: &mut TaskGraph,
    plan: &mut ExecutePlan,
    root: usize,
    want_on: bool,
    start_changed: bool,
)
    requires
        old(g).wf(),
        old(plan)@.wf(old(g).n()),
        old(g).valid(root as int),
        start_changed ==> want_on,
    ensures
        final(g).wf(),
        final(g).same_structure(*old(g)),
        final(plan)@.wf(old(g).n()),
        final(g).direct_on@ == old(g).direct_on@.update(root as int, want_on),
        old(g).control_ok() ==> final(g).control_ok(),
        !start_changed ==> final(g).actual@ == old(g).actual@ && final(plan)@ == old(plan)@,
        start_changed ==> starts_only(*old(g), old(plan)@, *final(g), final(plan)@),
{
    let ghost g0 = *g;
    let ghost p0 = plan@;
    let ghost ok0 = g0.control_ok();
    proof {
        lemma_starts_only_refl(g0, p0);
    }
    let ghost n = g0.n() as nat;
    let mut frontier: Vec<(bool, usize)> = Vec::new();
    let was_on = g.direct_on[root] || g.transitive_on[root];
    if g.direct_on[root] != want_on {
        direct_on_set(g, root, want_on);
    }
    proof {
        if start_changed {
            assert forall|i: int| 0 <= i < g0.n() && g0.eff(i) implies #[trigger] g.eff(i) by {}
            lemma_starts_only_control(g0, p0, g0, p0, *g);
        }
    }
    if was_on != want_on {
        frontier.push((false, root));
        let ghost fp = frontier@;
        push_strong_upstream(g, &mut frontier, root);
        proof {
            assert(fp == Seq::<(bool, usize)>::empty().push((false, root)));
            lemma_ascended_from_push(*g, Seq::empty(), frontier@, root);
        }
    }
    assert(g.direct_on@ =~= g0.direct_on@.update(root as int, want_on));
    proof {
        if ok0 {
            lemma_ctl_start(g0, *g, frontier@, root as int, want_on);
        }
    }
    while frontier.len() > 0
        invariant
            g.wf(),
            g.same_structure(g0),
            plan@.wf(g0.n()),
            g.direct_on@ == g0.direct_on@.update(root as int, want_on),
            g0.wf(),
            g0.valid(root as int),
            n == g0.n(),
            ok0 == g0.control_ok(),
            !start_changed ==> g.actual@ == g0.actual@ && plan@ == p0,
            start_changed ==> starts_only(g0, p0, *g, plan@),
            start_changed ==> want_on,
            forall|j: int| 0 <= j < frontier@.len() ==> g.valid((#[trigger] frontier@[j]).1 as int),
            ok0 ==> ctl_inv(*g, frontier@, Seq::empty(), want_on) && order_inv(*g, g0, frontier@, root as int),
        decreases stack_w(frontier@, true, n),
    {
        let ghost fb = frontier@;
        let (first_pass, id) = frontier.pop().unwrap();
        proof {
            assert(fb.drop_last() =~= frontier@);
            assert(fb.last() == (first_pass, id));
            assert(g.valid(fb[fb.len() - 1].1 as int));
            lemma_p2_pos((id + 1) as nat);
        }
        let ghost fm = frontier@;
        let ghost gb = *g;
        proof {
            assert(fb =~= fm.push((first_pass, id)));
        }
        if first_pass {
            let was_on = g.direct_on[id] || g.transitive_on[id];
            if id == root {
                proof {
                    if ok0 {
                        assert(fb[fb.len() - 1].1 < root);
                    }
                }
                if g.direct_on[id] != want_on {
                    direct_on_set(g, id, want_on);
                }
                proof {
                    if start_changed {
                        assert forall|i: int| 0 <= i < g0.n() && gb.eff(i) implies #[trigger] g.eff(i) by {}
                        lemma_starts_only_control(g0, p0, gb, plan@, *g);
                    }
                }
            } else {
                if !want_on && !are_all_strong_downstream_direct_or_transitive_off(g, id) {
                    proof {
                        if ok0 {
                            lemma_first_off(gb, *g, g0, fm, fm, id, root as int);
                        }
                    }
                    continue;
                }
                if g.transitive_on[id] != want_on {
                    transitive_on_set(g, id, want_on);
                }
                proof {
                    if start_changed {
                        assert forall|i: int| 0 <= i < g0.n() && gb.eff(i) implies #[trigger] g.eff(i) by {}
                        lemma_starts_only_control(g0, p0, gb, plan@, *g);
                    }
                }
                assert(g.transitive_on@ =~= gb.transitive_on@.update(id as int, want_on));
            }
            if was_on == want_on {
                proof {
                    if ok0 {
                        if want_on {
                            lemma_first_on(gb, *g, g0, fm, fm, id, root as int);
                        } else {
                            lemma_first_off(gb, *g, g0, fm, fm, id, root as int);
                        }
                    }
                }
                continue;
            }
            frontier.push((false, id));
            proof {
                lemma_stack_push(fm, (false, id), true, n);
            }
            push_strong_upstream(g, &mut frontier, id);
            proof {
                lemma_p2_pos((id + 1) as nat);
                lemma_ascended_from_push(*g, fm, frontier@, id);
                if ok0 {
                    if want_on {
                        lemma_first_on(gb, *g, g0, fm, frontier@, id, root as int);
                    } else {
                        lemma_first_off(gb, *g, g0, fm, frontier@, id, root as int);
                    }
                }
            }
            assert forall|j: int| 0 <= j < frontier@.len() implies g.valid((#[trigger] frontier@[j]).1 as int) by {
                if j < fm.len() {
                    assert(frontier@[j] == frontier@.subrange(0, fm.len() + 1 as int)[j]);
                } else if j > fm.len() {
                    let t = frontier@[j].1 as int;
                    let k = choose|k: int| 0 <= k < g.up(id as int).len() && (#[trigger] g.up(id as int)[k]).0 == t && g.up(id as int)[k].1 == DependencyType::Strong;
                    assert(g.present@[g.up(id as int)[k].0 as int]);
                } else {
                    assert(frontier@[j] == frontier@.subrange(0, fm.len() + 1 as int)[j]);
                }
            }
        } else {
            let ghost pb = plan@;
            if start_changed {
                plan_actual_start_one(g, plan, id);
                proof {
                    lemma_starts_only_start_one(g0, p0, gb, pb, *g, plan@, id as int);
                }
            }
            proof {
                if ok0 {
                    lemma_ctl_frame(gb, *g, fb, Seq::empty(), want_on);
                }
            }
            if is_control_effective_on(g, id) == want_on {
                let mut downstream: Vec<usize> = Vec::new();
                push_weak_downstream(g, &mut downstream, id);
                proof {
                    if ok0 {
                        lemma_enter_inner(*g, g0, fm, id, downstream@, root as int, want_on);
                    }
                }
                while downstream.len() > 0
                    invariant
                        g.wf(),
                        g.same_structure(g0),
                        plan@.wf(g0.n()),
                        g.direct_on@ == g0.direct_on@.update(root as int, want_on),
                        g0.wf(),
                        g0.valid(root as int),
                        n == g0.n(),
                        forall|j: int| 0 <= j < frontier@.len() ==> g.valid((#[trigger] frontier@[j]).1 as int),
                        forall|j: int| 0 <= j < downstream@.len() ==> g.valid(#[trigger] downstream@[j] as int),
                        ok0 == g0.control_ok(),
                        !start_changed ==> g.actual@ == g0.actual@ && plan@ == p0,
                        start_changed ==> starts_only(g0, p0, *g, plan@),
                        start_changed ==> want_on,
                        ok0 ==> ctl_inv(*g, frontier@, downstream@, want_on) && order_inv(*g, g0, frontier@, root as int),
                    decreases count_ne(g.awueo@, want_on), downstream@.len(),
                {
                    let ghost db = downstream@;
                    let d = downstream.pop().unwrap();
                    proof {
                        assert(db.drop_last() =~= downstream@);
                        assert(g.valid(db[db.len() - 1] as int));
                    }
                    proof {
                        assert(db =~= downstream@.push(d));
                    }
                    if g.awueo[d] == want_on {
                        proof {
                            if ok0 {
                                lemma_inner_skip(*g, frontier@, downstream@, d, want_on);
                            }
                        }
                        continue;
                    }
                    if want_on && !are_all_weak_upstream_effective_on(g, d) {
                        proof {
                            if ok0 {
                                lemma_inner_skip(*g, frontier@, downstream@, d, want_on);
                            }
                        }
                        continue;
                    }
                    proof {
                        lemma_count_ne_update(g.awueo@, want_on, d as int);
                    }
                    let ghost gs = *g;
                    awueo_set(g, d, want_on);
                    let ghost ga = *g;
                    let ghost pa = plan@;
                    if start_changed {
                        proof {
                            assert forall|i: int| 0 <= i < g0.n() && gs.eff(i) implies #[trigger] ga.eff(i) by {}
                            lemma_starts_only_control(g0, p0, gs, pa, ga);
                        }
                        plan_actual_start_one(g, plan, d);
                        proof {
                            lemma_starts_only_start_one(g0, p0, ga, pa, *g, plan@, d as int);
                        }
                    }
                    let ghost dm = downstream@;
                    push_weak_downstream(g, &mut downstream, d);
                    proof {
                        if ok0 {
                            ga.lemma_same_nodes_deps(*g);
                            assert forall|e: int| ga.valid(e) && ga.is_up(e, d as int, DependencyType::Weak) implies has_id(downstream@, e) by {
                                assert(g.is_up(e, d as int, DependencyType::Weak));
                            }
                            lemma_inner_set(gs, ga, frontier@, dm, downstream@, d, want_on);
                            lemma_ctl_frame(ga, *g, frontier@, downstream@, want_on);
                        }
                    }
                    assert forall|j: int| 0 <= j < downstream@.len() implies g.valid(#[trigger] downstream@[j] as int) by {
                        if j < dm.len() {
                            assert(downstream@[j] == downstream@.subrange(0, dm.len() as int)[j]);
                        }
                    }
                }
            } else {
                proof {
                    if ok0 {
                        lemma_enter_inner(*g, g0, fm, id, Seq::empty(), root as int, want_on);
                    }
                }
            }
        }
    }
    proof {
        if ok0 {
            lemma_ctl_final(*g, want_on);
        }
    }
}

} // verus!
