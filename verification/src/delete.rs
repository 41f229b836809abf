use vstd::prelude::*;
use crate::control::plan_set_direct_off;
use crate::graph_edit::{delete_task_immediate, names_unique};
use crate::model::{Actual, DependencyType, TaskGraph};
use crate::plan::ExecutePlan;
use crate::stop_down::{desc, descendants};

verus! {

/// Whether some present task is downstream of task `x`.
pub fn has_present_downstream(g: &TaskGraph, x: usize) -> (r: bool)
    requires
        g.wf(),
        x < g.n(),
    ensures
        r == !g.no_down(x as int),
{
    let n = g.nodes.len();
    let mut d: usize = 0;
    while d < n
        invariant
            g.wf(),
            n == g.n(),
            d <= n,
            forall|e: int| 0 <= e < d && g.valid(e) ==> !#[trigger] g.has_up(e, x as int),
        decreases n - d,
    {
        if g.present[d] && g.dep_type(d, x).is_some() {
            return true;
        }
        d = d + 1;
    }
    false
}

/// Mark task `i` to be deleted once it stops.
pub fn mark_delete_when_stopped(g: &mut TaskGraph, i: usize)
    requires
        old(g).wf(),
        i < old(g).n(),
    ensures
        final(g).wf(),
        final(g).nodes@ == old(g).nodes@,
        final(g).present@ == old(g).present@,
        final(g).same_control(*old(g)),
        final(g).actual@ == old(g).actual@,
        final(g).delete_when_stopped@ == old(g).delete_when_stopped@.update(i as int, true),
{
    let ghost g0 = *g;
    g.delete_when_stopped.set(i, true);
    proof {
        g0.lemma_wf_frame(*g);
    }
}

/// Task `x` is `root` or downstream of it.
pub open spec fn in_subtree(g: TaskGraph, root: int, x: int) -> bool {
    x == root || desc(g, root, x)
}

/// A present task downstream of a task in the subtree of `root` is in it.
pub proof fn lemma_subtree_closed(g: TaskGraph, root: int, y: int, d: int)
    requires
        g.wf(),
        in_subtree(g, root, y),
        g.valid(d),
        g.has_up(d, y),
    ensures
        in_subtree(g, root, d),
{
    let k = choose|k: int| 0 <= k < g.up(d).len() && (#[trigger] g.up(d)[k]).0 == y;
    assert(g.up(d)[k].0 < d);
}

/// With the control state consistent, present tasks of the subtree of `root` above `x`
/// that are not directly on are not on at all.
pub proof fn lemma_subtree_off(g: TaskGraph, g0: TaskGraph, root: int, x: int, e: int)
    requires
        g.wf(),
        g0.wf(),
        g.nodes@ == g0.nodes@,
        forall|j: int| 0 <= j < g.n() && g.present@[j] ==> #[trigger] g0.present@[j],
        g.control_ok(),
        forall|j: int| x < j < g.n() && in_subtree(g0, root, j) && g.valid(j) ==> !#[trigger] g.direct_on@[j],
        x < e < g.n(),
        in_subtree(g0, root, e),
        g.valid(e),
    ensures
        !g.on(e),
    decreases g.n() - e,
{
    assert(g.node_control_ok(e));
    if g.strong_down_on(e) {
        let d = choose|d: int| g.valid(d) && #[trigger] g.is_up(d, e, DependencyType::Strong) && g.on(d);
        let k = choose|k: int| 0 <= k < g.up(d).len() && (#[trigger] g.up(d)[k]).0 == e && g.up(d)[k].1 == DependencyType::Strong;
        assert(g.up(d)[k].0 < d);
        assert(g0.up(d) == g.up(d));
        assert(g0.has_up(d, e));
        assert(g0.valid(d));
        lemma_subtree_closed(g0, root, e, d);
        lemma_subtree_off(g, g0, root, x, d);
    }
}

/// Delete `root` and every task downstream of it.  With `off`, each is first turned
/// off (downstream first).  Then, downstream first, a task that is stopped and has no
/// present downstream is deleted at once; any other is marked to be deleted once it
/// stops.
pub fn delete_task_recursive_off(g: &mut TaskGraph, plan: &mut ExecutePlan, root: usize, off: bool)
    requires
        old(g).wf(),
        old(plan)@.wf(old(g).n()),
        old(g).valid(root as int),
    ensures
        final(g).wf(),
        final(g).nodes@ == old(g).nodes@,
        final(plan)@.wf(old(g).n()),
        forall|x: int|
            0 <= x < old(g).n() && #[trigger] in_subtree(*old(g), root as int, x) && old(g).present@[x]
                ==> !final(g).present@[x] || final(g).delete_when_stopped@[x],
        forall|x: int|
            0 <= x < old(g).n() && #[trigger] in_subtree(*old(g), root as int, x) && old(g).present@[x]
                && final(g).present@[x] ==> final(g).delete_when_stopped@[x] && !(final(g).act(x) == Actual::Stopped
                && final(g).no_down(x)),
        forall|x: int|
            0 <= x < old(g).n() && !#[trigger] in_subtree(*old(g), root as int, x) ==> final(g).present@[x]
                == old(g).present@[x] && final(g).delete_when_stopped@[x] == old(g).delete_when_stopped@[x],
        forall|x: int|
            0 <= x < old(g).n() && old(g).present@[x] && !#[trigger] final(g).present@[x] ==> final(g).act(x)
                == Actual::Stopped,
        off ==> forall|x: int|
            0 <= x < old(g).n() && #[trigger] in_subtree(*old(g), root as int, x) && final(g).present@[x]
                ==> !final(g).direct_on@[x],
        off && old(g).control_ok() ==> final(g).control_ok(),
        !off ==> final(g).actual@ == old(g).actual@ && final(g).same_control(*old(g)) && final(plan)@ == old(plan)@,
        names_unique(*old(g)) ==> names_unique(*final(g)),
{
    let ghost g0 = *g;
    let ghost p0 = plan@;
    let n = g.nodes.len();
    let s = descendants(g, root);
    if off {
        let mut x: usize = n;
        while x > root
            invariant
                g0.wf(),
                g.wf(),
                g.same_structure(g0),
                plan@.wf(g0.n()),
                n == g0.n(),
                root < n,
                root <= x <= n,
                s@.len() == n,
                forall|e: int| 0 <= e < n ==> #[trigger] s@[e] == desc(g0, root as int, e),
                forall|e: int| x <= e < n && #[trigger] in_subtree(g0, root as int, e) && g.present@[e] ==> !g.direct_on@[e],
                g0.control_ok() ==> g.control_ok(),
            decreases x,
        {
            x = x - 1;
            proof {
                assert(in_subtree(g0, root as int, x as int) == (x == root || s@[x as int]));
            }
            if (x == root || s[x]) && g.present[x] {
                plan_set_direct_off(g, plan, x);
            }
        }
    }
    let ghost g1 = *g;
    proof {
        if !off {
            assert(g1.actual@ == g0.actual@ && g1.same_control(g0) && plan@ == p0);
        }
        assert forall|e: int| 0 <= e < n && #[trigger] in_subtree(g0, root as int, e) implies e >= root by {
            if e < root {
                crate::stop_down::lemma_desc_below(g0, root as int, e);
            }
        }
        if names_unique(g0) {
            assert forall|i: int, j: int| g.valid(i) && g.valid(j) && i != j implies #[trigger] g.nodes@[i].id@
                != #[trigger] g.nodes@[j].id@ by {
                assert(g0.valid(i) && g0.valid(j));
            }
        }
    }
    let mut x: usize = n;
    while x > root
        invariant
            g0.wf(),
            g.wf(),
            g.nodes@ == g0.nodes@,
            plan@.wf(g0.n()),
            n == g0.n(),
            root < n,
            g0.valid(root as int),
            root <= x <= n,
            s@.len() == n,
            forall|e: int| 0 <= e < n ==> #[trigger] s@[e] == desc(g0, root as int, e),
            forall|e: int| 0 <= e < n && g.present@[e] ==> #[trigger] g0.present@[e],
            forall|e: int|
                x <= e < n && #[trigger] in_subtree(g0, root as int, e) && g0.present@[e] ==> !g.present@[e]
                    || g.delete_when_stopped@[e],
            forall|e: int|
                x <= e < n && #[trigger] in_subtree(g0, root as int, e) && g0.present@[e] && g.present@[e]
                    ==> g.delete_when_stopped@[e] && !(g.act(e) == Actual::Stopped && g.no_down(e)),
            forall|e: int|
                0 <= e < n && (e < x || !in_subtree(g0, root as int, e)) ==> #[trigger] g.present@[e] == g0.present@[e],
            forall|e: int|
                0 <= e < n && (e < x || !in_subtree(g0, root as int, e)) ==> #[trigger] g.delete_when_stopped@[e]
                    == g0.delete_when_stopped@[e],
            forall|e: int| 0 <= e < n && g0.present@[e] && !#[trigger] g.present@[e] ==> g.act(e) == Actual::Stopped,
            g.actual@ == g1.actual@,
            g.same_control(g1),
            !off ==> g1.actual@ == g0.actual@ && g1.same_control(g0) && plan@ == p0,
            off ==> forall|e: int| 0 <= e < n && #[trigger] in_subtree(g0, root as int, e) && g.present@[e] ==> !g.direct_on@[e],
            off && g0.control_ok() ==> g.control_ok(),
            names_unique(g0) ==> names_unique(*g),
        decreases x,
    {
        x = x - 1;
        let ghost gx = *g;
        let ghost cond = (x == root || s@[x as int]) && gx.present@[x as int];
        proof {
            assert(in_subtree(g0, root as int, x as int) == (x == root || s@[x as int]));
        }
        if (x == root || s[x]) && g.present[x] {
            if g.actual[x] == Actual::Stopped && !has_present_downstream(g, x) {
                proof {
                    if off && g0.control_ok() {
                        assert(g.node_control_ok(x as int));
                        if g.strong_down_on(x as int) {
                            let d = choose|d: int| g.valid(d) && #[trigger] g.is_up(d, x as int, DependencyType::Strong) && g.on(d);
                            let k = choose|k: int| 0 <= k < g.up(d).len() && (#[trigger] g.up(d)[k]).0 == x && g.up(d)[k].1 == DependencyType::Strong;
                            assert(g.has_up(d, x as int));
                        }
                        assert(!g.on(x as int));
                    }
                }
                delete_task_immediate(g, x);
                proof {
                    assert(forall|e: int| 0 <= e < n && e != x ==> #[trigger] g.delete_when_stopped@[e] == gx.delete_when_stopped@[e]);
                }
            } else {
                mark_delete_when_stopped(g, x);
                proof {
                    assert(forall|e: int| 0 <= e < n && e != x ==> #[trigger] g.delete_when_stopped@[e] == gx.delete_when_stopped@[e]);
                    if off && g0.control_ok() {
                        crate::control::lemma_control_ok_frame(gx, *g);
                    }
                    if names_unique(g0) {
                        assert forall|i: int, j: int| g.valid(i) && g.valid(j) && i != j implies #[trigger] g.nodes@[i].id@ != #[trigger] g.nodes@[j].id@ by {
                            assert(gx.valid(i) && gx.valid(j));
                        }
                    }
                }
            }
        }
        proof {
            gx.lemma_same_nodes_deps(*g);
            assert forall|e: int| 0 <= e < n && (e < x || !in_subtree(g0, root as int, e)) implies #[trigger] g.present@[e]
                == g0.present@[e] by {
                assert(gx.present@[e] == g0.present@[e]);
                if cond {
                    assert(e != x);
                }
            }
            assert forall|e: int| 0 <= e < n && (e < x || !in_subtree(g0, root as int, e)) implies #[trigger] g.delete_when_stopped@[e]
                == g0.delete_when_stopped@[e] by {
                assert(gx.delete_when_stopped@[e] == g0.delete_when_stopped@[e]);
                if cond {
                    assert(e != x);
                }
            }
            assert forall|e: int|
                x <= e < n && #[trigger] in_subtree(g0, root as int, e) && g0.present@[e] && g.present@[e]
                    implies g.delete_when_stopped@[e] && !(g.act(e) == Actual::Stopped && g.no_down(e)) by {
                if e > x {
                    assert(gx.present@[e]);
                    if gx.act(e) == Actual::Stopped && !gx.no_down(e) {
                        let d = choose|d: int| gx.valid(d) && #[trigger] gx.has_up(d, e);
                        let k = choose|k: int| 0 <= k < gx.up(d).len() && (#[trigger] gx.up(d)[k]).0 == e;
                        assert(gx.up(d)[k].0 < d);
                        assert(g.valid(d));
                        assert(g.has_up(d, e));
                    }
                }
            }
        }
    }
}


/// Task `x` is marked to be deleted and may go now: stopped, neither directly nor
/// transitively on, and with no present task downstream of it.
pub open spec fn may_sweep(g: TaskGraph, x: int) -> bool {
    g.valid(x) && g.delete_when_stopped@[x] && g.act(x) == Actual::Stopped && !g.on(x) && g.no_down(x)
}

/// Delete each task that is marked to be deleted once stopped and may go now, from
/// the last task down, so that a chain of marked tasks goes at once.
pub fn sweep_marked(g: &mut TaskGraph)
    requires
        old(g).wf(),
    ensures
        final(g).wf(),
        final(g).nodes@ == old(g).nodes@,
        final(g).same_control(*old(g)),
        final(g).actual@ == old(g).actual@,
        final(g).delete_when_stopped@ == old(g).delete_when_stopped@,
        forall|x: int| 0 <= x < old(g).n() && final(g).present@[x] ==> #[trigger] old(g).present@[x],
        forall|x: int|
            0 <= x < old(g).n() && old(g).present@[x] && !#[trigger] final(g).present@[x] ==> old(g).delete_when_stopped@[x]
                && old(g).act(x) == Actual::Stopped && !old(g).on(x),
        forall|x: int| 0 <= x < old(g).n() ==> !#[trigger] may_sweep(*final(g), x),
        old(g).control_ok() ==> final(g).control_ok(),
        names_unique(*old(g)) ==> names_unique(*final(g)),
{
    let ghost g0 = *g;
    let n = g.nodes.len();
    let mut x: usize = n;
    while x > 0
        invariant
            g0.wf(),
            g.wf(),
            n == g.n(),
            x <= n,
            g.nodes@ == g0.nodes@,
            g.same_control(g0),
            g.actual@ == g0.actual@,
            g.delete_when_stopped@ == g0.delete_when_stopped@,
            forall|y: int| 0 <= y < n && g.present@[y] ==> #[trigger] g0.present@[y],
            forall|y: int| 0 <= y < x ==> #[trigger] g.present@[y] == g0.present@[y],
            forall|y: int|
                0 <= y < n && g0.present@[y] && !#[trigger] g.present@[y] ==> g0.delete_when_stopped@[y] && g0.act(y)
                    == Actual::Stopped && !g0.on(y),
            forall|y: int| x <= y < n ==> !#[trigger] may_sweep(*g, y),
            g0.control_ok() ==> g.control_ok(),
            names_unique(g0) ==> names_unique(*g),
        decreases x,
    {
        x = x - 1;
        let ghost gb = *g;
        if g.present[x] && g.delete_when_stopped[x] && g.actual[x] == Actual::Stopped && !g.direct_on[x]
            && !g.transitive_on[x] && !has_present_downstream(g, x) {
            delete_task_immediate(g, x);
            proof {
                assert forall|y: int| x <= y < n implies !#[trigger] may_sweep(*g, y) by {
                    if y > x {
                        assert(!may_sweep(gb, y));
                        if gb.valid(y) && gb.delete_when_stopped@[y] && gb.act(y) == Actual::Stopped && !gb.on(y) {
                            let d = choose|d: int| gb.valid(d) && #[trigger] gb.has_up(d, y);
                            assert(d > y) by {
                                let k = choose|k: int| 0 <= k < gb.up(d).len() && (#[trigger] gb.up(d)[k]).0 == y;
                                assert(gb.up(d)[k].0 < d);
                            }
                            assert(g.up(d) == gb.up(d));
                            assert(g.has_up(d, y));
                        }
                    }
                }
            }
        } else {
            proof {
                assert(!may_sweep(*g, x as int));
            }
        }
    }
}

} // verus!
