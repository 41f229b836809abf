use vstd::prelude::*;
use crate::model::{Actual, DependencyType, ShortTaskStartedAction, TaskGraph};

verus! {

/// Effective on: `(direct_on || transitive_on) && awueo`.
pub fn is_control_effective_on(g: &TaskGraph, i: usize) -> (r: bool)
    requires
        g.wf(),
        i < g.n(),
    ensures
        r == g.eff(i as int),
{
    g.awueo[i] && (g.direct_on[i] || g.transitive_on[i])
}

/// The started action of a short task, defaulting to `TurnOff` for scheduled tasks
/// and `NoAction` otherwise.
pub fn get_short_task_started_action(started_action: Option<ShortTaskStartedAction>, scheduled: bool) -> (r:
    ShortTaskStartedAction)
    ensures
        r == TaskGraph::started_action_of(started_action, scheduled),
{
    match started_action {
        None => {
            if !scheduled {
                ShortTaskStartedAction::NoAction
            } else {
                ShortTaskStartedAction::TurnOff
            }
        },
        Some(a) => a,
    }
}

/// Whether every upstream of task `i` is started.
pub fn is_actual_all_upstream_tasks_started(g: &TaskGraph, i: usize) -> (r: bool)
    requires
        g.wf(),
        i < g.n(),
    ensures
        r == g.all_up_started(i as int),
{
    let ups = &g.nodes[i].upstream;
    let mut k: usize = 0;
    while k < ups.len()
        invariant
            g.wf(),
            i < g.n(),
            ups@ == g.up(i as int),
            k <= ups@.len(),
            forall|j: int| 0 <= j < k ==> g.act(#[trigger] ups@[j].0 as int) == Actual::Started,
        decreases ups@.len() - k,
    {
        let u = ups[k].0;
        assert(g.up(i as int)[k as int].0 < i);
        if g.actual[u] != Actual::Started {
            assert(g.act(g.up(i as int)[k as int].0 as int) != Actual::Started);
            return false;
        }
        k = k + 1;
    }
    true
}

/// Whether every present downstream of task `u` is stopped.
pub fn are_all_downstream_tasks_stopped(g: &TaskGraph, u: usize) -> (r: bool)
    requires
        g.wf(),
        u < g.n(),
    ensures
        r == g.all_down_stopped(u as int),
{
    let n = g.nodes.len();
    let mut d: usize = 0;
    while d < n
        invariant
            g.wf(),
            n == g.n(),
            d <= n,
            forall|e: int| 0 <= e < d && g.valid(e) && #[trigger] g.has_up(e, u as int) ==> g.act(e)
                == Actual::Stopped,
        decreases n - d,
    {
        if g.present[d] && g.dep_type(d, u).is_some() && g.actual[d] != Actual::Stopped {
            return false;
        }
        d = d + 1;
    }
    true
}

/// Whether every present strong downstream of task `u` is off (neither direct nor
/// transitive on).
pub fn are_all_strong_downstream_direct_or_transitive_off(g: &TaskGraph, u: usize) -> (r: bool)
    requires
        g.wf(),
        u < g.n(),
    ensures
        r == g.all_strong_down_off(u as int),
{
    let n = g.nodes.len();
    let mut d: usize = 0;
    while d < n
        invariant
            g.wf(),
            n == g.n(),
            d <= n,
            forall|e: int|
                0 <= e < d && g.valid(e) && #[trigger] g.is_up(e, u as int, DependencyType::Strong)
                    ==> !g.on(e),
        decreases n - d,
    {
        if g.present[d] {
            if let Some(DependencyType::Strong) = g.dep_type(d, u) {
                if g.direct_on[d] || g.transitive_on[d] {
                    return false;
                }
            }
        }
        d = d + 1;
    }
    true
}

/// Whether every weak upstream of task `i` is effectively on.
pub fn are_all_weak_upstream_effective_on(g: &TaskGraph, i: usize) -> (r: bool)
    requires
        g.wf(),
        i < g.n(),
    ensures
        r == g.all_weak_up_eff(i as int),
{
    let ups = &g.nodes[i].upstream;
    let mut k: usize = 0;
    while k < ups.len()
        invariant
            g.wf(),
            i < g.n(),
            ups@ == g.up(i as int),
            k <= ups@.len(),
            forall|j: int|
                0 <= j < k && (#[trigger] ups@[j]).1 == DependencyType::Weak ==> g.eff(ups@[j].0 as int),
        decreases ups@.len() - k,
    {
        let (u, t) = ups[k];
        assert(g.up(i as int)[k as int].0 < i);
        if t == DependencyType::Weak && !is_control_effective_on(g, u) {
            assert(g.up(i as int)[k as int].1 == DependencyType::Weak);
            return false;
        }
        k = k + 1;
    }
    true
}

/// Set the actual state of task `i`.
pub fn actual_set(g: &mut TaskGraph, i: usize, actual: Actual)
    requires
        old(g).wf(),
        i < old(g).n(),
    ensures
        final(g).wf(),
        final(g).same_structure(*old(g)),
        final(g).same_control(*old(g)),
        final(g).actual@ == old(g).actual@.update(i as int, actual),
{
    let ghost g0 = *g;
    g.actual.set(i, actual);
    proof {
        g0.lemma_wf_frame(*g);
    }
}

/// Set the direct-on flag of task `i` (no propagation).
pub fn direct_on_set(g: &mut TaskGraph, i: usize, on: bool)
    requires
        old(g).wf(),
        i < old(g).n(),
    ensures
        final(g).wf(),
        final(g).same_structure(*old(g)),
        final(g).direct_on@ == old(g).direct_on@.update(i as int, on),
        final(g).transitive_on@ == old(g).transitive_on@,
        final(g).awueo@ == old(g).awueo@,
        final(g).actual@ == old(g).actual@,
{
    let ghost g0 = *g;
    g.direct_on.set(i, on);
    proof {
        g0.lemma_wf_frame(*g);
    }
}

/// Set the transitive-on flag of task `i` (no propagation).
pub fn transitive_on_set(g: &mut TaskGraph, i: usize, on: bool)
    requires
        old(g).wf(),
        i < old(g).n(),
    ensures
        final(g).wf(),
        final(g).same_structure(*old(g)),
        final(g).transitive_on@ == old(g).transitive_on@.update(i as int, on),
        final(g).direct_on@ == old(g).direct_on@,
        final(g).awueo@ == old(g).awueo@,
        final(g).actual@ == old(g).actual@,
{
    let ghost g0 = *g;
    g.transitive_on.set(i, on);
    proof {
        g0.lemma_wf_frame(*g);
    }
}

/// Set the "all weak upstream effective on" flag of task `i` (no propagation).
pub fn awueo_set(g: &mut TaskGraph, i: usize, on: bool)
    requires
        old(g).wf(),
        i < old(g).n(),
    ensures
        final(g).wf(),
        final(g).same_structure(*old(g)),
        final(g).awueo@ == old(g).awueo@.update(i as int, on),
        final(g).direct_on@ == old(g).direct_on@,
        final(g).transitive_on@ == old(g).transitive_on@,
        final(g).actual@ == old(g).actual@,
{
    let ghost g0 = *g;
    g.awueo.set(i, on);
    proof {
        g0.lemma_wf_frame(*g);
    }
}

} // verus!
