use vstd::prelude::*;
use crate::control::{ctl_same, plan_set_direct_off, plan_set_direct_on};
use crate::stop_down::{desc, settled};
use crate::delete::{delete_task_recursive_off, has_present_downstream, in_subtree, mark_delete_when_stopped};
use crate::graph_edit::{
    build_task_noschedule, delete_task_immediate, errors_view, find_task, has_name, names_unique, resolve_upstream,
    ups_view, validate_new_task, validation_errors, ValidationError,
};
use crate::model::{Actual, DependencyType, TaskGraph, TaskKind};
use crate::plan::ExecutePlan;
use crate::task_control::{can_start, starts_only, stops_only};
use crate::task_util::is_control_effective_on;

verus! {

/// Why a request was refused.
pub enum RequestError {
    /// No task has the given name.
    UnknownTask,
    /// A task with the given name exists and the request asked for a new one.
    AlreadyExists,
    /// The task is not stopped yet.
    NotStopped,
    /// This downstream task is not marked for deletion.
    DownstreamNotMarked(String),
    /// This downstream task is marked for deletion but still present.
    DownstreamPending(String),
    /// The new task's upstreams have these problems.
    Invalid(Vec<ValidationError>),
}

/// The present task named `name` (when there is one; names are unique).
pub open spec fn index_of(g: TaskGraph, name: Seq<char>) -> int {
    choose|i: int| g.valid(i) && #[trigger] g.nodes@[i].id@ == name
}

pub proof fn lemma_index_of(g: TaskGraph, name: Seq<char>, i: int)
    requires
        names_unique(g),
        g.valid(i),
        g.nodes@[i].id@ == name,
    ensures
        index_of(g, name) == i,
{
    let j = index_of(g, name);
    assert(g.valid(j) && g.nodes@[j].id@ == name);
}

/// Turn the task named `name` on or off by the user.
pub fn task_on_off(g: &mut TaskGraph, plan: &mut ExecutePlan, name: &String, on: bool) -> (r: Result<(), RequestError>)
    requires
        old(g).wf(),
        names_unique(*old(g)),
        old(plan)@.wf(old(g).n()),
    ensures
        final(g).wf(),
        final(g).same_structure(*old(g)),
        final(plan)@.wf(old(g).n()),
        names_unique(*final(g)),
        r is Ok <==> has_name(*old(g), name@),
        r is Err ==> (r matches Err(RequestError::UnknownTask)) && final(g).direct_on@ == old(g).direct_on@
            && final(g).actual@ == old(g).actual@ && final(plan)@ == old(plan)@,
        r is Ok ==> final(g).direct_on@ == old(g).direct_on@.update(index_of(*old(g), name@), on),
        old(g).control_ok() ==> final(g).control_ok(),
        r is Ok && on ==> starts_only(*old(g), old(plan)@, *final(g), final(plan)@),
        r is Ok && on ==> forall|i: int|
            0 <= i < old(g).n() && (i == index_of(*old(g), name@) || desc(*old(g), index_of(*old(g), name@), i)
                || !ctl_same(*old(g), *final(g), i)) && final(g).valid(i) && #[trigger] can_start(*final(g), i)
                && final(g).act(i) == Actual::Stopped ==> final(plan)@.run[i] && !(final(g).kind(i) is Empty),
        r is Ok && !on ==> stops_only(*old(g), old(plan)@, *final(g), final(plan)@, true),
        r is Ok && !on && !final(g).eff(index_of(*old(g), name@)) ==> forall|u: int|
            final(g).valid(u) && !final(g).eff(u) ==> #[trigger] settled(*final(g), final(plan)@, u),
{
    match find_task(g, name) {
        None => Err(RequestError::UnknownTask),
        Some(i) => {
            proof {
                lemma_index_of(*g, name@, i as int);
            }
            if on {
                plan_set_direct_on(g, plan, i);
            } else {
                plan_set_direct_off(g, plan, i);
            }
            Ok(())
        },
    }
}

/// Every task and every state of `a` is as in `b`.
pub open spec fn graph_unchanged(a: TaskGraph, b: TaskGraph) -> bool {
    &&& a.nodes@ == b.nodes@
    &&& a.present@ == b.present@
    &&& a.same_control(b)
    &&& a.actual@ == b.actual@
    &&& a.delete_when_stopped@ == b.delete_when_stopped@
}

/// What deleting task `i` without recursion gives: refused while a present task
/// downstream of it is not marked for deletion; else deleted at once when it is
/// stopped and nothing downstream of it is present, and otherwise marked to be
/// deleted once it stops.
pub open spec fn delete_outcome(g0: TaskGraph, g: TaskGraph, i: int, r: Result<(), RequestError>) -> bool {
    if exists|d: int| g0.valid(d) && #[trigger] g0.has_up(d, i) && !g0.delete_when_stopped@[d] {
        g.present@ == g0.present@ && g.delete_when_stopped@ == g0.delete_when_stopped@ && match r {
            Err(RequestError::DownstreamNotMarked(x)) => exists|d: int|
                g0.valid(d) && g0.has_up(d, i) && !g0.delete_when_stopped@[d] && #[trigger] g0.nodes@[d].id@ == x@,
            _ => false,
        }
    } else if g0.act(i) == Actual::Stopped && g0.no_down(i) {
        r is Ok && g.present@ == g0.present@.update(i, false) && g.delete_when_stopped@ == g0.delete_when_stopped@
    } else {
        r is Ok && g.present@ == g0.present@ && g.delete_when_stopped@ == g0.delete_when_stopped@.update(i, true)
    }
}

/// The first present task downstream of `x` that is not marked for deletion, if any.
fn find_unmarked_downstream(g: &TaskGraph, x: usize) -> (r: Option<usize>)
    requires
        g.wf(),
        x < g.n(),
    ensures
        r matches Some(d) ==> g.valid(d as int) && g.has_up(d as int, x as int) && !g.delete_when_stopped@[d as int],
        r is None ==> forall|d: int| g.valid(d) && #[trigger] g.has_up(d, x as int) ==> g.delete_when_stopped@[d],
{
    let n = g.nodes.len();
    let mut d: usize = 0;
    while d < n
        invariant
            g.wf(),
            n == g.n(),
            d <= n,
            forall|e: int| 0 <= e < d && g.valid(e) && #[trigger] g.has_up(e, x as int) ==> g.delete_when_stopped@[e],
        decreases n - d,
    {
        if g.present[d] && g.dep_type(d, x).is_some() && !g.delete_when_stopped[d] {
            return Some(d);
        }
        d = d + 1;
    }
    None
}

/// The first present task downstream of `x`, if any.
fn find_downstream(g: &TaskGraph, x: usize) -> (r: Option<usize>)
    requires
        g.wf(),
        x < g.n(),
    ensures
        r matches Some(d) ==> g.valid(d as int) && g.has_up(d as int, x as int),
        r is None ==> g.no_down(x as int),
{
    let n = g.nodes.len();
    let mut d: usize = 0;
    while d < n
        invariant
            g.wf(),
            n == g.n(),
            d <= n,
            forall|e: int| 0 <= e < d && g.valid(e) ==> !#[trigger] g.has_up(e, x as int),
        decreases n - d,
    {
        if g.present[d] && g.dep_type(d, x).is_some() {
            return Some(d);
        }
        d = d + 1;
    }
    None
}

/// Delete the task named `name`.  An unknown task is already deleted.  With
/// `recurse`, delete it and what is downstream of it (see
/// `delete_task_recursive_off`); else every present task downstream of it must be
/// marked for deletion, and it is deleted at once when it is stopped with nothing
/// downstream present, or marked to be deleted once it stops (see `delete_outcome`).
pub fn task_delete(g: &mut TaskGraph, plan: &mut ExecutePlan, name: &String, recurse: bool, off: bool) -> (r: Result<
    (),
    RequestError,
>)
    requires
        old(g).wf(),
        names_unique(*old(g)),
        old(plan)@.wf(old(g).n()),
    ensures
        final(g).wf(),
        final(g).nodes@ == old(g).nodes@,
        final(plan)@.wf(old(g).n()),
        names_unique(*final(g)),
        !has_name(*old(g), name@) ==> r is Ok && final(g).present@ == old(g).present@ && final(g).actual@ == old(
            g,
        ).actual@ && final(plan)@ == old(plan)@,
        has_name(*old(g), name@) && !recurse ==> delete_outcome(*old(g), *final(g), index_of(*old(g), name@), r),
        has_name(*old(g), name@) && recurse ==> r is Ok && forall|x: int|
            0 <= x < old(g).n() && #[trigger] in_subtree(*old(g), index_of(*old(g), name@), x) && old(g).present@[x]
                ==> !final(g).present@[x] || final(g).delete_when_stopped@[x],
        has_name(*old(g), name@) && recurse && !off ==> final(g).actual@ == old(g).actual@ && final(plan)@ == old(plan)@,
        has_name(*old(g), name@) && recurse ==> forall|x: int|
            0 <= x < old(g).n() && #[trigger] in_subtree(*old(g), index_of(*old(g), name@), x) && old(g).present@[x]
                && final(g).present@[x] ==> final(g).delete_when_stopped@[x] && !(final(g).act(x) == Actual::Stopped
                && final(g).no_down(x)),
        forall|x: int|
            0 <= x < old(g).n() && old(g).present@[x] && !#[trigger] final(g).present@[x] ==> final(g).act(x)
                == Actual::Stopped,
{
    match find_task(g, name) {
        None => Ok(()),
        Some(i) => {
            proof {
                lemma_index_of(*g, name@, i as int);
            }
            if recurse {
                delete_task_recursive_off(g, plan, i, off);
                return Ok(());
            }
            match find_unmarked_downstream(g, i) {
                Some(d) => {
                    let s = g.nodes[d].id.clone();
                    proof {
                        assert(g.nodes@[d as int].id@ == s@);
                    }
                    return Err(RequestError::DownstreamNotMarked(s));
                },
                None => {},
            }
            if g.actual[i] == Actual::Stopped && find_downstream(g, i).is_none() {
                delete_task_immediate(g, i);
            } else {
                proof {
                    if g.act(i as int) == Actual::Stopped {
                        assert(!g.no_down(i as int));
                    }
                }
                mark_delete_when_stopped(g, i);
            }
            Ok(())
        },
    }
}

/// Add the task named `name` (a request from the user).  If a task with that name
/// exists: refused with `unique`; refused unless it is stopped; nothing happens if
/// its specification is the same (`same_spec`); else it is deleted first (refused if a
/// task downstream of it is still present).  Then the new task's upstreams are
/// checked (with the old task gone), the task is added, and turned on when
/// `default_on`.
pub fn task_add(
    g: &mut TaskGraph,
    plan: &mut ExecutePlan,
    name: String,
    kind: TaskKind,
    upstream: &Vec<(String, DependencyType)>,
    default_on: bool,
    delete_when_stopped: bool,
    unique: bool,
    same_spec: bool,
) -> (r: Result<(), RequestError>)
    requires
        old(g).wf(),
        names_unique(*old(g)),
        old(plan)@.wf(old(g).n()),
        old(g).n() + 1 < usize::MAX,
        forall|k1: int, k2: int|
            0 <= k1 < upstream@.len() && 0 <= k2 < upstream@.len() && k1 != k2 ==> #[trigger] upstream@[k1].0@
                != #[trigger] upstream@[k2].0@,
    ensures
        final(g).wf(),
        names_unique(*final(g)),
        final(plan)@.wf(final(g).n()),
        final(g).n() == old(g).n() || final(g).n() == old(g).n() + 1,
        has_name(*old(g), name@) && unique ==> (r matches Err(RequestError::AlreadyExists)),
        has_name(*old(g), name@) && !unique && old(g).act(index_of(*old(g), name@)) != Actual::Stopped ==> (r matches Err(
            RequestError::NotStopped,
        )),
        has_name(*old(g), name@) && !unique && old(g).act(index_of(*old(g), name@)) == Actual::Stopped && same_spec
            ==> r is Ok && final(g).n() == old(g).n() && final(g).present@ == old(g).present@,
        has_name(*old(g), name@) && !unique && old(g).act(index_of(*old(g), name@)) == Actual::Stopped && !same_spec
            && !old(g).no_down(index_of(*old(g), name@)) ==> (r matches Err(RequestError::DownstreamPending(_))),
        (!has_name(*old(g), name@) || (!unique && old(g).act(index_of(*old(g), name@)) == Actual::Stopped && !same_spec
            && old(g).no_down(index_of(*old(g), name@)))) ==> match r {
            Ok(()) => validation_errors(*old(g), ups_view(upstream@), Some(name@)).len() == 0 && final(g).n()
                == old(g).n() + 1 && final(g).valid(old(g).n()) && final(g).nodes@[old(g).n()].id@ == name@
                && final(g).kind(old(g).n()) == kind && final(g).direct_on@[old(g).n()] == default_on,
            Err(RequestError::Invalid(errs)) => errs@.len() > 0 && errors_view(errs@) == validation_errors(
                *old(g),
                ups_view(upstream@),
                Some(name@),
            ),
            _ => false,
        },
        r is Err ==> final(g).n() == old(g).n(),
        has_name(*old(g), name@) && !unique && old(g).act(index_of(*old(g), name@)) == Actual::Stopped && !same_spec
            && old(g).no_down(index_of(*old(g), name@)) ==> !final(g).present@[index_of(*old(g), name@)],
        (r matches Err(RequestError::AlreadyExists)) || (r matches Err(RequestError::NotStopped)) || (r matches Err(
            RequestError::DownstreamPending(_),
        )) ==> graph_unchanged(*old(g), *final(g)) && final(plan)@ == old(plan)@,
        old(g).control_ok() && (!has_name(*old(g), name@) || !old(g).on(index_of(*old(g), name@))) ==> final(g).control_ok(),
{
    let ghost g0 = *g;
    match find_task(g, &name) {
        Some(i) => {
            proof {
                lemma_index_of(*g, name@, i as int);
            }
            if unique {
                return Err(RequestError::AlreadyExists);
            }
            if g.actual[i] != Actual::Stopped {
                return Err(RequestError::NotStopped);
            }
            if same_spec {
                return Ok(());
            }
            match find_downstream(g, i) {
                Some(d) => {
                    return Err(RequestError::DownstreamPending(g.nodes[d].id.clone()));
                },
                None => {},
            }
            delete_task_immediate(g, i);
            proof {
                crate::graph_edit::lemma_validation_after_remove(g0, *g, i as int, ups_view(upstream@));
                assert(!has_name(*g, name@)) by {
                    if has_name(*g, name@) {
                        let j = choose|j: int| g.valid(j) && #[trigger] g.nodes@[j].id@ == name@;
                        assert(g0.valid(j));
                    }
                }
            }
        },
        None => {
            proof {
                assert forall|ups: Seq<(Seq<char>, DependencyType)>| #[trigger] validation_errors(*g, ups, None)
                    == validation_errors(*g, ups, Some(name@)) by {
                    lemma_validation_absent(*g, ups, name@);
                }
            }
        },
    }
    let ghost g1 = *g;
    let errors = validate_new_task(g, upstream);
    if errors.len() > 0 {
        return Err(RequestError::Invalid(errors));
    }
    proof {
        crate::graph_edit::lemma_no_errors_all_known(*g, ups_view(upstream@), None);
        assert forall|k: int| 0 <= k < upstream@.len() implies has_name(*g, #[trigger] upstream@[k].0@) by {
            assert(ups_view(upstream@)[k].0 == upstream@[k].0@);
        }
    }
    let ups = match resolve_upstream(g, upstream) {
        Some(u) => u,
        None => {
            return Err(RequestError::Invalid(errors));
        },
    };
    proof {
        assert forall|k1: int, k2: int|
            0 <= k1 < ups@.len() && 0 <= k2 < ups@.len() && k1 != k2 implies #[trigger] ups@[k1].0 != #[trigger] ups@[k2].0 by {
            assert(upstream@[k1].0@ != upstream@[k2].0@);
        }
    }
    let j = build_task_noschedule(g, name, kind, ups, delete_when_stopped);
    plan.push_slot();
    proof {
        assert(g.valid(j as int));
    }
    if default_on {
        plan_set_direct_on(g, plan, j);
    }
    proof {
        assert(g.valid(j as int));
    }
    Ok(())
}

/// With no task named `name`, removing it changes nothing.
pub proof fn lemma_validation_absent(g: TaskGraph, ups: Seq<(Seq<char>, DependencyType)>, name: Seq<char>)
    requires
        !has_name(g, name),
    ensures
        validation_errors(g, ups, None) == validation_errors(g, ups, Some(name)),
    decreases ups.len(),
{
    if ups.len() > 0 {
        lemma_validation_absent(g, ups.drop_last(), name);
    }
}


/// `transitive_on` of the present tasks at or after `m` agrees between two consistent
/// graphs with the same tasks and the same `direct_on`.
proof fn lemma_transitive_agree_from(a: TaskGraph, b: TaskGraph, m: int)
    requires
        a.wf(),
        b.wf(),
        a.nodes@ == b.nodes@,
        a.present@ == b.present@,
        a.direct_on@ == b.direct_on@,
        a.control_ok(),
        b.control_ok(),
        0 <= m <= a.n(),
    ensures
        forall|i: int| m <= i < a.n() && a.valid(i) ==> a.transitive_on@[i] == b.transitive_on@[i],
    decreases a.n() - m,
{
    if m < a.n() {
        lemma_transitive_agree_from(a, b, m + 1);
        if a.valid(m) {
            assert(a.node_control_ok(m));
            assert(b.node_control_ok(m));
            assert forall|d: int| a.valid(d) && #[trigger] a.is_up(d, m, DependencyType::Strong) implies b.valid(d)
                && b.is_up(d, m, DependencyType::Strong) && a.on(d) == b.on(d) by {
                let k = choose|k: int|
                    0 <= k < a.up(d).len() && (#[trigger] a.up(d)[k]).0 == m && a.up(d)[k].1 == DependencyType::Strong;
                assert(a.up(d)[k].0 < d);
                assert(b.up(d)[k] == a.up(d)[k]);
            }
            assert forall|d: int| b.valid(d) && #[trigger] b.is_up(d, m, DependencyType::Strong) implies a.valid(d)
                && a.is_up(d, m, DependencyType::Strong) by {
                let k = choose|k: int|
                    0 <= k < b.up(d).len() && (#[trigger] b.up(d)[k]).0 == m && b.up(d)[k].1 == DependencyType::Strong;
                assert(a.up(d)[k] == b.up(d)[k]);
            }
            if a.strong_down_on(m) {
                let d = choose|d: int| a.valid(d) && #[trigger] a.is_up(d, m, DependencyType::Strong) && a.on(d);
                assert(b.is_up(d, m, DependencyType::Strong) && b.on(d));
            }
            if b.strong_down_on(m) {
                let d = choose|d: int| b.valid(d) && #[trigger] b.is_up(d, m, DependencyType::Strong) && b.on(d);
                assert(a.is_up(d, m, DependencyType::Strong));
            }
        }
    }
}

/// `awueo` and effective on of the present tasks before `m` agree between two
/// consistent graphs with the same tasks, `direct_on` and `transitive_on`.
proof fn lemma_awueo_agree_below(a: TaskGraph, b: TaskGraph, m: int)
    requires
        a.wf(),
        b.wf(),
        a.nodes@ == b.nodes@,
        a.present@ == b.present@,
        a.direct_on@ == b.direct_on@,
        forall|i: int| a.valid(i) ==> a.transitive_on@[i] == b.transitive_on@[i],
        a.control_ok(),
        b.control_ok(),
        0 <= m <= a.n(),
    ensures
        forall|i: int| 0 <= i < m && a.valid(i) ==> a.awueo@[i] == b.awueo@[i] && a.eff(i) == b.eff(i),
    decreases m,
{
    if m > 0 {
        lemma_awueo_agree_below(a, b, m - 1);
        let i = m - 1;
        if a.valid(i) {
            assert(a.node_control_ok(i));
            assert(b.node_control_ok(i));
            assert forall|k: int| 0 <= k < a.up(i).len() && (#[trigger] a.up(i)[k]).1 == DependencyType::Weak implies a.eff(
                a.up(i)[k].0 as int,
            ) == b.eff(b.up(i)[k].0 as int) by {
                assert(a.up(i)[k].0 < i);
                assert(a.present@[a.up(i)[k].0 as int]);
                assert(b.up(i)[k] == a.up(i)[k]);
            }
            if a.all_weak_up_eff(i) {
                assert forall|k: int| 0 <= k < b.up(i).len() && (#[trigger] b.up(i)[k]).1 == DependencyType::Weak implies b.eff(
                    b.up(i)[k].0 as int,
                ) by {
                    assert(a.up(i)[k] == b.up(i)[k]);
                }
            }
            if b.all_weak_up_eff(i) {
                assert forall|k: int| 0 <= k < a.up(i).len() && (#[trigger] a.up(i)[k]).1 == DependencyType::Weak implies a.eff(
                    a.up(i)[k].0 as int,
                ) by {
                    assert(a.up(i)[k] == b.up(i)[k]);
                }
            }
        }
    }
}

/// The control state follows from what the user turned on: two consistent graphs with
/// the same tasks and the same `direct_on` have the same `transitive_on`, `awueo` and
/// effective on for every present task.
pub proof fn lemma_control_determined(a: TaskGraph, b: TaskGraph)
    requires
        a.wf(),
        b.wf(),
        a.nodes@ == b.nodes@,
        a.present@ == b.present@,
        a.direct_on@ == b.direct_on@,
        a.control_ok(),
        b.control_ok(),
    ensures
        forall|i: int|
            #![trigger a.valid(i)]
            a.valid(i) ==> a.transitive_on@[i] == b.transitive_on@[i] && a.awueo@[i] == b.awueo@[i] && a.eff(i)
                == b.eff(i),
{
    lemma_transitive_agree_from(a, b, 0);
    lemma_awueo_agree_below(a, b, a.n());
}

/// Turning a task on (or off) and then back to what it was, as `task_on_off` does,
/// gives every present task back its control state.
pub proof fn lemma_on_off_round_trip(g0: TaskGraph, g1: TaskGraph, g2: TaskGraph, i: int, on: bool)
    requires
        g0.wf(),
        g0.control_ok(),
        g0.valid(i),
        g1.wf(),
        g1.same_structure(g0),
        g1.direct_on@ == g0.direct_on@.update(i, on),
        g1.control_ok(),
        g2.wf(),
        g2.same_structure(g1),
        g2.direct_on@ == g1.direct_on@.update(i, g0.direct_on@[i]),
        g2.control_ok(),
    ensures
        forall|x: int|
            #![trigger g0.valid(x)]
            g0.valid(x) ==> g2.direct_on@[x] == g0.direct_on@[x] && g2.transitive_on@[x] == g0.transitive_on@[x]
                && g2.awueo@[x] == g0.awueo@[x] && g2.eff(x) == g0.eff(x),
{
    assert(g2.direct_on@ =~= g0.direct_on@);
    lemma_control_determined(g0, g2);
}

} // verus!
