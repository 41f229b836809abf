use vstd::prelude::*;
use crate::model::{Actual, DependencyType, ShortTaskStartedAction, TaskGraph, TaskKind, TaskNode};
use crate::task_util::is_control_effective_on;

verus! {

/// No two present tasks have the same name.
pub open spec fn names_unique(g: TaskGraph) -> bool {
    forall|i: int, j: int| g.valid(i) && g.valid(j) && i != j ==> #[trigger] g.nodes@[i].id@ != #[trigger] g.nodes@[j].id@
}

/// Some present task is named `name`.
pub open spec fn has_name(g: TaskGraph, name: Seq<char>) -> bool {
    exists|i: int| g.valid(i) && #[trigger] g.nodes@[i].id@ == name
}

/// The present task named `name`, if there is one.
pub fn find_task(g: &TaskGraph, name: &String) -> (r: Option<usize>)
    requires
        g.wf(),
    ensures
        r matches Some(i) ==> g.valid(i as int) && g.nodes@[i as int].id@ == name@,
        r is None <==> !has_name(*g, name@),
{
    let n = g.nodes.len();
    let mut i: usize = 0;
    while i < n
        invariant
            g.wf(),
            n == g.n(),
            i <= n,
            forall|j: int| 0 <= j < i && g.valid(j) ==> #[trigger] g.nodes@[j].id@ != name@,
        decreases n - i,
    {
        if g.present[i] && g.nodes[i].id == *name {
            return Some(i);
        }
        i = i + 1;
    }
    None
}

/// Why a new task cannot be added.
#[derive(Clone, Copy, PartialEq, Eq, Structural, Debug)]
pub enum ValidationErrorKind {
    /// No task with the upstream's name exists.
    MissingUpstream,
    /// The upstream is a short task whose started action is `TurnOff`, so the new task
    /// could never start.
    UpstreamTurnsOff,
}

/// A problem with one upstream of a new task.
pub struct ValidationError {
    pub kind: ValidationErrorKind,
    pub upstream: String,
}

/// The task named `name` (which must exist) is a short task whose started action is
/// explicitly `TurnOff`.
pub open spec fn named_turns_off(g: TaskGraph, name: Seq<char>) -> bool {
    let i = choose|i: int| g.valid(i) && #[trigger] g.nodes@[i].id@ == name;
    g.kind(i) matches TaskKind::Short { started_action, .. } && started_action == Some(ShortTaskStartedAction::TurnOff)
}

/// The problems with the upstreams `ups` of a new task, in order, as if the task named
/// `removed` (if any) were not in `g`.
pub open spec fn validation_errors(g: TaskGraph, ups: Seq<(Seq<char>, DependencyType)>, removed: Option<Seq<char>>) -> Seq<(ValidationErrorKind, Seq<char>)>
    decreases ups.len(),
{
    if ups.len() == 0 {
        seq![]
    } else {
        let rest = validation_errors(g, ups.drop_last(), removed);
        let name = ups.last().0;
        if !has_name(g, name) || removed == Some(name) {
            rest.push((ValidationErrorKind::MissingUpstream, name))
        } else if named_turns_off(g, name) {
            rest.push((ValidationErrorKind::UpstreamTurnsOff, name))
        } else {
            rest
        }
    }
}

pub open spec fn ups_view(ups: Seq<(String, DependencyType)>) -> Seq<(Seq<char>, DependencyType)> {
    ups.map_values(|u: (String, DependencyType)| (u.0@, u.1))
}

pub open spec fn errors_view(errs: Seq<ValidationError>) -> Seq<(ValidationErrorKind, Seq<char>)> {
    errs.map_values(|e: ValidationError| (e.kind, e.upstream@))
}

/// Check the upstreams of a new task: each must exist, and must not be a short task
/// whose started action is `TurnOff`.
pub fn validate_new_task(g: &TaskGraph, upstream: &Vec<(String, DependencyType)>) -> (r: Vec<ValidationError>)
    requires
        g.wf(),
        names_unique(*g),
    ensures
        errors_view(r@) == validation_errors(*g, ups_view(upstream@), None),
{
    let mut errors: Vec<ValidationError> = Vec::new();
    let mut k: usize = 0;
    while k < upstream.len()
        invariant
            g.wf(),
            names_unique(*g),
            k <= upstream@.len(),
            errors_view(errors@) == validation_errors(*g, ups_view(upstream@.subrange(0, k as int)), None),
        decreases upstream@.len() - k,
    {
        let ghost e0 = errors@;
        let name = &upstream[k].0;
        proof {
            assert(ups_view(upstream@.subrange(0, k + 1)).drop_last() =~= ups_view(upstream@.subrange(0, k as int)));
            assert(ups_view(upstream@.subrange(0, k + 1)).last() == (name@, upstream@[k as int].1));
        }
        match find_task(g, name) {
            None => {
                errors.push(ValidationError { kind: ValidationErrorKind::MissingUpstream, upstream: name.clone() });
                proof {
                    assert(errors_view(errors@) =~= errors_view(e0).push((ValidationErrorKind::MissingUpstream, name@)));
                }
            },
            Some(i) => {
                proof {
                    let c = choose|c: int| g.valid(c) && #[trigger] g.nodes@[c].id@ == name@;
                    assert(c == i as int);
                }
                let turns_off = match g.nodes[i].kind {
                    TaskKind::Short { started_action: Some(ShortTaskStartedAction::TurnOff), .. } => true,
                    _ => false,
                };
                if turns_off {
                    errors.push(ValidationError { kind: ValidationErrorKind::UpstreamTurnsOff, upstream: name.clone() });
                    proof {
                        assert(errors_view(errors@) =~= errors_view(e0).push((ValidationErrorKind::UpstreamTurnsOff, name@)));
                    }
                }
            },
        }
        k = k + 1;
    }
    proof {
        assert(upstream@.subrange(0, upstream@.len() as int) =~= upstream@);
    }
    errors
}

/// Removing the task named `name` from `g0` gives the problems computed as if it
/// were not there.
pub proof fn lemma_validation_after_remove(
    g0: TaskGraph,
    g1: TaskGraph,
    i: int,
    ups: Seq<(Seq<char>, DependencyType)>,
)
    requires
        g0.wf(),
        names_unique(g0),
        g0.valid(i),
        g1.nodes@ == g0.nodes@,
        g1.present@ == g0.present@.update(i, false),
    ensures
        validation_errors(g1, ups, None) == validation_errors(g0, ups, Some(g0.nodes@[i].id@)),
    decreases ups.len(),
{
    if ups.len() > 0 {
        lemma_validation_after_remove(g0, g1, i, ups.drop_last());
        let name = ups.last().0;
        let excl = g0.nodes@[i].id@;
        assert(has_name(g1, name) == (has_name(g0, name) && name != excl)) by {
            if has_name(g1, name) {
                let j = choose|j: int| g1.valid(j) && #[trigger] g1.nodes@[j].id@ == name;
                assert(g0.valid(j));
                assert(j != i);
            }
            if has_name(g0, name) && name != excl {
                let j = choose|j: int| g0.valid(j) && #[trigger] g0.nodes@[j].id@ == name;
                assert(j != i);
                assert(g1.valid(j));
            }
        }
        if has_name(g1, name) {
            let j1 = choose|j: int| g1.valid(j) && #[trigger] g1.nodes@[j].id@ == name;
            let j0 = choose|j: int| g0.valid(j) && #[trigger] g0.nodes@[j].id@ == name;
            assert(g0.valid(j1));
            assert(j0 == j1);
            assert(named_turns_off(g1, name) == named_turns_off(g0, name));
        }
    }
}

/// No problems means every upstream name is known.
pub proof fn lemma_no_errors_all_known(g: TaskGraph, ups: Seq<(Seq<char>, DependencyType)>, removed: Option<Seq<char>>)
    requires
        validation_errors(g, ups, removed).len() == 0,
    ensures
        forall|k: int| 0 <= k < ups.len() ==> has_name(g, #[trigger] ups[k].0) && removed != Some(ups[k].0),
    decreases ups.len(),
{
    if ups.len() > 0 {
        let rest = validation_errors(g, ups.drop_last(), removed);
        assert(validation_errors(g, ups, removed).len() >= rest.len());
        lemma_no_errors_all_known(g, ups.drop_last(), removed);
        assert forall|k: int| 0 <= k < ups.len() implies has_name(g, #[trigger] ups[k].0) && removed != Some(ups[k].0) by {
            if k < ups.len() - 1 {
                assert(ups.drop_last()[k] == ups[k]);
            }
        }
    }
}

/// Resolve the names of a new task's upstreams to task indices; `None` if one is
/// missing.
pub fn resolve_upstream(g: &TaskGraph, upstream: &Vec<(String, DependencyType)>) -> (r: Option<Vec<(usize, DependencyType)>>)
    requires
        g.wf(),
        names_unique(*g),
    ensures
        r is None <==> exists|k: int| 0 <= k < upstream@.len() && !has_name(*g, #[trigger] upstream@[k].0@),
        r matches Some(v) ==> v@.len() == upstream@.len() && forall|k: int|
            0 <= k < v@.len() ==> g.valid(#[trigger] v@[k].0 as int) && g.nodes@[v@[k].0 as int].id@
                == upstream@[k].0@ && v@[k].1 == upstream@[k].1,
{
    let mut out: Vec<(usize, DependencyType)> = Vec::new();
    let mut k: usize = 0;
    while k < upstream.len()
        invariant
            g.wf(),
            names_unique(*g),
            k <= upstream@.len(),
            out@.len() == k,
            forall|j: int| 0 <= j < k ==> has_name(*g, #[trigger] upstream@[j].0@),
            forall|j: int|
                0 <= j < k ==> g.valid(#[trigger] out@[j].0 as int) && g.nodes@[out@[j].0 as int].id@ == upstream@[j].0@
                    && out@[j].1 == upstream@[j].1,
        decreases upstream@.len() - k,
    {
        match find_task(g, &upstream[k].0) {
            None => {
                return None;
            },
            Some(i) => {
                out.push((i, upstream[k].1));
            },
        }
        k = k + 1;
    }
    Some(out)
}

/// Add a task to the graph, off and stopped, with `awueo` computed from its weak
/// upstreams.  Returns its index.
pub fn build_task_noschedule(
    g: &mut TaskGraph,
    id: String,
    kind: TaskKind,
    upstream: Vec<(usize, DependencyType)>,
    delete_when_stopped: bool,
) -> (r: usize)
    requires
        old(g).wf(),
        old(g).n() < usize::MAX,
        forall|k: int| 0 <= k < upstream@.len() ==> old(g).valid(#[trigger] upstream@[k].0 as int),
        forall|k1: int, k2: int|
            0 <= k1 < upstream@.len() && 0 <= k2 < upstream@.len() && k1 != k2 ==> #[trigger] upstream@[k1].0
                != #[trigger] upstream@[k2].0,
    ensures
        r == old(g).n(),
        final(g).wf(),
        final(g).n() == old(g).n() + 1,
        forall|j: int| 0 <= j < old(g).n() ==> #[trigger] final(g).nodes@[j] == old(g).nodes@[j],
        final(g).nodes@[r as int].id == id,
        final(g).kind(r as int) == kind,
        final(g).up(r as int) == upstream@,
        final(g).present@ == old(g).present@.push(true),
        final(g).direct_on@ == old(g).direct_on@.push(false),
        final(g).transitive_on@ == old(g).transitive_on@.push(false),
        final(g).awueo@ == old(g).awueo@.push(final(g).all_weak_up_eff(r as int)),
        final(g).actual@ == old(g).actual@.push(Actual::Stopped),
        final(g).delete_when_stopped@ == old(g).delete_when_stopped@.push(delete_when_stopped),
        old(g).control_ok() ==> final(g).control_ok(),
        names_unique(*old(g)) && !has_name(*old(g), id@) ==> names_unique(*final(g)),
{
    let ghost g0 = *g;
    let r = g.nodes.len();
    let mut all_on = true;
    let mut k: usize = 0;
    while k < upstream.len()
        invariant
            g.wf(),
            *g == g0,
            r == g.n(),
            k <= upstream@.len(),
            forall|j: int| 0 <= j < upstream@.len() ==> g.valid(#[trigger] upstream@[j].0 as int),
            all_on == forall|j: int|
                0 <= j < k && (#[trigger] upstream@[j]).1 == DependencyType::Weak ==> g.eff(upstream@[j].0 as int),
        decreases upstream@.len() - k,
    {
        let (u, t) = upstream[k];
        if t == DependencyType::Weak && !is_control_effective_on(g, u) {
            all_on = false;
        }
        k = k + 1;
    }
    g.nodes.push(TaskNode { id, kind, upstream });
    g.present.push(true);
    g.direct_on.push(false);
    g.transitive_on.push(false);
    g.awueo.push(all_on);
    g.actual.push(Actual::Stopped);
    g.delete_when_stopped.push(delete_when_stopped);
    proof {
        assert forall|j: int| 0 <= j < g0.n() implies #[trigger] g.nodes@[j] == g0.nodes@[j] by {}
        assert forall|i: int| 0 <= i < g0.n() implies #[trigger] g.up(i) == g0.up(i) by {
            assert(g.nodes@[i] == g0.nodes@[i]);
        }
        assert(g.wf()) by {
            assert forall|i: int, k: int| 0 <= i < g.n() && 0 <= k < g.up(i).len() implies (
            #[trigger] g.up(i)[k]).0 < i by {
                if i < g0.n() {
                    assert(g.up(i) == g0.up(i));
                }
            }
            assert forall|i: int, k: int| g.valid(i) && 0 <= k < g.up(i).len() implies g.present@[(
            #[trigger] g.up(i)[k]).0 as int] by {
                if i < g0.n() {
                    assert(g.up(i) == g0.up(i));
                }
            }
            assert forall|i: int, k1: int, k2: int|
                0 <= i < g.n() && 0 <= k1 < g.up(i).len() && 0 <= k2 < g.up(i).len() && k1 != k2 implies #[trigger] g.up(i)[k1].0
                    != #[trigger] g.up(i)[k2].0 by {
                if i < g0.n() {
                    assert(g.up(i) == g0.up(i));
                }
            }
        }
        assert(g.all_weak_up_eff(r as int) == all_on) by {
            assert forall|j: int| 0 <= j < upstream@.len() implies #[trigger] g.eff(upstream@[j].0 as int) == g0.eff(
                upstream@[j].0 as int,
            ) by {}
        }
        if g0.control_ok() {
            assert forall|i: int| g.valid(i) implies #[trigger] g.node_control_ok(i) by {
                if i == r {
                    assert(g.strong_down_on(i) == false) by {
                        if g.strong_down_on(i) {
                            let d = choose|d: int| g.valid(d) && #[trigger] g.is_up(d, i, DependencyType::Strong) && g.on(d);
                            let kk = choose|kk: int| 0 <= kk < g.up(d).len() && (#[trigger] g.up(d)[kk]).0 == i && g.up(d)[kk].1 == DependencyType::Strong;
                            assert(g.up(d)[kk].0 < d);
                        }
                    }
                } else {
                    assert(g0.node_control_ok(i));
                    assert(g.strong_down_on(i) == g0.strong_down_on(i)) by {
                        if g0.strong_down_on(i) {
                            let d = choose|d: int| g0.valid(d) && #[trigger] g0.is_up(d, i, DependencyType::Strong) && g0.on(d);
                            let kk = choose|kk: int| 0 <= kk < g0.up(d).len() && (#[trigger] g0.up(d)[kk]).0 == i && g0.up(d)[kk].1 == DependencyType::Strong;
                            assert(g.up(d)[kk] == g0.up(d)[kk]);
                            assert(g.is_up(d, i, DependencyType::Strong));
                        }
                        if g.strong_down_on(i) {
                            let d = choose|d: int| g.valid(d) && #[trigger] g.is_up(d, i, DependencyType::Strong) && g.on(d);
                            assert(d != r);
                            let kk = choose|kk: int| 0 <= kk < g.up(d).len() && (#[trigger] g.up(d)[kk]).0 == i && g.up(d)[kk].1 == DependencyType::Strong;
                            assert(g.up(d)[kk] == g0.up(d)[kk]);
                            assert(g0.is_up(d, i, DependencyType::Strong));
                        }
                    }
                    assert(g.all_weak_up_eff(i) == g0.all_weak_up_eff(i)) by {
                        assert forall|k: int| 0 <= k < g.up(i).len() implies #[trigger] g.up(i)[k] == g0.up(i)[k] && g0.up(i)[k].0 < i by {}
                    }
                }
            }
        }
        if names_unique(g0) && !has_name(g0, g.nodes@[r as int].id@) {
            assert forall|i: int, j: int| g.valid(i) && g.valid(j) && i != j implies #[trigger] g.nodes@[i].id@ != #[trigger] g.nodes@[j].id@ by {
                if i < g0.n() && j < g0.n() {
                    assert(g0.valid(i) && g0.valid(j));
                } else if i < g0.n() {
                    assert(g0.valid(i));
                    assert(g.nodes@[i] == g0.nodes@[i]);
                } else {
                    assert(g0.valid(j));
                    assert(g.nodes@[j] == g0.nodes@[j]);
                }
            }
        }
    }
    r
}

/// Remove task `i` from the graph.  It must have no present downstream task.  Removing
/// a task that is neither directly nor transitively on keeps the control state
/// consistent.
pub fn delete_task_immediate(g: &mut TaskGraph, i: usize)
    requires
        old(g).wf(),
        old(g).valid(i as int),
        old(g).no_down(i as int),
    ensures
        final(g).wf(),
        final(g).nodes@ == old(g).nodes@,
        final(g).present@ == old(g).present@.update(i as int, false),
        final(g).same_control(*old(g)),
        final(g).actual@ == old(g).actual@,
        final(g).delete_when_stopped@ == old(g).delete_when_stopped@,
        old(g).control_ok() && !old(g).on(i as int) ==> final(g).control_ok(),
        names_unique(*old(g)) ==> names_unique(*final(g)),
{
    let ghost g0 = *g;
    g.present.set(i, false);
    proof {
        g0.lemma_same_nodes_deps(*g);
        assert(g.wf()) by {
            assert forall|j: int, k: int| g.valid(j) && 0 <= k < g.up(j).len() implies g.present@[(
            #[trigger] g.up(j)[k]).0 as int] by {
                assert(j != i);
                assert(g0.valid(j));
                assert(g.up(j) == g0.up(j));
                assert(g0.present@[g0.up(j)[k].0 as int]);
                if g.up(j)[k].0 == i {
                    assert(g0.has_up(j, i as int));
                }
            }
            assert forall|j: int, k: int| 0 <= j < g.n() && 0 <= k < g.up(j).len() implies (
            #[trigger] g.up(j)[k]).0 < j by {
                assert(g.up(j) == g0.up(j));
            }
            assert forall|j: int, k1: int, k2: int|
                0 <= j < g.n() && 0 <= k1 < g.up(j).len() && 0 <= k2 < g.up(j).len() && k1 != k2 implies #[trigger] g.up(j)[k1].0
                    != #[trigger] g.up(j)[k2].0 by {
                assert(g.up(j) == g0.up(j));
            }
        }
        if g0.control_ok() && !g0.on(i as int) {
            assert forall|j: int| g.valid(j) implies #[trigger] g.node_control_ok(j) by {
                assert(g0.node_control_ok(j));
                assert(g.strong_down_on(j) == g0.strong_down_on(j)) by {
                    if g0.strong_down_on(j) {
                        let d = choose|d: int| g0.valid(d) && #[trigger] g0.is_up(d, j, DependencyType::Strong) && g0.on(d);
                        assert(d != i);
                        assert(g.is_up(d, j, DependencyType::Strong));
                    }
                    if g.strong_down_on(j) {
                        let d = choose|d: int| g.valid(d) && #[trigger] g.is_up(d, j, DependencyType::Strong) && g.on(d);
                        assert(g0.is_up(d, j, DependencyType::Strong));
                    }
                }
                assert(g.all_weak_up_eff(j) == g0.all_weak_up_eff(j)) by {
                    assert forall|k: int| 0 <= k < g.up(j).len() implies #[trigger] g.up(j)[k] == g0.up(j)[k] by {}
                }
            }
        }
    }
}

} // verus!
