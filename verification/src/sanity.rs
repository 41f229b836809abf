use vstd::prelude::*;
use crate::model::{Actual, DependencyType, TaskGraph};
use crate::plan::{ExecutePlan, PlanView};
use crate::task_util::{
    are_all_downstream_tasks_stopped, are_all_strong_downstream_direct_or_transitive_off,
    are_all_weak_upstream_effective_on, is_actual_all_upstream_tasks_started, is_control_effective_on,
};

verus! {

/// A broken constraint between the control state, the actual state and a plan.
#[derive(Clone, Copy, PartialEq, Eq, Structural, Debug)]
pub enum SanityError {
    /// `transitive_on` of the task is not what its strong downstreams give (`want`).
    TransitiveOnMismatch { task: usize, want: bool },
    /// `awueo` of the task is not what its weak upstreams give (`want`).
    AwueoMismatch { task: usize, want: bool },
    /// The task is on and every upstream is started, but it is not starting.
    OnNotStarting { task: usize },
    /// The task is off and no downstream is running, but it is not stopping.
    OffNotStopping { task: usize },
    /// Some upstream is not started, but the task is not stopping.
    UpstreamNotStartedNotStopping { task: usize },
}

/// After the plan, task `i` is (or may be) heading for started.
pub open spec fn heads_start(g: TaskGraph, p: PlanView, i: int) -> bool {
    match g.act(i) {
        Actual::Stopped => p.run[i],
        Actual::Started => !p.stop[i],
        _ => true,
    }
}

/// After the plan, task `i` is (or may be) heading for stopped.
pub open spec fn heads_stop(g: TaskGraph, p: PlanView, i: int) -> bool {
    match g.act(i) {
        Actual::Stopped => !p.run[i],
        Actual::Started => p.stop[i],
        _ => true,
    }
}

/// Every upstream of `i` is started and not about to be stopped by the plan.
pub open spec fn ups_started_after(g: TaskGraph, p: PlanView, i: int) -> bool {
    g.all_up_started(i) && forall|k: int| 0 <= k < g.up(i).len() ==> !p.stop[(#[trigger] g.up(i)[k]).0 as int]
}

/// The control-state errors of the present tasks before `n`, in index order: first
/// each `transitive_on` mismatch, then (in `awueo_errors`) each `awueo` mismatch.
pub open spec fn transitive_errors(g: TaskGraph, n: int) -> Seq<SanityError>
    decreases n,
{
    if n <= 0 {
        seq![]
    } else if g.valid(n - 1) && g.transitive_on@[n - 1] != g.strong_down_on(n - 1) {
        transitive_errors(g, n - 1).push(
            SanityError::TransitiveOnMismatch { task: (n - 1) as usize, want: g.strong_down_on(n - 1) },
        )
    } else {
        transitive_errors(g, n - 1)
    }
}

pub open spec fn awueo_errors(g: TaskGraph, n: int) -> Seq<SanityError>
    decreases n,
{
    if n <= 0 {
        seq![]
    } else if g.valid(n - 1) && g.awueo@[n - 1] != g.all_weak_up_eff(n - 1) {
        awueo_errors(g, n - 1).push(SanityError::AwueoMismatch { task: (n - 1) as usize, want: g.all_weak_up_eff(n - 1) })
    } else {
        awueo_errors(g, n - 1)
    }
}

/// The errors of task `i` about its actual state and the plan, in order.
pub open spec fn task_actual_errors(g: TaskGraph, p: PlanView, i: int) -> Seq<SanityError> {
    let ups = ups_started_after(g, p, i);
    let e1: Seq<SanityError> = if g.eff(i) && ups && !heads_start(g, p, i) {
        seq![SanityError::OnNotStarting { task: i as usize }]
    } else {
        seq![]
    };
    let e2: Seq<SanityError> = if !g.eff(i) && g.all_down_stopped(i) && !heads_stop(g, p, i) {
        seq![SanityError::OffNotStopping { task: i as usize }]
    } else {
        seq![]
    };
    let e3: Seq<SanityError> = if !ups && !heads_stop(g, p, i) {
        seq![SanityError::UpstreamNotStartedNotStopping { task: i as usize }]
    } else {
        seq![]
    };
    e1 + e2 + e3
}

pub open spec fn actual_errors(g: TaskGraph, p: PlanView, n: int) -> Seq<SanityError>
    decreases n,
{
    if n <= 0 {
        seq![]
    } else if g.valid(n - 1) {
        actual_errors(g, p, n - 1) + task_actual_errors(g, p, n - 1)
    } else {
        actual_errors(g, p, n - 1)
    }
}

/// All the errors, in the order `sanity_check` reports them.
pub open spec fn sanity_errors(g: TaskGraph, p: PlanView) -> Seq<SanityError> {
    transitive_errors(g, g.n()) + awueo_errors(g, g.n()) + actual_errors(g, p, g.n())
}

fn ups_started_after_plan(g: &TaskGraph, plan: &ExecutePlan, i: usize) -> (r: bool)
    requires
        g.wf(),
        plan@.wf(g.n()),
        i < g.n(),
    ensures
        r == ups_started_after(*g, plan@, i as int),
{
    let all = is_actual_all_upstream_tasks_started(g, i);
    let ups = &g.nodes[i].upstream;
    let mut none_stopping = true;
    let mut k: usize = 0;
    while k < ups.len()
        invariant
            g.wf(),
            plan@.wf(g.n()),
            i < g.n(),
            ups@ == g.up(i as int),
            k <= ups@.len(),
            none_stopping == forall|j: int| 0 <= j < k ==> !plan@.stop[(#[trigger] ups@[j]).0 as int],
        decreases ups@.len() - k,
    {
        proof {
            assert(g.up(i as int)[k as int].0 < i);
        }
        if plan.stop[ups[k].0] {
            none_stopping = false;
        }
        k = k + 1;
    }
    all && none_stopping
}

/// Check the constraints that the control logic keeps: `transitive_on` and `awueo`
/// agree with the neighbours of each task, and the actual state of each task, with
/// the plan applied, heads where its control state says.  Returns every broken
/// constraint (an empty list when all hold).
pub fn sanity_check(g: &TaskGraph, plan: &ExecutePlan) -> (r: Vec<SanityError>)
    requires
        g.wf(),
        plan@.wf(g.n()),
    ensures
        r@ == sanity_errors(*g, plan@),
{
    let n = g.nodes.len();
    let mut errors: Vec<SanityError> = Vec::new();
    let mut i: usize = 0;
    while i < n
        invariant
            g.wf(),
            n == g.n(),
            i <= n,
            errors@ == transitive_errors(*g, i as int),
        decreases n - i,
    {
        if g.present[i] {
            let want = !are_all_strong_downstream_direct_or_transitive_off(g, i);
            proof {
                assert(want == g.strong_down_on(i as int)) by {
                    if g.strong_down_on(i as int) {
                        let d = choose|d: int| g.valid(d) && #[trigger] g.is_up(d, i as int, DependencyType::Strong) && g.on(d);
                        assert(!g.all_strong_down_off(i as int));
                    }
                }
            }
            if g.transitive_on[i] != want {
                errors.push(SanityError::TransitiveOnMismatch { task: i, want });
            }
        }
        i = i + 1;
    }
    let ghost t = errors@;
    let mut i: usize = 0;
    while i < n
        invariant
            g.wf(),
            n == g.n(),
            i <= n,
            t == transitive_errors(*g, n as int),
            errors@ == t + awueo_errors(*g, i as int),
        decreases n - i,
    {
        if g.present[i] {
            let want = are_all_weak_upstream_effective_on(g, i);
            if g.awueo[i] != want {
                let ghost e0 = errors@;
                errors.push(SanityError::AwueoMismatch { task: i, want });
                proof {
                    assert(errors@ =~= t + awueo_errors(*g, i + 1));
                }
            }
        }
        i = i + 1;
    }
    let ghost ta = errors@;
    let mut i: usize = 0;
    while i < n
        invariant
            g.wf(),
            plan@.wf(g.n()),
            n == g.n(),
            i <= n,
            ta == transitive_errors(*g, n as int) + awueo_errors(*g, n as int),
            errors@ == ta + actual_errors(*g, plan@, i as int),
        decreases n - i,
    {
        if g.present[i] {
            let ghost e0 = errors@;
            let ups = ups_started_after_plan(g, plan, i);
            let eff = is_control_effective_on(g, i);
            let (start, stop) = match g.actual[i] {
                Actual::Stopped => (plan.run[i], !plan.run[i]),
                Actual::Started => (!plan.stop[i], plan.stop[i]),
                _ => (true, true),
            };
            if eff && ups && !start {
                errors.push(SanityError::OnNotStarting { task: i });
            }
            if !eff && are_all_downstream_tasks_stopped(g, i) && !stop {
                errors.push(SanityError::OffNotStopping { task: i });
            }
            if !ups && !stop {
                errors.push(SanityError::UpstreamNotStartedNotStopping { task: i });
            }
            proof {
                assert(errors@ =~= e0 + task_actual_errors(*g, plan@, i as int));
                assert(errors@ =~= ta + actual_errors(*g, plan@, i + 1));
            }
        }
        i = i + 1;
    }
    errors
}

proof fn lemma_transitive_errors_empty(g: TaskGraph, n: int)
    ensures
        transitive_errors(g, n).len() == 0 <==> forall|i: int|
            0 <= i < n && g.valid(i) ==> #[trigger] g.transitive_on@[i] == g.strong_down_on(i),
    decreases n,
{
    if n > 0 {
        lemma_transitive_errors_empty(g, n - 1);
        if transitive_errors(g, n).len() == 0 {
            assert forall|i: int| 0 <= i < n && g.valid(i) implies #[trigger] g.transitive_on@[i] == g.strong_down_on(i) by {
                if i < n - 1 {
                    assert(transitive_errors(g, n - 1).len() == 0);
                }
            }
        }
    }
}

proof fn lemma_awueo_errors_empty(g: TaskGraph, n: int)
    ensures
        awueo_errors(g, n).len() == 0 <==> forall|i: int|
            0 <= i < n && g.valid(i) ==> #[trigger] g.awueo@[i] == g.all_weak_up_eff(i),
    decreases n,
{
    if n > 0 {
        lemma_awueo_errors_empty(g, n - 1);
        if awueo_errors(g, n).len() == 0 {
            assert forall|i: int| 0 <= i < n && g.valid(i) implies #[trigger] g.awueo@[i] == g.all_weak_up_eff(i) by {
                if i < n - 1 {
                    assert(awueo_errors(g, n - 1).len() == 0);
                }
            }
        }
    }
}

/// `sanity_check` reports no control-state error exactly when the control state is
/// consistent (`control_ok`).
pub proof fn lemma_sanity_control_ok(g: TaskGraph, p: PlanView)
    requires
        g.wf(),
    ensures
        g.control_ok() <==> (forall|k: int|
            0 <= k < sanity_errors(g, p).len() ==> !(#[trigger] sanity_errors(g, p)[k] is TransitiveOnMismatch)
                && !(sanity_errors(g, p)[k] is AwueoMismatch)),
{
    lemma_transitive_errors_empty(g, g.n());
    lemma_awueo_errors_empty(g, g.n());
    lemma_actual_errors_kinds(g, p, g.n());
    let t = transitive_errors(g, g.n());
    let a = awueo_errors(g, g.n());
    let c = actual_errors(g, p, g.n());
    lemma_transitive_kinds(g, g.n());
    lemma_awueo_kinds(g, g.n());
    assert(sanity_errors(g, p) == t + a + c);
    if g.control_ok() {
        assert forall|i: int| 0 <= i < g.n() && g.valid(i) implies #[trigger] g.transitive_on@[i] == g.strong_down_on(i) by {
            assert(g.node_control_ok(i));
        }
        assert forall|i: int| 0 <= i < g.n() && g.valid(i) implies #[trigger] g.awueo@[i] == g.all_weak_up_eff(i) by {
            assert(g.node_control_ok(i));
        }
        assert forall|k: int| 0 <= k < sanity_errors(g, p).len() implies !(#[trigger] sanity_errors(g, p)[k] is TransitiveOnMismatch)
            && !(sanity_errors(g, p)[k] is AwueoMismatch) by {
            assert(sanity_errors(g, p)[k] == c[k - t.len() - a.len()]);
        }
    } else {
        let i = choose|i: int| g.valid(i) && !#[trigger] g.node_control_ok(i);
        if g.transitive_on@[i] != g.strong_down_on(i) {
            assert(t.len() > 0);
            assert(sanity_errors(g, p)[0] == t[0]);
        } else {
            assert(a.len() > 0);
            assert(sanity_errors(g, p)[t.len() as int] == a[0]);
        }
    }
}

proof fn lemma_transitive_kinds(g: TaskGraph, n: int)
    ensures
        forall|k: int| 0 <= k < transitive_errors(g, n).len() ==> #[trigger] transitive_errors(g, n)[k] is TransitiveOnMismatch,
    decreases n,
{
    if n > 0 {
        lemma_transitive_kinds(g, n - 1);
    }
}

proof fn lemma_awueo_kinds(g: TaskGraph, n: int)
    ensures
        forall|k: int| 0 <= k < awueo_errors(g, n).len() ==> #[trigger] awueo_errors(g, n)[k] is AwueoMismatch,
    decreases n,
{
    if n > 0 {
        lemma_awueo_kinds(g, n - 1);
    }
}

proof fn lemma_actual_errors_kinds(g: TaskGraph, p: PlanView, n: int)
    ensures
        forall|k: int|
            0 <= k < actual_errors(g, p, n).len() ==> !(#[trigger] actual_errors(g, p, n)[k] is TransitiveOnMismatch)
                && !(actual_errors(g, p, n)[k] is AwueoMismatch),
    decreases n,
{
    if n > 0 {
        lemma_actual_errors_kinds(g, p, n - 1);
        if g.valid(n - 1) {
            let prev = actual_errors(g, p, n - 1);
            let te = task_actual_errors(g, p, n - 1);
            assert forall|k: int| 0 <= k < actual_errors(g, p, n).len() implies !(#[trigger] actual_errors(g, p, n)[k] is TransitiveOnMismatch)
                && !(actual_errors(g, p, n)[k] is AwueoMismatch) by {
                if k >= prev.len() {
                    assert(actual_errors(g, p, n)[k] == te[k - prev.len()]);
                }
            }
        }
    }
}


/// Task `i`'s actual state and the plan keep the start and stop rules: on with every
/// upstream started (and staying so) means heading for started; off with every
/// downstream stopped means heading for stopped; an upstream not started means heading
/// for stopped.
pub open spec fn task_actual_ok(g: TaskGraph, p: PlanView, i: int) -> bool {
    &&& g.eff(i) && ups_started_after(g, p, i) ==> heads_start(g, p, i)
    &&& !g.eff(i) && g.all_down_stopped(i) ==> heads_stop(g, p, i)
    &&& !ups_started_after(g, p, i) ==> heads_stop(g, p, i)
}

/// Every present task keeps every rule that `sanity_check` checks.
pub open spec fn rules_hold(g: TaskGraph, p: PlanView) -> bool {
    &&& g.control_ok()
    &&& forall|i: int| #[trigger] g.valid(i) ==> task_actual_ok(g, p, i)
}

proof fn lemma_actual_errors_empty(g: TaskGraph, p: PlanView, n: int)
    ensures
        actual_errors(g, p, n).len() == 0 <==> forall|i: int|
            0 <= i < n && g.valid(i) ==> #[trigger] task_actual_ok(g, p, i),
    decreases n,
{
    if n > 0 {
        lemma_actual_errors_empty(g, p, n - 1);
        let i = n - 1;
        if g.valid(i) {
            assert(task_actual_errors(g, p, i).len() == 0 <==> task_actual_ok(g, p, i));
        }
        if actual_errors(g, p, n).len() == 0 {
            assert forall|j: int| 0 <= j < n && g.valid(j) implies #[trigger] task_actual_ok(g, p, j) by {
                if j < n - 1 {
                    assert(actual_errors(g, p, n - 1).len() == 0);
                }
            }
        }
    }
}

/// `sanity_check` reports nothing exactly when every present task keeps every rule:
/// the control state is consistent and each actual state heads where the control
/// state and the plan say.
pub proof fn lemma_sanity_empty(g: TaskGraph, p: PlanView)
    requires
        g.wf(),
    ensures
        sanity_errors(g, p).len() == 0 <==> rules_hold(g, p),
{
    lemma_transitive_errors_empty(g, g.n());
    lemma_awueo_errors_empty(g, g.n());
    lemma_actual_errors_empty(g, p, g.n());
    if rules_hold(g, p) {
        assert forall|i: int| 0 <= i < g.n() && g.valid(i) implies #[trigger] g.transitive_on@[i] == g.strong_down_on(i) by {
            assert(g.node_control_ok(i));
        }
        assert forall|i: int| 0 <= i < g.n() && g.valid(i) implies #[trigger] g.awueo@[i] == g.all_weak_up_eff(i) by {
            assert(g.node_control_ok(i));
        }
        assert forall|i: int| 0 <= i < g.n() && g.valid(i) implies #[trigger] task_actual_ok(g, p, i) by {}
    }
    if sanity_errors(g, p).len() == 0 {
        assert(transitive_errors(g, g.n()).len() == 0);
        assert(awueo_errors(g, g.n()).len() == 0);
        assert(actual_errors(g, p, g.n()).len() == 0);
        assert forall|i: int| g.valid(i) implies #[trigger] g.node_control_ok(i) by {
            assert(g.transitive_on@[i] == g.strong_down_on(i));
            assert(g.awueo@[i] == g.all_weak_up_eff(i));
        }
        assert forall|i: int| #[trigger] g.valid(i) implies task_actual_ok(g, p, i) by {}
    }
}

} // verus!
