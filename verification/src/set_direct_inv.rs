use vstd::prelude::*;
use crate::model::{DependencyType, TaskGraph};

verus! {

pub open spec fn in_first(f: Seq<(bool, usize)>, u: int) -> bool {
    exists|j: int| 0 <= j < f.len() && (#[trigger] f[j]).0 && f[j].1 == u
}

pub open spec fn in_second(f: Seq<(bool, usize)>, u: int) -> bool {
    exists|j: int| 0 <= j < f.len() && !(#[trigger] f[j]).0 && f[j].1 == u
}

/// `s` holds the id `i`.
pub open spec fn has_id(s: Seq<usize>, i: int) -> bool {
    exists|j: int| 0 <= j < s.len() && s[j] == i
}

pub proof fn lemma_in_pop(f: Seq<(bool, usize)>, e: (bool, usize))
    ensures
        forall|u: int| #[trigger] in_first(f.push(e), u) ==> in_first(f, u) || (e.0 && e.1 == u),
        forall|u: int| #[trigger] in_second(f.push(e), u) ==> in_second(f, u) || (!e.0 && e.1 == u),
{
    assert forall|u: int| #[trigger] in_first(f.push(e), u) implies in_first(f, u) || (e.0 && e.1 == u) by {
        let j = choose|j: int| 0 <= j < f.push(e).len() && (#[trigger] f.push(e)[j]).0 && f.push(e)[j].1 == u;
        if j < f.len() {
            assert(f[j] == f.push(e)[j]);
        }
    }
    assert forall|u: int| #[trigger] in_second(f.push(e), u) implies in_second(f, u) || (!e.0 && e.1 == u) by {
        let j = choose|j: int| 0 <= j < f.push(e).len() && !(#[trigger] f.push(e)[j]).0 && f.push(e)[j].1 == u;
        if j < f.len() {
            assert(f[j] == f.push(e)[j]);
        }
    }
}

pub proof fn lemma_in_prefix(f1: Seq<(bool, usize)>, f2: Seq<(bool, usize)>)
    requires
        f2.len() >= f1.len(),
        f2.subrange(0, f1.len() as int) == f1,
    ensures
        forall|u: int| #[trigger] in_first(f1, u) ==> in_first(f2, u),
        forall|u: int| #[trigger] in_second(f1, u) ==> in_second(f2, u),
{
    assert forall|u: int| #[trigger] in_first(f1, u) implies in_first(f2, u) by {
        let j = choose|j: int| 0 <= j < f1.len() && (#[trigger] f1[j]).0 && f1[j].1 == u;
        assert(f2[j] == f2.subrange(0, f1.len() as int)[j]);
    }
    assert forall|u: int| #[trigger] in_second(f1, u) implies in_second(f2, u) by {
        let j = choose|j: int| 0 <= j < f1.len() && !(#[trigger] f1[j]).0 && f1[j].1 == u;
        assert(f2[j] == f2.subrange(0, f1.len() as int)[j]);
    }
}

/// `f2` is `fm` followed by a second-pass entry for `u` and first-pass entries for
/// exactly the strong upstreams of `u`.
pub open spec fn ascended(g: TaskGraph, fm: Seq<(bool, usize)>, f2: Seq<(bool, usize)>, u: int) -> bool {
    &&& f2.len() >= fm.len() + 1
    &&& f2.subrange(0, fm.len() as int) == fm
    &&& !f2[fm.len() as int].0
    &&& f2[fm.len() as int].1 == u
    &&& forall|j: int|
        fm.len() < j < f2.len() ==> (#[trigger] f2[j]).0 && g.is_up(u, f2[j].1 as int, DependencyType::Strong)
    &&& forall|p: int| #[trigger] g.is_up(u, p, DependencyType::Strong) ==> in_first(f2, p)
}

pub proof fn lemma_ascended_members(g: TaskGraph, fm: Seq<(bool, usize)>, f2: Seq<(bool, usize)>, u: int)
    requires
        ascended(g, fm, f2, u),
    ensures
        forall|v: int| #[trigger] in_first(fm, v) ==> in_first(f2, v),
        forall|v: int| #[trigger] in_second(fm, v) ==> in_second(f2, v),
        in_second(f2, u),
        forall|v: int| #[trigger] in_first(f2, v) ==> in_first(fm, v) || g.is_up(u, v, DependencyType::Strong),
{
    lemma_in_prefix(fm, f2);
    assert(!f2[fm.len() as int].0 && f2[fm.len() as int].1 == u);
    assert forall|v: int| #[trigger] in_first(f2, v) implies in_first(fm, v) || g.is_up(
        u,
        v,
        DependencyType::Strong,
    ) by {
        let j = choose|j: int| 0 <= j < f2.len() && (#[trigger] f2[j]).0 && f2[j].1 == v;
        if j < fm.len() {
            assert(fm[j] == f2.subrange(0, fm.len() as int)[j]);
        }
    }
}

// Invariants while turning on (`want_on` true).
/// Every strong upstream of an on task is transitive on, or still to be visited.
pub open spec fn tc_on(g: TaskGraph, f: Seq<(bool, usize)>) -> bool {
    forall|x: int, k: int|
        g.valid(x) && 0 <= k < g.up(x).len() && (#[trigger] g.up(x)[k]).1 == DependencyType::Strong
            && g.on(x) ==> g.transitive_on@[g.up(x)[k].0 as int] || in_first(f, g.up(x)[k].0 as int)
}

/// Every transitive-on task has an on strong downstream.
pub open spec fn ts_on(g: TaskGraph) -> bool {
    forall|i: int| g.valid(i) && #[trigger] g.transitive_on@[i] ==> g.strong_down_on(i)
}

/// Every pending first-pass entry has an on strong downstream.
pub open spec fn fj_on(g: TaskGraph, f: Seq<(bool, usize)>) -> bool {
    forall|j: int| 0 <= j < f.len() && (#[trigger] f[j]).0 ==> g.strong_down_on(f[j].1 as int)
}

/// `awueo` only where every weak upstream is effectively on.
pub open spec fn as_on(g: TaskGraph) -> bool {
    forall|i: int| g.valid(i) && #[trigger] g.awueo@[i] ==> g.all_weak_up_eff(i)
}

/// A task whose weak upstreams are all effectively on but lacks `awueo` is queued,
/// or has a weak upstream whose second pass is pending.
pub open spec fn ac_on(g: TaskGraph, f: Seq<(bool, usize)>, dq: Seq<usize>) -> bool {
    forall|i: int|
        g.valid(i) && g.all_weak_up_eff(i) && !#[trigger] g.awueo@[i] ==> has_id(dq, i) || exists|
            k: int,
        |
            0 <= k < g.up(i).len() && (#[trigger] g.up(i)[k]).1 == DependencyType::Weak && in_second(
                f,
                g.up(i)[k].0 as int,
            )
}

// Invariants while turning off (`want_on` false).
/// Every strong upstream of an on task is transitive on.
pub open spec fn tc_off(g: TaskGraph) -> bool {
    forall|x: int, k: int|
        g.valid(x) && 0 <= k < g.up(x).len() && (#[trigger] g.up(x)[k]).1 == DependencyType::Strong
            && g.on(x) ==> g.transitive_on@[g.up(x)[k].0 as int]
}

/// A transitive-on task without on strong downstream is still to be visited.
pub open spec fn ts_off(g: TaskGraph, f: Seq<(bool, usize)>) -> bool {
    forall|i: int| g.valid(i) && #[trigger] g.transitive_on@[i] && !g.strong_down_on(i) ==> in_first(f, i)
}

/// `awueo` wherever every weak upstream is effectively on.
pub open spec fn ac_off(g: TaskGraph) -> bool {
    forall|i: int| g.valid(i) && g.all_weak_up_eff(i) ==> #[trigger] g.awueo@[i]
}

/// `i` has a weak upstream that is not effectively on.
pub open spec fn has_weak_off(g: TaskGraph, i: int) -> bool {
    exists|k: int|
        0 <= k < g.up(i).len() && (#[trigger] g.up(i)[k]).1 == DependencyType::Weak && !g.eff(
            g.up(i)[k].0 as int,
        )
}

/// A task with `awueo` but a weak upstream that is not effectively on is queued, or
/// has such a weak upstream whose second pass is pending.
pub open spec fn as_off(g: TaskGraph, f: Seq<(bool, usize)>, dq: Seq<usize>) -> bool {
    forall|i: int|
        g.valid(i) && #[trigger] g.awueo@[i] && !g.all_weak_up_eff(i) ==> has_id(dq, i) || exists|
            k: int,
        |
            0 <= k < g.up(i).len() && (#[trigger] g.up(i)[k]).1 == DependencyType::Weak && !g.eff(
                g.up(i)[k].0 as int,
            ) && in_second(f, g.up(i)[k].0 as int)
}

/// Every queued task has a weak upstream that is not effectively on.
pub open spec fn dq_off(g: TaskGraph, dq: Seq<usize>) -> bool {
    forall|j: int| 0 <= j < dq.len() ==> has_weak_off(g, #[trigger] dq[j] as int)
}

/// Every queued task is present.
pub open spec fn dq_valid(g: TaskGraph, dq: Seq<usize>) -> bool {
    forall|j: int| 0 <= j < dq.len() ==> g.valid(#[trigger] dq[j] as int)
}

pub open spec fn ctl_inv(g: TaskGraph, f: Seq<(bool, usize)>, dq: Seq<usize>, w: bool) -> bool {
    dq_valid(g, dq) && if w {
        &&& tc_on(g, f)
        &&& ts_on(g)
        &&& fj_on(g, f)
        &&& as_on(g)
        &&& ac_on(g, f, dq)
    } else {
        &&& tc_off(g)
        &&& ts_off(g, f)
        &&& ac_off(g)
        &&& as_off(g, f, dq)
        &&& dq_off(g, dq)
    }
}


/// Ordering facts: pending first-pass entries are strictly below the root, and the
/// root and tasks above it keep their transitive state.
pub open spec fn order_inv(g: TaskGraph, g0: TaskGraph, f: Seq<(bool, usize)>, root: int) -> bool {
    &&& forall|j: int| 0 <= j < f.len() && (#[trigger] f[j]).0 ==> f[j].1 < root
    &&& forall|j: int| 0 <= j < f.len() ==> (#[trigger] f[j]).1 <= root
    &&& forall|i: int| root <= i < g.n() ==> #[trigger] g.transitive_on@[i] == g0.transitive_on@[i]
}

pub proof fn lemma_ctl_final(g: TaskGraph, w: bool)
    requires
        g.wf(),
        ctl_inv(g, Seq::empty(), Seq::empty(), w),
    ensures
        g.control_ok(),
{
    assert forall|i: int| g.valid(i) implies #[trigger] g.node_control_ok(i) by {
        if g.strong_down_on(i) {
            let d = choose|d: int| g.valid(d) && #[trigger] g.is_up(d, i, DependencyType::Strong) && g.on(d);
            let k = choose|k: int|
                0 <= k < g.up(d).len() && (#[trigger] g.up(d)[k]).0 == i && g.up(d)[k].1
                    == DependencyType::Strong;
            assert(g.up(d)[k].1 == DependencyType::Strong);
        }
        if !w {
            if g.awueo@[i] && !g.all_weak_up_eff(i) {
                assert(!has_id(Seq::<usize>::empty(), i));
            }
        } else {
            if g.all_weak_up_eff(i) && !g.awueo@[i] {
                assert(!has_id(Seq::<usize>::empty(), i));
            }
        }
    }
}


/// The control state before the traversal starts: `root`'s direct flag was just set.
pub proof fn lemma_ctl_start(g0: TaskGraph, g1: TaskGraph, f1: Seq<(bool, usize)>, root: int, w: bool)
    requires
        g0.wf(),
        g0.control_ok(),
        g0.valid(root),
        g1.wf(),
        g1.nodes@ == g0.nodes@,
        g1.present@ == g0.present@,
        g1.direct_on@ == g0.direct_on@.update(root, w),
        g1.transitive_on@ == g0.transitive_on@,
        g1.awueo@ == g0.awueo@,
        g0.on(root) == w ==> f1 == Seq::<(bool, usize)>::empty(),
        g0.on(root) != w ==> ascended(g1, Seq::empty(), f1, root),
    ensures
        ctl_inv(g1, f1, Seq::empty(), w),
        order_inv(g1, g1, f1, root),
{
    let e = Seq::<usize>::empty();
    g0.lemma_same_nodes_deps(g1);
    assert forall|i: int| 0 <= i < g0.n() && i != root implies g1.on(i) == g0.on(i) && g1.eff(i) == g0.eff(
        i,
    ) by {}
    assert forall|i: int| g0.valid(i) implies g0.node_control_ok(i) by {}
    if g0.on(root) != w {
        lemma_ascended_members(g1, Seq::empty(), f1, root);
        assert forall|j: int| 0 <= j < f1.len() && (#[trigger] f1[j]).0 implies f1[j].1 < root by {
            let p = f1[j].1 as int;
            assert(g1.is_up(root, p, DependencyType::Strong));
            let k = choose|k: int|
                0 <= k < g1.up(root).len() && (#[trigger] g1.up(root)[k]).0 == p && g1.up(root)[k].1
                    == DependencyType::Strong;
            assert(g1.up(root)[k].0 < root);
        }
        assert forall|j: int| 0 <= j < f1.len() implies (#[trigger] f1[j]).1 <= root by {
            if j > 0 {
                let p = f1[j].1 as int;
                let k = choose|k: int|
                    0 <= k < g1.up(root).len() && (#[trigger] g1.up(root)[k]).0 == p && g1.up(root)[k].1
                        == DependencyType::Strong;
                assert(g1.up(root)[k].0 < root);
            }
        }
    }
    if w {
        // turning on: on and eff only grow
        assert forall|i: int| 0 <= i < g0.n() && g0.on(i) implies g1.on(i) by {}
        assert forall|i: int| 0 <= i < g0.n() && g0.eff(i) implies g1.eff(i) by {}
        assert(tc_on(g1, f1)) by {
            assert forall|x: int, k: int|
                g1.valid(x) && 0 <= k < g1.up(x).len() && (#[trigger] g1.up(x)[k]).1
                    == DependencyType::Strong && g1.on(x) implies g1.transitive_on@[g1.up(x)[k].0 as int]
                || in_first(f1, g1.up(x)[k].0 as int) by {
                let u = g1.up(x)[k].0 as int;
                assert(g1.is_up(x, u, DependencyType::Strong));
                if x == root && g0.on(root) != w {
                } else {
                    assert(g0.on(x));
                    assert(g0.valid(u));
                    assert(g0.node_control_ok(u));
                    assert(g0.is_up(x, u, DependencyType::Strong));
                }
            }
        }
        assert(ts_on(g1)) by {
            assert forall|i: int| g1.valid(i) && #[trigger] g1.transitive_on@[i] implies g1.strong_down_on(i) by {
                assert(g0.node_control_ok(i));
                let d = choose|d: int|
                    g0.valid(d) && #[trigger] g0.is_up(d, i, DependencyType::Strong) && g0.on(d);
                assert(g1.is_up(d, i, DependencyType::Strong));
            }
        }
        assert(fj_on(g1, f1)) by {
            assert forall|j: int| 0 <= j < f1.len() && (#[trigger] f1[j]).0 implies g1.strong_down_on(
                f1[j].1 as int,
            ) by {
                assert(g1.is_up(root, f1[j].1 as int, DependencyType::Strong));
            }
        }
        assert(as_on(g1)) by {
            assert forall|i: int| g1.valid(i) && #[trigger] g1.awueo@[i] implies g1.all_weak_up_eff(i) by {
                assert(g0.node_control_ok(i));
                assert forall|k: int|
                    0 <= k < g1.up(i).len() && (#[trigger] g1.up(i)[k]).1 == DependencyType::Weak implies g1.eff(
                    g1.up(i)[k].0 as int,
                ) by {
                    assert(g0.up(i)[k] == g1.up(i)[k]);
                    assert(g1.up(i)[k].0 < i);
                }
            }
        }
        assert(ac_on(g1, f1, e)) by {
            assert forall|i: int|
                g1.valid(i) && g1.all_weak_up_eff(i) && !#[trigger] g1.awueo@[i] implies has_id(e, i)
                || exists|k: int|
                0 <= k < g1.up(i).len() && (#[trigger] g1.up(i)[k]).1 == DependencyType::Weak && in_second(
                    f1,
                    g1.up(i)[k].0 as int,
                ) by {
                assert(g0.node_control_ok(i));
                assert(!g0.all_weak_up_eff(i));
                let k = choose|k: int|
                    0 <= k < g0.up(i).len() && (#[trigger] g0.up(i)[k]).1 == DependencyType::Weak && !g0.eff(
                        g0.up(i)[k].0 as int,
                    );
                assert(g1.up(i)[k].0 < i);
                assert(g1.eff(g1.up(i)[k].0 as int));
            }
        }
    } else {
        assert forall|i: int| 0 <= i < g0.n() && g1.on(i) implies g0.on(i) by {}
        assert forall|i: int| 0 <= i < g0.n() && g1.eff(i) implies g0.eff(i) by {}
        assert(tc_off(g1)) by {
            assert forall|x: int, k: int|
                g1.valid(x) && 0 <= k < g1.up(x).len() && (#[trigger] g1.up(x)[k]).1
                    == DependencyType::Strong && g1.on(x) implies g1.transitive_on@[g1.up(
                x,
            )[k].0 as int] by {
                let u = g1.up(x)[k].0 as int;
                assert(g0.on(x));
                assert(g0.valid(u));
                assert(g0.node_control_ok(u));
                assert(g0.is_up(x, u, DependencyType::Strong));
            }
        }
        assert(ts_off(g1, f1)) by {
            assert forall|i: int|
                g1.valid(i) && #[trigger] g1.transitive_on@[i] && !g1.strong_down_on(i) implies in_first(
                f1,
                i,
            ) by {
                assert(g0.node_control_ok(i));
                let d = choose|d: int|
                    g0.valid(d) && #[trigger] g0.is_up(d, i, DependencyType::Strong) && g0.on(d);
                assert(g1.is_up(d, i, DependencyType::Strong));
                assert(d == root);
            }
        }
        assert(ac_off(g1)) by {
            assert forall|i: int| g1.valid(i) && g1.all_weak_up_eff(i) implies #[trigger] g1.awueo@[i] by {
                assert(g0.node_control_ok(i));
                assert forall|k: int|
                    0 <= k < g0.up(i).len() && (#[trigger] g0.up(i)[k]).1 == DependencyType::Weak implies g0.eff(
                    g0.up(i)[k].0 as int,
                ) by {
                    assert(g1.up(i)[k] == g0.up(i)[k]);
                    assert(g1.up(i)[k].0 < i);
                }
            }
        }
        assert(as_off(g1, f1, e)) by {
            assert forall|i: int|
                g1.valid(i) && #[trigger] g1.awueo@[i] && !g1.all_weak_up_eff(i) implies has_id(e, i) || exists|k: int|
                0 <= k < g1.up(i).len() && (#[trigger] g1.up(i)[k]).1 == DependencyType::Weak && !g1.eff(
                    g1.up(i)[k].0 as int,
                ) && in_second(f1, g1.up(i)[k].0 as int) by {
                assert(g0.node_control_ok(i));
                let k = choose|k: int|
                    0 <= k < g1.up(i).len() && (#[trigger] g1.up(i)[k]).1 == DependencyType::Weak && !g1.eff(
                        g1.up(i)[k].0 as int,
                    );
                assert(g1.up(i)[k].0 < i);
                assert(g0.eff(g0.up(i)[k].0 as int));
            }
        }
    }
}


/// The control invariants only read the structure and the control state.
pub proof fn lemma_ctl_frame(g: TaskGraph, g2: TaskGraph, f: Seq<(bool, usize)>, dq: Seq<usize>, w: bool)
    requires
        g.nodes@ == g2.nodes@,
        g.present@ == g2.present@,
        g.direct_on@ == g2.direct_on@,
        g.transitive_on@ == g2.transitive_on@,
        g.awueo@ == g2.awueo@,
        ctl_inv(g, f, dq, w),
    ensures
        ctl_inv(g2, f, dq, w),
{
    g.lemma_same_nodes_deps(g2);
    assert forall|i: int| #[trigger] g2.strong_down_on(i) == g.strong_down_on(i) by {
        if g.strong_down_on(i) {
            let d = choose|d: int| g.valid(d) && #[trigger] g.is_up(d, i, DependencyType::Strong) && g.on(d);
            assert(g2.is_up(d, i, DependencyType::Strong));
        }
        if g2.strong_down_on(i) {
            let d = choose|d: int| g2.valid(d) && #[trigger] g2.is_up(d, i, DependencyType::Strong) && g2.on(d);
            assert(g.is_up(d, i, DependencyType::Strong));
        }
    }
    assert forall|i: int| #[trigger] g2.all_weak_up_eff(i) == g.all_weak_up_eff(i) by {
        assert(g.up(i) == g2.up(i));
    }
    assert forall|i: int| #[trigger] has_weak_off(g2, i) == has_weak_off(g, i) by {
        assert(g.up(i) == g2.up(i));
        if has_weak_off(g, i) {
            let k = choose|k: int|
                0 <= k < g.up(i).len() && (#[trigger] g.up(i)[k]).1 == DependencyType::Weak && !g.eff(
                    g.up(i)[k].0 as int,
                );
            assert(g2.up(i)[k] == g.up(i)[k]);
        }
        if has_weak_off(g2, i) {
            let k = choose|k: int|
                0 <= k < g2.up(i).len() && (#[trigger] g2.up(i)[k]).1 == DependencyType::Weak && !g2.eff(
                    g2.up(i)[k].0 as int,
                );
            assert(g2.up(i)[k] == g.up(i)[k]);
        }
    }
    if w {
        assert forall|x: int, k: int|
            g2.valid(x) && 0 <= k < g2.up(x).len() && (#[trigger] g2.up(x)[k]).1 == DependencyType::Strong
                && g2.on(x) implies g2.transitive_on@[g2.up(x)[k].0 as int] || in_first(f, g2.up(x)[k].0 as int) by {
            assert(g.up(x)[k] == g2.up(x)[k]);
        }
        assert forall|i: int|
            g2.valid(i) && g2.all_weak_up_eff(i) && !#[trigger] g2.awueo@[i] implies has_id(dq, i) || exists|
                k: int,
            |
                0 <= k < g2.up(i).len() && (#[trigger] g2.up(i)[k]).1 == DependencyType::Weak && in_second(
                    f,
                    g2.up(i)[k].0 as int,
                ) by {
            if !has_id(dq, i) {
                let k = choose|k: int|
                    0 <= k < g.up(i).len() && (#[trigger] g.up(i)[k]).1 == DependencyType::Weak && in_second(
                        f,
                        g.up(i)[k].0 as int,
                    );
                assert(g2.up(i)[k] == g.up(i)[k]);
            }
        }
    } else {
        assert forall|x: int, k: int|
            g2.valid(x) && 0 <= k < g2.up(x).len() && (#[trigger] g2.up(x)[k]).1 == DependencyType::Strong
                && g2.on(x) implies g2.transitive_on@[g2.up(x)[k].0 as int] by {
            assert(g.up(x)[k] == g2.up(x)[k]);
        }
        assert forall|i: int|
            g2.valid(i) && #[trigger] g2.awueo@[i] && !g2.all_weak_up_eff(i) implies has_id(dq, i) || exists|
                k: int,
            |
                0 <= k < g2.up(i).len() && (#[trigger] g2.up(i)[k]).1 == DependencyType::Weak && !g2.eff(
                    g2.up(i)[k].0 as int,
                ) && in_second(f, g2.up(i)[k].0 as int) by {
            if !has_id(dq, i) {
                let k = choose|k: int|
                    0 <= k < g.up(i).len() && (#[trigger] g.up(i)[k]).1 == DependencyType::Weak && !g.eff(
                        g.up(i)[k].0 as int,
                    ) && in_second(f, g.up(i)[k].0 as int);
                assert(g2.up(i)[k] == g.up(i)[k]);
            }
        }
    }
}

/// First pass of a strong upstream `u` while turning on: `u` becomes transitive on.
pub proof fn lemma_first_on(
    g: TaskGraph,
    g2: TaskGraph,
    g0: TaskGraph,
    fm: Seq<(bool, usize)>,
    f2: Seq<(bool, usize)>,
    uu: usize,
    root: int,
)
    requires
        g.wf(),
        g2.wf(),
        g.valid(uu as int),
        ctl_inv(g, fm.push((true, uu)), Seq::empty(), true),
        order_inv(g, g0, fm.push((true, uu)), root),
        g2.nodes@ == g.nodes@,
        g2.present@ == g.present@,
        g2.direct_on@ == g.direct_on@,
        g2.awueo@ == g.awueo@,
        g2.transitive_on@ == g.transitive_on@.update(uu as int, true),
        g.on(uu as int) ==> f2 == fm,
        !g.on(uu as int) ==> ascended(g2, fm, f2, uu as int),
    ensures
        ctl_inv(g2, f2, Seq::empty(), true),
        order_inv(g2, g0, f2, root),
{
    let u = uu as int;
    let f = fm.push((true, uu));
    let e = Seq::<usize>::empty();
    g.lemma_same_nodes_deps(g2);
    lemma_in_pop(fm, (true, uu));
    assert(f[f.len() - 1] == (true, uu));
    assert(g.strong_down_on(u));
    assert(u < root);
    if !g.on(u) {
        lemma_ascended_members(g2, fm, f2, u);
    }
    assert forall|i: int| 0 <= i < g.n() && g.on(i) implies g2.on(i) by {}
    assert forall|i: int| 0 <= i < g.n() && g.eff(i) implies g2.eff(i) by {}
    assert forall|i: int| g.strong_down_on(i) implies #[trigger] g2.strong_down_on(i) by {
        let d = choose|d: int| g.valid(d) && #[trigger] g.is_up(d, i, DependencyType::Strong) && g.on(d);
        assert(g2.is_up(d, i, DependencyType::Strong));
    }
    assert forall|i: int| g.valid(i) && g.all_weak_up_eff(i) implies #[trigger] g2.all_weak_up_eff(i) by {
        assert forall|k: int|
            0 <= k < g2.up(i).len() && (#[trigger] g2.up(i)[k]).1 == DependencyType::Weak implies g2.eff(
            g2.up(i)[k].0 as int,
        ) by {
            assert(g.up(i)[k] == g2.up(i)[k]);
            assert(g.eff(g.up(i)[k].0 as int));
        }
    }
    assert(tc_on(g2, f2)) by {
        assert forall|x: int, k: int|
            g2.valid(x) && 0 <= k < g2.up(x).len() && (#[trigger] g2.up(x)[k]).1 == DependencyType::Strong
                && g2.on(x) implies g2.transitive_on@[g2.up(x)[k].0 as int] || in_first(f2, g2.up(x)[k].0 as int) by {
            let p = g2.up(x)[k].0 as int;
            assert(g.up(x)[k] == g2.up(x)[k]);
            assert(g2.is_up(x, p, DependencyType::Strong));
            if x == u && !g.on(u) {
            } else {
                assert(g.on(x));
                if !g.transitive_on@[p] && p != u {
                    assert(in_first(f, p));
                    assert(in_first(fm, p));
                }
            }
        }
    }
    assert(ts_on(g2)) by {
        assert forall|i: int| g2.valid(i) && #[trigger] g2.transitive_on@[i] implies g2.strong_down_on(i) by {
            if i != u {
                assert(g.transitive_on@[i]);
            }
        }
    }
    assert(fj_on(g2, f2)) by {
        assert forall|j: int| 0 <= j < f2.len() && (#[trigger] f2[j]).0 implies g2.strong_down_on(f2[j].1 as int) by {
            if j < fm.len() {
                assert(f2[j] == fm[j]) by {
                    if !g.on(u) {
                        assert(f2.subrange(0, fm.len() as int)[j] == f2[j]);
                    }
                }
                assert(f[j] == fm[j]);
                assert(g.strong_down_on(f[j].1 as int));
            } else {
                assert(g2.is_up(u, f2[j].1 as int, DependencyType::Strong));
                assert(g2.on(u));
            }
        }
    }
    assert(as_on(g2)) by {
        assert forall|i: int| g2.valid(i) && #[trigger] g2.awueo@[i] implies g2.all_weak_up_eff(i) by {
            assert(g.awueo@[i]);
        }
    }
    assert(ac_on(g2, f2, e)) by {
        assert forall|i: int|
            g2.valid(i) && g2.all_weak_up_eff(i) && !#[trigger] g2.awueo@[i] implies has_id(e, i) || exists|
                k: int,
            |
                0 <= k < g2.up(i).len() && (#[trigger] g2.up(i)[k]).1 == DependencyType::Weak && in_second(
                    f2,
                    g2.up(i)[k].0 as int,
                ) by {
            if g.all_weak_up_eff(i) {
                let k = choose|k: int|
                    0 <= k < g.up(i).len() && (#[trigger] g.up(i)[k]).1 == DependencyType::Weak && in_second(
                        f,
                        g.up(i)[k].0 as int,
                    );
                assert(g2.up(i)[k] == g.up(i)[k]);
                assert(in_second(fm, g.up(i)[k].0 as int));
            } else {
                let k = choose|k: int|
                    0 <= k < g.up(i).len() && (#[trigger] g.up(i)[k]).1 == DependencyType::Weak && !g.eff(
                        g.up(i)[k].0 as int,
                    );
                assert(g2.up(i)[k] == g.up(i)[k]);
                assert(g2.eff(g2.up(i)[k].0 as int));
                assert(g2.up(i)[k].0 == u);
            }
        }
    }
    assert(order_inv(g2, g0, f2, root)) by {
        assert forall|j: int| 0 <= j < f2.len() && (#[trigger] f2[j]).0 implies f2[j].1 < root by {
            if j < fm.len() {
                if !g.on(u) {
                    assert(f2.subrange(0, fm.len() as int)[j] == f2[j]);
                }
                assert(f[j] == fm[j]);
            } else {
                let p = f2[j].1 as int;
                assert(g2.is_up(u, p, DependencyType::Strong));
                let k = choose|k: int| 0 <= k < g2.up(u).len() && (#[trigger] g2.up(u)[k]).0 == p && g2.up(u)[k].1 == DependencyType::Strong;
                assert(g2.up(u)[k].0 < u);
            }
        }
        assert forall|j: int| 0 <= j < f2.len() implies (#[trigger] f2[j]).1 <= root by {
            if j < fm.len() {
                if !g.on(u) {
                    assert(f2.subrange(0, fm.len() as int)[j] == f2[j]);
                }
                assert(f[j] == fm[j]);
            } else if j > fm.len() {
                let p = f2[j].1 as int;
                assert(g2.is_up(u, p, DependencyType::Strong));
                let k = choose|k: int| 0 <= k < g2.up(u).len() && (#[trigger] g2.up(u)[k]).0 == p && g2.up(u)[k].1 == DependencyType::Strong;
                assert(g2.up(u)[k].0 < u);
            }
        }
    }
}


/// First pass of a strong upstream `u` while turning off.  If a strong downstream of
/// `u` is still on nothing changes; otherwise `u` loses `transitive_on`.
pub proof fn lemma_first_off(
    g: TaskGraph,
    g2: TaskGraph,
    g0: TaskGraph,
    fm: Seq<(bool, usize)>,
    f2: Seq<(bool, usize)>,
    uu: usize,
    root: int,
)
    requires
        g.wf(),
        g2.wf(),
        g.valid(uu as int),
        ctl_inv(g, fm.push((true, uu)), Seq::empty(), false),
        order_inv(g, g0, fm.push((true, uu)), root),
        g2.nodes@ == g.nodes@,
        g2.present@ == g.present@,
        g2.direct_on@ == g.direct_on@,
        g2.awueo@ == g.awueo@,
        !g.all_strong_down_off(uu as int) ==> g2.transitive_on@ == g.transitive_on@ && f2 == fm,
        g.all_strong_down_off(uu as int) ==> g2.transitive_on@ == g.transitive_on@.update(uu as int, false),
        g.all_strong_down_off(uu as int) && !g.on(uu as int) ==> f2 == fm,
        g.all_strong_down_off(uu as int) && g.on(uu as int) ==> ascended(g2, fm, f2, uu as int),
    ensures
        ctl_inv(g2, f2, Seq::empty(), false),
        order_inv(g2, g0, f2, root),
{
    let u = uu as int;
    let f = fm.push((true, uu));
    let e = Seq::<usize>::empty();
    g.lemma_same_nodes_deps(g2);
    lemma_in_pop(fm, (true, uu));
    assert(f[f.len() - 1] == (true, uu));
    assert(u < root);
    let changed = g.all_strong_down_off(u) && g.on(u);
    if changed {
        lemma_ascended_members(g2, fm, f2, u);
    }
    assert forall|i: int| 0 <= i < g.n() && g2.on(i) implies g.on(i) by {}
    assert forall|i: int| 0 <= i < g.n() && g2.eff(i) implies g.eff(i) by {}
    assert forall|i: int| 0 <= i < g.n() && i != u implies g2.on(i) == g.on(i) && g2.eff(i) == g.eff(i) by {}
    if !changed {
        assert forall|i: int| 0 <= i < g.n() implies g2.on(i) == g.on(i) && g2.eff(i) == g.eff(i) by {}
    }
    assert(tc_off(g2)) by {
        assert forall|x: int, k: int|
            g2.valid(x) && 0 <= k < g2.up(x).len() && (#[trigger] g2.up(x)[k]).1 == DependencyType::Strong
                && g2.on(x) implies g2.transitive_on@[g2.up(x)[k].0 as int] by {
            let p = g2.up(x)[k].0 as int;
            assert(g.up(x)[k] == g2.up(x)[k]);
            assert(g.on(x));
            assert(g.is_up(x, p, DependencyType::Strong));
            if p == u && g.all_strong_down_off(u) {
                assert(!g.on(x));
            }
        }
    }
    assert(ts_off(g2, f2)) by {
        assert forall|i: int|
            g2.valid(i) && #[trigger] g2.transitive_on@[i] && !g2.strong_down_on(i) implies in_first(f2, i) by {
            if !g.all_strong_down_off(u) && i == u {
                let d = choose|d: int| g.valid(d) && #[trigger] g.is_up(d, u, DependencyType::Strong) && g.on(d);
                assert(g2.is_up(d, u, DependencyType::Strong));
                assert(false);
            }
            assert(g.transitive_on@[i]);
            if !g.strong_down_on(i) {
                assert(in_first(f, i));
                assert(in_first(fm, i));
            } else {
                let d = choose|d: int| g.valid(d) && #[trigger] g.is_up(d, i, DependencyType::Strong) && g.on(d);
                assert(g2.is_up(d, i, DependencyType::Strong));
                assert(!g2.on(d));
                assert(d == u);
                assert(changed);
            }
        }
    }
    assert(ac_off(g2)) by {
        assert forall|i: int| g2.valid(i) && g2.all_weak_up_eff(i) implies #[trigger] g2.awueo@[i] by {
            assert forall|k: int|
                0 <= k < g.up(i).len() && (#[trigger] g.up(i)[k]).1 == DependencyType::Weak implies g.eff(
                g.up(i)[k].0 as int,
            ) by {
                assert(g.up(i)[k] == g2.up(i)[k]);
                assert(g2.eff(g2.up(i)[k].0 as int));
                assert(g2.up(i)[k].0 < i);
            }
        }
    }
    assert(as_off(g2, f2, e)) by {
        assert forall|i: int|
            g2.valid(i) && #[trigger] g2.awueo@[i] && !g2.all_weak_up_eff(i) implies has_id(e, i) || exists|
                k: int,
            |
                0 <= k < g2.up(i).len() && (#[trigger] g2.up(i)[k]).1 == DependencyType::Weak && !g2.eff(
                    g2.up(i)[k].0 as int,
                ) && in_second(f2, g2.up(i)[k].0 as int) by {
            let k = choose|k: int|
                0 <= k < g2.up(i).len() && (#[trigger] g2.up(i)[k]).1 == DependencyType::Weak && !g2.eff(
                    g2.up(i)[k].0 as int,
                );
            assert(g.up(i)[k] == g2.up(i)[k]);
            assert(g2.up(i)[k].0 < i);
            let y = g2.up(i)[k].0 as int;
            if g.eff(y) {
                assert(y == u);
                assert(changed);
            } else {
                assert(!g.all_weak_up_eff(i));
                let k2 = choose|k2: int|
                    0 <= k2 < g.up(i).len() && (#[trigger] g.up(i)[k2]).1 == DependencyType::Weak && !g.eff(
                        g.up(i)[k2].0 as int,
                    ) && in_second(f, g.up(i)[k2].0 as int);
                assert(g.up(i)[k2] == g2.up(i)[k2]);
                assert(g2.up(i)[k2].0 < i);
                assert(in_second(fm, g.up(i)[k2].0 as int));
            }
        }
    }
    assert(order_inv(g2, g0, f2, root)) by {
        assert forall|j: int| 0 <= j < f2.len() && (#[trigger] f2[j]).0 implies f2[j].1 < root by {
            if j < fm.len() {
                if changed {
                    assert(f2.subrange(0, fm.len() as int)[j] == f2[j]);
                }
                assert(f[j] == fm[j]);
            } else {
                let p = f2[j].1 as int;
                assert(g2.is_up(u, p, DependencyType::Strong));
                let k = choose|k: int| 0 <= k < g2.up(u).len() && (#[trigger] g2.up(u)[k]).0 == p && g2.up(u)[k].1 == DependencyType::Strong;
                assert(g2.up(u)[k].0 < u);
            }
        }
        assert forall|j: int| 0 <= j < f2.len() implies (#[trigger] f2[j]).1 <= root by {
            if j < fm.len() {
                if changed {
                    assert(f2.subrange(0, fm.len() as int)[j] == f2[j]);
                }
                assert(f[j] == fm[j]);
            } else if j > fm.len() {
                let p = f2[j].1 as int;
                assert(g2.is_up(u, p, DependencyType::Strong));
                let k = choose|k: int| 0 <= k < g2.up(u).len() && (#[trigger] g2.up(u)[k]).0 == p && g2.up(u)[k].1 == DependencyType::Strong;
                assert(g2.up(u)[k].0 < u);
            }
        }
    }
}

/// Second pass of `x`: its weak downstreams are queued when its effective state is
/// the wanted one.
pub proof fn lemma_enter_inner(
    g: TaskGraph,
    g0: TaskGraph,
    fm: Seq<(bool, usize)>,
    xx: usize,
    dq: Seq<usize>,
    root: int,
    w: bool,
)
    requires
        g.wf(),
        g.valid(xx as int),
        ctl_inv(g, fm.push((false, xx)), Seq::empty(), w),
        order_inv(g, g0, fm.push((false, xx)), root),
        g.eff(xx as int) != w ==> dq == Seq::<usize>::empty(),
        g.eff(xx as int) == w ==> forall|d: int|
            g.valid(d) && g.is_up(d, xx as int, DependencyType::Weak) ==> has_id(dq, d),
        g.eff(xx as int) == w ==> forall|j: int|
            0 <= j < dq.len() ==> g.valid(#[trigger] dq[j] as int) && g.is_up(
                dq[j] as int,
                xx as int,
                DependencyType::Weak,
            ),
    ensures
        ctl_inv(g, fm, dq, w),
        order_inv(g, g0, fm, root),
{
    let x = xx as int;
    let f = fm.push((false, xx));
    lemma_in_pop(fm, (false, xx));
    assert forall|j: int| 0 <= j < fm.len() implies #[trigger] fm[j] == f[j] by {}
    if w {
        assert(ac_on(g, fm, dq)) by {
            assert forall|i: int|
                g.valid(i) && g.all_weak_up_eff(i) && !#[trigger] g.awueo@[i] implies has_id(dq, i) || exists|
                    k: int,
                |
                    0 <= k < g.up(i).len() && (#[trigger] g.up(i)[k]).1 == DependencyType::Weak && in_second(
                        fm,
                        g.up(i)[k].0 as int,
                    ) by {
                let k = choose|k: int|
                    0 <= k < g.up(i).len() && (#[trigger] g.up(i)[k]).1 == DependencyType::Weak && in_second(
                        f,
                        g.up(i)[k].0 as int,
                    );
                if !in_second(fm, g.up(i)[k].0 as int) {
                    assert(g.up(i)[k].0 == x);
                    assert(g.eff(x));
                    assert(g.is_up(i, x, DependencyType::Weak));
                }
            }
        }
        assert(tc_on(g, fm));
    } else {
        assert(as_off(g, fm, dq)) by {
            assert forall|i: int|
                g.valid(i) && #[trigger] g.awueo@[i] && !g.all_weak_up_eff(i) implies has_id(dq, i) || exists|
                    k: int,
                |
                    0 <= k < g.up(i).len() && (#[trigger] g.up(i)[k]).1 == DependencyType::Weak && !g.eff(
                        g.up(i)[k].0 as int,
                    ) && in_second(fm, g.up(i)[k].0 as int) by {
                let k = choose|k: int|
                    0 <= k < g.up(i).len() && (#[trigger] g.up(i)[k]).1 == DependencyType::Weak && !g.eff(
                        g.up(i)[k].0 as int,
                    ) && in_second(f, g.up(i)[k].0 as int);
                if !in_second(fm, g.up(i)[k].0 as int) {
                    assert(g.up(i)[k].0 == x);
                    assert(g.is_up(i, x, DependencyType::Weak));
                }
            }
        }
        assert(dq_off(g, dq)) by {
            assert forall|j: int| 0 <= j < dq.len() implies has_weak_off(g, #[trigger] dq[j] as int) by {
                let d = dq[j] as int;
                assert(g.is_up(d, x, DependencyType::Weak));
                let k = choose|k: int| 0 <= k < g.up(d).len() && (#[trigger] g.up(d)[k]).0 == x && g.up(d)[k].1 == DependencyType::Weak;
                assert(!g.eff(g.up(d)[k].0 as int));
            }
        }
    }
}


/// Popping a queued task that needs no change.
pub proof fn lemma_inner_skip(g: TaskGraph, fm: Seq<(bool, usize)>, dqm: Seq<usize>, dd: usize, w: bool)
    requires
        g.wf(),
        g.valid(dd as int),
        ctl_inv(g, fm, dqm.push(dd), w),
        g.awueo@[dd as int] == w || (w && !g.all_weak_up_eff(dd as int)),
    ensures
        ctl_inv(g, fm, dqm, w),
{
    let dq = dqm.push(dd);
    assert(dq_valid(g, dqm)) by {
        assert forall|j: int| 0 <= j < dqm.len() implies g.valid(#[trigger] dqm[j] as int) by {
            assert(dq[j] == dqm[j]);
        }
    }
    assert forall|i: int| #[trigger] has_id(dq, i) && i != dd implies has_id(dqm, i) by {
        let j = choose|j: int| 0 <= j < dq.len() && dq[j] == i;
        assert(dq[j] == dqm[j]);
    }
    if w {
        assert(ac_on(g, fm, dqm)) by {
            assert forall|i: int|
                g.valid(i) && g.all_weak_up_eff(i) && !#[trigger] g.awueo@[i] implies has_id(dqm, i) || exists|
                    k: int,
                |
                    0 <= k < g.up(i).len() && (#[trigger] g.up(i)[k]).1 == DependencyType::Weak && in_second(
                        fm,
                        g.up(i)[k].0 as int,
                    ) by {
                if i == dd as int {
                    assert(false);
                }
            }
        }
    } else {
        assert(as_off(g, fm, dqm)) by {
            assert forall|i: int|
                g.valid(i) && #[trigger] g.awueo@[i] && !g.all_weak_up_eff(i) implies has_id(dqm, i) || exists|
                    k: int,
                |
                    0 <= k < g.up(i).len() && (#[trigger] g.up(i)[k]).1 == DependencyType::Weak && !g.eff(
                        g.up(i)[k].0 as int,
                    ) && in_second(fm, g.up(i)[k].0 as int) by {
                if i == dd as int {
                    assert(false);
                }
            }
        }
        assert(dq_off(g, dqm)) by {
            assert forall|j: int| 0 <= j < dqm.len() implies has_weak_off(g, #[trigger] dqm[j] as int) by {
                assert(dq[j] == dqm[j]);
            }
        }
    }
}

/// Popping a queued task whose `awueo` is set to the wanted value; its weak
/// downstreams are queued.
#[verifier::rlimit(40)]
pub proof fn lemma_inner_set(
    g: TaskGraph,
    g2: TaskGraph,
    fm: Seq<(bool, usize)>,
    dqm: Seq<usize>,
    dq2: Seq<usize>,
    dd: usize,
    w: bool,
)
    requires
        g.wf(),
        g2.wf(),
        g.valid(dd as int),
        ctl_inv(g, fm, dqm.push(dd), w),
        g.awueo@[dd as int] != w,
        w ==> g.all_weak_up_eff(dd as int),
        g2.nodes@ == g.nodes@,
        g2.present@ == g.present@,
        g2.direct_on@ == g.direct_on@,
        g2.transitive_on@ == g.transitive_on@,
        g2.awueo@ == g.awueo@.update(dd as int, w),
        dq2.len() >= dqm.len(),
        dq2.subrange(0, dqm.len() as int) == dqm,
        forall|j: int|
            dqm.len() <= j < dq2.len() ==> g2.valid(#[trigger] dq2[j] as int) && g2.is_up(
                dq2[j] as int,
                dd as int,
                DependencyType::Weak,
            ),
        forall|e: int| g2.valid(e) && g2.is_up(e, dd as int, DependencyType::Weak) ==> has_id(dq2, e),
    ensures
        ctl_inv(g2, fm, dq2, w),
{
    let d = dd as int;
    let dq = dqm.push(dd);
    g.lemma_same_nodes_deps(g2);
    assert(dq[dq.len() - 1] == dd);
    assert(dq_valid(g2, dq2)) by {
        assert forall|j: int| 0 <= j < dq2.len() implies g2.valid(#[trigger] dq2[j] as int) by {
            if j < dqm.len() {
                assert(dq2[j] == dq2.subrange(0, dqm.len() as int)[j]);
                assert(dq[j] == dqm[j]);
            }
        }
    }
    assert forall|i: int| #[trigger] has_id(dq, i) && i != dd implies has_id(dq2, i) by {
        let j = choose|j: int| 0 <= j < dq.len() && dq[j] == i;
        assert(dq[j] == dqm[j]);
        assert(dq2[j] == dq2.subrange(0, dqm.len() as int)[j]);
    }
    assert forall|i: int| 0 <= i < g.n() && i != d implies g2.eff(i) == g.eff(i) by {}
    assert forall|i: int| 0 <= i < g.n() implies g2.on(i) == g.on(i) by {}
    assert forall|i: int| #[trigger] g2.strong_down_on(i) == g.strong_down_on(i) by {
        if g.strong_down_on(i) {
            let e = choose|e: int| g.valid(e) && #[trigger] g.is_up(e, i, DependencyType::Strong) && g.on(e);
            assert(g2.is_up(e, i, DependencyType::Strong));
        }
        if g2.strong_down_on(i) {
            let e = choose|e: int| g2.valid(e) && #[trigger] g2.is_up(e, i, DependencyType::Strong) && g2.on(e);
            assert(g.is_up(e, i, DependencyType::Strong));
        }
    }
    if w {
        assert forall|i: int| 0 <= i < g.n() && g.eff(i) implies g2.eff(i) by {}
        assert(tc_on(g2, fm)) by {
            assert forall|x: int, k: int|
                g2.valid(x) && 0 <= k < g2.up(x).len() && (#[trigger] g2.up(x)[k]).1 == DependencyType::Strong
                    && g2.on(x) implies g2.transitive_on@[g2.up(x)[k].0 as int] || in_first(fm, g2.up(x)[k].0 as int) by {
                assert(g.up(x)[k] == g2.up(x)[k]);
            }
        }
        assert(fj_on(g2, fm));
        assert(ts_on(g2));
        assert(as_on(g2)) by {
            assert forall|i: int| g2.valid(i) && #[trigger] g2.awueo@[i] implies g2.all_weak_up_eff(i) by {
                assert forall|k: int|
                    0 <= k < g2.up(i).len() && (#[trigger] g2.up(i)[k]).1 == DependencyType::Weak implies g2.eff(
                    g2.up(i)[k].0 as int,
                ) by {
                    assert(g.up(i)[k] == g2.up(i)[k]);
                    assert(g.up(i)[k].0 < i);
                    if i != d {
                        assert(g.awueo@[i]);
                    }
                }
            }
        }
        assert(ac_on(g2, fm, dq2)) by {
            assert forall|i: int|
                g2.valid(i) && g2.all_weak_up_eff(i) && !#[trigger] g2.awueo@[i] implies has_id(dq2, i) || exists|
                    k: int,
                |
                    0 <= k < g2.up(i).len() && (#[trigger] g2.up(i)[k]).1 == DependencyType::Weak && in_second(
                        fm,
                        g2.up(i)[k].0 as int,
                    ) by {
                assert(i != d);
                if g.all_weak_up_eff(i) {
                    assert(!g.awueo@[i]);
                    if !has_id(dq, i) {
                        let k = choose|k: int|
                            0 <= k < g.up(i).len() && (#[trigger] g.up(i)[k]).1 == DependencyType::Weak && in_second(
                                fm,
                                g.up(i)[k].0 as int,
                            );
                        assert(g2.up(i)[k] == g.up(i)[k]);
                    }
                } else {
                    let k = choose|k: int|
                        0 <= k < g.up(i).len() && (#[trigger] g.up(i)[k]).1 == DependencyType::Weak && !g.eff(
                            g.up(i)[k].0 as int,
                        );
                    assert(g2.up(i)[k] == g.up(i)[k]);
                    assert(g.up(i)[k].0 < i);
                    assert(g2.eff(g2.up(i)[k].0 as int));
                    assert(g2.up(i)[k].0 == d);
                    assert(g2.is_up(i, d, DependencyType::Weak));
                }
            }
        }
    } else {
        assert forall|i: int| 0 <= i < g.n() && g2.eff(i) implies g.eff(i) by {}
        assert(tc_off(g2)) by {
            assert forall|x: int, k: int|
                g2.valid(x) && 0 <= k < g2.up(x).len() && (#[trigger] g2.up(x)[k]).1 == DependencyType::Strong
                    && g2.on(x) implies g2.transitive_on@[g2.up(x)[k].0 as int] by {
                assert(g.up(x)[k] == g2.up(x)[k]);
            }
        }
        assert(ts_off(g2, fm));
        assert(has_weak_off(g, d));
        assert(ac_off(g2)) by {
            assert forall|i: int| g2.valid(i) && g2.all_weak_up_eff(i) implies #[trigger] g2.awueo@[i] by {
                if i == d {
                    let k = choose|k: int|
                        0 <= k < g.up(d).len() && (#[trigger] g.up(d)[k]).1 == DependencyType::Weak && !g.eff(
                            g.up(d)[k].0 as int,
                        );
                    assert(g2.up(d)[k] == g.up(d)[k]);
                    assert(g.up(d)[k].0 < d);
                    assert(!g2.eff(g2.up(d)[k].0 as int));
                } else {
                    assert forall|k: int|
                        0 <= k < g.up(i).len() && (#[trigger] g.up(i)[k]).1 == DependencyType::Weak implies g.eff(
                        g.up(i)[k].0 as int,
                    ) by {
                        assert(g.up(i)[k] == g2.up(i)[k]);
                        assert(g.up(i)[k].0 < i);
                        assert(g2.eff(g2.up(i)[k].0 as int));
                    }
                }
            }
        }
        assert(as_off(g2, fm, dq2)) by {
            assert forall|i: int|
                g2.valid(i) && #[trigger] g2.awueo@[i] && !g2.all_weak_up_eff(i) implies has_id(dq2, i) || exists|
                    k: int,
                |
                    0 <= k < g2.up(i).len() && (#[trigger] g2.up(i)[k]).1 == DependencyType::Weak && !g2.eff(
                        g2.up(i)[k].0 as int,
                    ) && in_second(fm, g2.up(i)[k].0 as int) by {
                assert(i != d);
                let k = choose|k: int|
                    0 <= k < g2.up(i).len() && (#[trigger] g2.up(i)[k]).1 == DependencyType::Weak && !g2.eff(
                        g2.up(i)[k].0 as int,
                    );
                assert(g.up(i)[k] == g2.up(i)[k]);
                assert(g.up(i)[k].0 < i);
                let y = g2.up(i)[k].0 as int;
                if g.eff(y) {
                    assert(y == d);
                    assert(g2.is_up(i, d, DependencyType::Weak));
                } else {
                    assert(!g.all_weak_up_eff(i));
                    assert(g.awueo@[i]);
                    if !has_id(dq, i) {
                        let k2 = choose|k2: int|
                            0 <= k2 < g.up(i).len() && (#[trigger] g.up(i)[k2]).1 == DependencyType::Weak && !g.eff(
                                g.up(i)[k2].0 as int,
                            ) && in_second(fm, g.up(i)[k2].0 as int);
                        assert(g.up(i)[k2] == g2.up(i)[k2]);
                        assert(g.up(i)[k2].0 < i);
                    }
                }
            }
        }
        assert(dq_off(g2, dq2)) by {
            assert forall|j: int| 0 <= j < dq2.len() implies has_weak_off(g2, #[trigger] dq2[j] as int) by {
                let e = dq2[j] as int;
                if j < dqm.len() {
                    assert(dq2[j] == dq2.subrange(0, dqm.len() as int)[j]);
                    assert(dq[j] == dqm[j]);
                    assert(has_weak_off(g, e));
                    let k = choose|k: int|
                        0 <= k < g.up(e).len() && (#[trigger] g.up(e)[k]).1 == DependencyType::Weak && !g.eff(
                            g.up(e)[k].0 as int,
                        );
                    assert(g2.up(e)[k] == g.up(e)[k]);
                    assert(g.up(e)[k].0 < e);
                } else {
                    assert(g2.is_up(e, d, DependencyType::Weak));
                    let k = choose|k: int| 0 <= k < g2.up(e).len() && (#[trigger] g2.up(e)[k]).0 == d && g2.up(e)[k].1 == DependencyType::Weak;
                    assert(!g2.eff(d));
                }
            }
        }
    }
}


pub proof fn lemma_ascended_from_push(g: TaskGraph, fm: Seq<(bool, usize)>, f2: Seq<(bool, usize)>, uu: usize)
    requires
        f2.len() >= fm.len() + 1,
        f2.subrange(0, fm.len() + 1 as int) == fm.push((false, uu)),
        forall|j: int|
            fm.len() + 1 <= j < f2.len() ==> (#[trigger] f2[j]).0 && g.is_up(
                uu as int,
                f2[j].1 as int,
                DependencyType::Strong,
            ),
        forall|p: int| g.is_up(uu as int, p, DependencyType::Strong) ==> in_first(f2, p),
    ensures
        ascended(g, fm, f2, uu as int),
{
    assert(f2.subrange(0, fm.len() as int) =~= fm) by {
        assert forall|j: int| 0 <= j < fm.len() implies f2.subrange(0, fm.len() as int)[j] == fm[j] by {
            assert(f2.subrange(0, fm.len() + 1 as int)[j] == f2[j]);
            assert(fm.push((false, uu))[j] == fm[j]);
        }
    }
    assert(f2[fm.len() as int] == f2.subrange(0, fm.len() + 1 as int)[fm.len() as int]);
}

} // verus!
