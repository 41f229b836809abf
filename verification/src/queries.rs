use vstd::prelude::*;
use crate::graph_edit::{find_task, has_name, names_unique};
use crate::model::{Actual, DependencyType, TaskGraph};
use crate::requests::{index_of, lemma_index_of, RequestError};
use crate::task_util::{are_all_downstream_tasks_stopped, is_actual_all_upstream_tasks_started, is_control_effective_on};

verus! {

/// The names of the tasks at the indices `idx`, in that order.
pub open spec fn names_at(g: TaskGraph, idx: Seq<usize>) -> Seq<Seq<char>> {
    idx.map_values(|i: usize| g.nodes@[i as int].id@)
}

/// Task `i` is listed: present, and (with `user_on_only`) turned on by the user.
pub open spec fn listed(g: TaskGraph, user_on_only: bool, i: int) -> bool {
    g.present@[i] && (!user_on_only || g.direct_on@[i])
}

/// The indices in `0..n` of listed tasks, in increasing order.
pub open spec fn listed_indices(g: TaskGraph, user_on_only: bool, n: int) -> Seq<usize>
    decreases n,
{
    if n <= 0 {
        seq![]
    } else if listed(g, user_on_only, n - 1) {
        listed_indices(g, user_on_only, n - 1).push((n - 1) as usize)
    } else {
        listed_indices(g, user_on_only, n - 1)
    }
}

pub open spec fn strings_view(v: Seq<String>) -> Seq<Seq<char>> {
    v.map_values(|s: String| s@)
}

fn names_where(g: &TaskGraph, user_on_only: bool) -> (r: Vec<String>)
    requires
        g.wf(),
    ensures
        strings_view(r@) == names_at(*g, listed_indices(*g, user_on_only, g.n())),
{
    let n = g.nodes.len();
    let mut out: Vec<String> = Vec::new();
    let mut i: usize = 0;
    while i < n
        invariant
            g.wf(),
            n == g.n(),
            i <= n,
            strings_view(out@) == names_at(*g, listed_indices(*g, user_on_only, i as int)),
        decreases n - i,
    {
        let ghost o0 = out@;
        if g.present[i] && (!user_on_only || g.direct_on[i]) {
            let s = g.nodes[i].id.clone();
            out.push(s);
            proof {
                assert(listed_indices(*g, user_on_only, i + 1) == listed_indices(*g, user_on_only, i as int).push(i));
                assert(strings_view(out@) =~= strings_view(o0).push(s@));
                assert(names_at(*g, listed_indices(*g, user_on_only, i + 1)) =~= names_at(
                    *g,
                    listed_indices(*g, user_on_only, i as int),
                ).push(g.nodes@[i as int].id@));
            }
        }
        i = i + 1;
    }
    out
}

/// The names of all tasks, in index order.
pub fn list_tasks(g: &TaskGraph) -> (r: Vec<String>)
    requires
        g.wf(),
    ensures
        strings_view(r@) == names_at(*g, listed_indices(*g, false, g.n())),
{
    names_where(g, false)
}

/// The names of the tasks turned on by the user, in index order.
pub fn list_user_on(g: &TaskGraph) -> (r: Vec<String>)
    requires
        g.wf(),
    ensures
        strings_view(r@) == names_at(*g, listed_indices(*g, true, g.n())),
{
    names_where(g, true)
}

/// The control and actual state of a task.
pub struct TaskControlStatus {
    pub direct_on: bool,
    pub transitive_on: bool,
    pub effective_on: bool,
    pub actual: Actual,
}

/// The control and actual state of the task named `name`.
pub fn get_status(g: &TaskGraph, name: &String) -> (r: Result<TaskControlStatus, RequestError>)
    requires
        g.wf(),
        names_unique(*g),
    ensures
        r is Err <==> !has_name(*g, name@),
        r is Err ==> (r matches Err(RequestError::UnknownTask)),
        r matches Ok(s) ==> {
            let i = index_of(*g, name@);
            &&& s.direct_on == g.direct_on@[i]
            &&& s.transitive_on == g.transitive_on@[i]
            &&& s.effective_on == g.eff(i)
            &&& s.actual == g.act(i)
        },
{
    match find_task(g, name) {
        None => Err(RequestError::UnknownTask),
        Some(i) => {
            proof {
                lemma_index_of(*g, name@, i as int);
            }
            Ok(
                TaskControlStatus {
                    direct_on: g.direct_on[i],
                    transitive_on: g.transitive_on[i],
                    effective_on: is_control_effective_on(g, i),
                    actual: g.actual[i],
                },
            )
        },
    }
}

/// Whether a wait for the task named `name` to reach `target` can be answered at once
/// (`Ok(true)`) or must wait for the next change (`Ok(false)`).
pub fn wait_ready(g: &TaskGraph, name: &String, target: Actual) -> (r: Result<bool, RequestError>)
    requires
        g.wf(),
        names_unique(*g),
    ensures
        r is Err <==> !has_name(*g, name@),
        r is Err ==> (r matches Err(RequestError::UnknownTask)),
        r matches Ok(b) ==> b == (g.act(index_of(*g, name@)) == target),
{
    match find_task(g, name) {
        None => Err(RequestError::UnknownTask),
        Some(i) => {
            proof {
                lemma_index_of(*g, name@, i as int);
            }
            Ok(g.actual[i] == target)
        },
    }
}

/// The walk upward from `root` passes `z`: the root, and the tasks that are not
/// started, are passed through to their upstreams.
pub open spec fn start_walks(g: TaskGraph, root: int, z: int) -> bool {
    z == root || g.act(z) != Actual::Started
}

/// Going upward from `root`, through the root and through tasks that are not
/// started, reaches task `x`.
pub open spec fn start_path(g: TaskGraph, root: int, x: int) -> bool
    decreases root - x,
{
    x == root || (x < root && exists|z: int|
        x < z <= root && g.valid(z) && #[trigger] g.has_up(z, x) && start_walks(g, root, z) && start_path(
            g,
            root,
            z,
        ))
}

/// `start_path` through tasks at or after `lo` only.
pub open spec fn start_pending(g: TaskGraph, root: int, lo: int, x: int) -> bool {
    x == root || exists|z: int|
        lo <= z <= root && x < z && g.valid(z) && #[trigger] g.has_up(z, x) && start_walks(g, root, z)
            && start_path(g, root, z)
}

/// The leaf tasks that keep `root` from starting: going upward from `root` through
/// tasks that are not started, the tasks reached that are not started while every
/// upstream of theirs is started (`root` itself when it is not started and its
/// upstreams are).  In index order.
pub fn list_blocking_start(g: &TaskGraph, root: usize) -> (r: Vec<usize>)
    requires
        g.wf(),
        g.valid(root as int),
    ensures
        forall|k: int| 0 <= k < r@.len() ==> r@[k] < g.n(),
        forall|x: int|
            0 <= x < g.n() ==> (r@.contains(x as usize) <==> start_path(*g, root as int, x) && g.act(x)
                != Actual::Started && g.all_up_started(x)),
        forall|a: int, b: int| 0 <= a < b < r@.len() ==> r@[a] < r@[b],
{
    let n = g.nodes.len();
    let mut flags: Vec<bool> = Vec::new();
    let mut i: usize = 0;
    while i < n
        invariant
            i <= n,
            flags@.len() == i,
            forall|x: int| 0 <= x < i ==> flags@[x] == (x == root),
        decreases n - i,
    {
        flags.push(i == root);
        i = i + 1;
    }
    let mut y: usize = root + 1;
    while y > 0
        invariant
            g.wf(),
            n == g.n(),
            g.valid(root as int),
            y <= root + 1,
            flags@.len() == n,
            forall|x: int| 0 <= x < n ==> #[trigger] flags@[x] == start_pending(*g, root as int, y as int, x),
        decreases y,
    {
        y = y - 1;
        let ghost f0 = flags@;
        proof {
            assert(flags@[y as int] == start_path(*g, root as int, y as int)) by {
                if start_path(*g, root as int, y as int) && y != root {
                    let z = choose|z: int|
                        y < z <= root && g.valid(z) && #[trigger] g.has_up(z, y as int) && start_walks(*g, root as int, z)
                            && start_path(*g, root as int, z);
                    assert(start_pending(*g, root as int, y + 1, y as int));
                }
            }
        }
        if flags[y] && (y == root || g.actual[y] != Actual::Started) {
            proof {
                if y != root {
                    let z = choose|z: int|
                        y + 1 <= z <= root && y < z && g.valid(z) && #[trigger] g.has_up(z, y as int) && start_walks(
                            *g,
                            root as int,
                            z,
                        ) && start_path(*g, root as int, z);
                    assert(g.valid(y as int));
                }
            }
            let ups = &g.nodes[y].upstream;
            let mut k: usize = 0;
            while k < ups.len()
                invariant
                    g.wf(),
                    n == g.n(),
                    y < n,
                    y <= root,
                    g.valid(y as int),
                    start_walks(*g, root as int, y as int),
                    start_path(*g, root as int, y as int),
                    ups@ == g.up(y as int),
                    k <= ups@.len(),
                    flags@.len() == n,
                    forall|x: int|
                        0 <= x < n ==> #[trigger] flags@[x] == (f0[x] || exists|j: int|
                            0 <= j < k && (#[trigger] ups@[j]).0 == x),
                decreases ups@.len() - k,
            {
                let u = ups[k].0;
                proof {
                    assert(g.up(y as int)[k as int].0 < y);
                }
                flags.set(u, true);
                k = k + 1;
                proof {
                    assert forall|x: int| 0 <= x < n implies #[trigger] flags@[x] == (f0[x] || exists|j: int|
                        0 <= j < k && (#[trigger] ups@[j]).0 == x) by {
                        if x == u {
                            assert(ups@[k - 1].0 == x);
                        } else if exists|j: int| 0 <= j < k && (#[trigger] ups@[j]).0 == x {
                            let j = choose|j: int| 0 <= j < k && (#[trigger] ups@[j]).0 == x;
                            assert(j != k - 1);
                        }
                    }
                }
            }
            proof {
                assert forall|x: int| 0 <= x < n implies #[trigger] flags@[x] == start_pending(*g, root as int, y as int, x) by {
                    if exists|j: int| 0 <= j < ups@.len() && (#[trigger] ups@[j]).0 == x {
                        let j = choose|j: int| 0 <= j < ups@.len() && (#[trigger] ups@[j]).0 == x;
                        assert(g.up(y as int)[j].0 < y);
                        assert(g.has_up(y as int, x));
                    }
                    if start_pending(*g, root as int, y as int, x) && !start_pending(*g, root as int, y + 1, x) {
                        assert(g.has_up(y as int, x));
                        let j = choose|j: int| 0 <= j < g.up(y as int).len() && (#[trigger] g.up(y as int)[j]).0 == x;
                        assert(ups@[j].0 == x);
                    }
                }
            }
        } else {
            proof {
                assert forall|x: int| 0 <= x < n implies #[trigger] flags@[x] == start_pending(*g, root as int, y as int, x) by {
                    if start_pending(*g, root as int, y as int, x) && !start_pending(*g, root as int, y + 1, x) {
                        assert(start_path(*g, root as int, y as int));
                    }
                }
            }
        }
    }
    proof {
        assert forall|x: int| 0 <= x < n implies #[trigger] flags@[x] == start_path(*g, root as int, x) by {
            if start_path(*g, root as int, x) && x != root {
                let z = choose|z: int|
                    x < z <= root && g.valid(z) && #[trigger] g.has_up(z, x) && start_walks(*g, root as int, z)
                        && start_path(*g, root as int, z);
                assert(start_pending(*g, root as int, 0, x));
            }
        }
    }
    let mut out: Vec<usize> = Vec::new();
    let mut x: usize = 0;
    while x < n
        invariant
            g.wf(),
            n == g.n(),
            x <= n,
            flags@.len() == n,
            forall|j: int| 0 <= j < n ==> #[trigger] flags@[j] == start_path(*g, root as int, j),
            forall|k: int| 0 <= k < out@.len() ==> out@[k] < x,
            forall|j: int|
                0 <= j < x ==> (out@.contains(j as usize) <==> start_path(*g, root as int, j) && g.act(j)
                    != Actual::Started && g.all_up_started(j)),
            forall|a: int, b: int| 0 <= a < b < out@.len() ==> out@[a] < out@[b],
        decreases n - x,
    {
        let ghost o0 = out@;
        if flags[x] && g.actual[x] != Actual::Started && is_actual_all_upstream_tasks_started(g, x) {
            out.push(x);
            proof {
                assert(out@[out@.len() - 1] == x);
            }
        }
        proof {
            assert forall|j: int|
                0 <= j < x + 1 implies (out@.contains(j as usize) <==> start_path(*g, root as int, j) && g.act(j)
                    != Actual::Started && g.all_up_started(j)) by {
                if j < x {
                    if o0.contains(j as usize) {
                        let k = choose|k: int| 0 <= k < o0.len() && o0[k] == j as usize;
                        assert(out@[k] == o0[k]);
                    }
                    if out@.contains(j as usize) {
                        let k = choose|k: int| 0 <= k < out@.len() && out@[k] == j as usize;
                        if k < o0.len() {
                            assert(out@[k] == o0[k]);
                        }
                    }
                } else {
                    if out@.contains(j as usize) {
                        let k = choose|k: int| 0 <= k < out@.len() && out@[k] == j as usize;
                        if k < o0.len() {
                            assert(out@[k] == o0[k]);
                        }
                    }
                }
            }
        }
        x = x + 1;
    }
    out
}

/// The walk downward from `root` passes `z`: the root, and the tasks that are not
/// stopped, are passed through to their downstreams.
pub open spec fn stop_walks(g: TaskGraph, root: int, z: int) -> bool {
    z == root || g.act(z) != Actual::Stopped
}

/// Going downward from `root`, through the root and through tasks that are not
/// stopped, reaches task `x`.
pub open spec fn stop_path(g: TaskGraph, root: int, x: int) -> bool
    decreases x,
{
    x == root || (root < x && g.valid(x) && exists|k: int|
        0 <= k < g.up(x).len() && (#[trigger] g.up(x)[k]).0 < x && stop_walks(g, root, g.up(x)[k].0 as int)
            && stop_path(g, root, g.up(x)[k].0 as int))
}

/// `stop_path` through tasks before `hi` only.
pub open spec fn stop_pending(g: TaskGraph, root: int, hi: int, x: int) -> bool {
    x == root || (root < x && g.valid(x) && exists|k: int|
        0 <= k < g.up(x).len() && (#[trigger] g.up(x)[k]).0 < hi && g.up(x)[k].0 < x && stop_walks(
            g,
            root,
            g.up(x)[k].0 as int,
        ) && stop_path(g, root, g.up(x)[k].0 as int))
}

/// The leaf tasks that keep `root` from stopping: going downward from `root` through
/// tasks that are not stopped, the tasks reached that are not stopped while every
/// present downstream of theirs is stopped (`root` itself when it is not stopped and
/// its downstreams are).  In index order.
pub fn list_blocking_stop(g: &TaskGraph, root: usize) -> (r: Vec<usize>)
    requires
        g.wf(),
        g.valid(root as int),
    ensures
        forall|k: int| 0 <= k < r@.len() ==> r@[k] < g.n(),
        forall|x: int|
            0 <= x < g.n() ==> (r@.contains(x as usize) <==> stop_path(*g, root as int, x) && g.act(x)
                != Actual::Stopped && g.all_down_stopped(x)),
        forall|a: int, b: int| 0 <= a < b < r@.len() ==> r@[a] < r@[b],
{
    let n = g.nodes.len();
    let mut flags: Vec<bool> = Vec::new();
    let mut i: usize = 0;
    while i < n
        invariant
            i <= n,
            flags@.len() == i,
            forall|x: int| 0 <= x < i ==> flags@[x] == (x == root),
        decreases n - i,
    {
        flags.push(i == root);
        i = i + 1;
    }
    proof {
        assert forall|x: int| 0 <= x < n implies #[trigger] flags@[x] == stop_pending(*g, root as int, root as int, x) by {
            if stop_pending(*g, root as int, root as int, x) && x != root {
                let k = choose|k: int|
                    0 <= k < g.up(x).len() && (#[trigger] g.up(x)[k]).0 < root && g.up(x)[k].0 < x && stop_walks(
                        *g,
                        root as int,
                        g.up(x)[k].0 as int,
                    ) && stop_path(*g, root as int, g.up(x)[k].0 as int);
                lemma_stop_path_below(*g, root as int, g.up(x)[k].0 as int);
            }
        }
    }
    let mut d: usize = root;
    while d < n
        invariant
            g.wf(),
            n == g.n(),
            g.valid(root as int),
            root <= d <= n,
            flags@.len() == n,
            forall|x: int| 0 <= x < n && x < d ==> #[trigger] flags@[x] == stop_path(*g, root as int, x),
            forall|x: int| 0 <= x < n && d <= x ==> #[trigger] flags@[x] == stop_pending(*g, root as int, d as int, x),
        decreases n - d,
    {
        proof {
            assert(flags@[d as int] == stop_path(*g, root as int, d as int)) by {
                if stop_path(*g, root as int, d as int) && d != root {
                    let k = choose|k: int|
                        0 <= k < g.up(d as int).len() && (#[trigger] g.up(d as int)[k]).0 < d && stop_walks(
                            *g,
                            root as int,
                            g.up(d as int)[k].0 as int,
                        ) && stop_path(*g, root as int, g.up(d as int)[k].0 as int);
                    assert(stop_pending(*g, root as int, d as int, d as int));
                }
                if stop_pending(*g, root as int, d as int, d as int) && d != root {
                    let k = choose|k: int|
                        0 <= k < g.up(d as int).len() && (#[trigger] g.up(d as int)[k]).0 < d && g.up(d as int)[k].0
                            < d && stop_walks(*g, root as int, g.up(d as int)[k].0 as int) && stop_path(
                            *g,
                            root as int,
                            g.up(d as int)[k].0 as int,
                        );
                }
            }
        }
        let ghost f0 = flags@;
        let go = flags[d] && (d == root || g.actual[d] != Actual::Stopped);
        let mut e: usize = d + 1;
        while e < n
            invariant
                g.wf(),
                n == g.n(),
                root <= d < e <= n,
                flags@.len() == n,
                go == (f0[d as int] && stop_walks(*g, root as int, d as int)),
                f0[d as int] == stop_path(*g, root as int, d as int),
                forall|x: int| 0 <= x < n && x <= d ==> #[trigger] flags@[x] == f0[x],
                forall|x: int| 0 <= x < n && e <= x ==> #[trigger] flags@[x] == f0[x],
                forall|x: int| 0 <= x < n && d <= x ==> #[trigger] f0[x] == stop_pending(*g, root as int, d as int, x),
                forall|x: int|
                    d < x < e ==> #[trigger] flags@[x] == stop_pending(*g, root as int, d + 1, x),
            decreases n - e,
        {
            proof {
                assert(stop_pending(*g, root as int, d + 1, e as int) == (stop_pending(*g, root as int, d as int, e as int)
                    || (go && g.valid(e as int) && g.has_up(e as int, d as int)))) by {
                    if stop_pending(*g, root as int, d + 1, e as int) && !stop_pending(*g, root as int, d as int, e as int) {
                        let k = choose|k: int|
                            0 <= k < g.up(e as int).len() && (#[trigger] g.up(e as int)[k]).0 < d + 1 && g.up(e as int)[k].0
                                < e && stop_walks(*g, root as int, g.up(e as int)[k].0 as int) && stop_path(
                                *g,
                                root as int,
                                g.up(e as int)[k].0 as int,
                            );
                        assert(g.up(e as int)[k].0 == d);
                        assert(g.has_up(e as int, d as int));
                    }
                    if go && g.valid(e as int) && g.has_up(e as int, d as int) {
                        let k = choose|k: int| 0 <= k < g.up(e as int).len() && (#[trigger] g.up(e as int)[k]).0 == d;
                        assert(stop_pending(*g, root as int, d + 1, e as int));
                    }
                }
            }
            if go && g.present[e] && g.dep_type(e, d).is_some() {
                flags.set(e, true);
            }
            e = e + 1;
        }
        proof {
            assert forall|x: int| 0 <= x < n && x < d + 1 implies #[trigger] flags@[x] == stop_path(*g, root as int, x) by {}
        }
        d = d + 1;
    }
    let mut out: Vec<usize> = Vec::new();
    let mut x: usize = 0;
    while x < n
        invariant
            g.wf(),
            n == g.n(),
            x <= n,
            flags@.len() == n,
            forall|j: int| 0 <= j < n ==> #[trigger] flags@[j] == stop_path(*g, root as int, j),
            forall|k: int| 0 <= k < out@.len() ==> out@[k] < x,
            forall|j: int|
                0 <= j < x ==> (out@.contains(j as usize) <==> stop_path(*g, root as int, j) && g.act(j)
                    != Actual::Stopped && g.all_down_stopped(j)),
            forall|a: int, b: int| 0 <= a < b < out@.len() ==> out@[a] < out@[b],
        decreases n - x,
    {
        let ghost o0 = out@;
        if flags[x] && g.actual[x] != Actual::Stopped && are_all_downstream_tasks_stopped(g, x) {
            out.push(x);
            proof {
                assert(out@[out@.len() - 1] == x);
            }
        }
        proof {
            assert forall|j: int|
                0 <= j < x + 1 implies (out@.contains(j as usize) <==> stop_path(*g, root as int, j) && g.act(j)
                    != Actual::Stopped && g.all_down_stopped(j)) by {
                if o0.contains(j as usize) {
                    let k = choose|k: int| 0 <= k < o0.len() && o0[k] == j as usize;
                    assert(out@[k] == o0[k]);
                }
                if out@.contains(j as usize) {
                    let k = choose|k: int| 0 <= k < out@.len() && out@[k] == j as usize;
                    if k < o0.len() {
                        assert(out@[k] == o0[k]);
                    }
                }
            }
        }
        x = x + 1;
    }
    out
}

/// Nothing before `root` is reached going downward from it.
pub proof fn lemma_stop_path_below(g: TaskGraph, root: int, x: int)
    requires
        x < root,
    ensures
        !stop_path(g, root, x),
{
}

/// An upstream task in the tree listed by `list_upstream`.
pub struct TaskUpstreamStatus {
    pub effective_on: bool,
    pub actual: Actual,
    pub dependency_type: DependencyType,
    pub upstream: Vec<(String, TaskUpstreamStatus)>,
}

/// `v` lists the upstreams of task `i` in order, each with its state and, recursively,
/// its own upstreams.
pub open spec fn upstream_tree_ok(g: TaskGraph, i: int, v: Seq<(String, TaskUpstreamStatus)>) -> bool
    decreases i,
{
    &&& v.len() == g.up(i).len()
    &&& forall|k: int|
        #![trigger v[k]]
        0 <= k < v.len() ==> {
            let u = g.up(i)[k].0 as int;
            &&& v[k].0@ == g.nodes@[u].id@
            &&& v[k].1.effective_on == g.eff(u)
            &&& v[k].1.actual == g.act(u)
            &&& v[k].1.dependency_type == g.up(i)[k].1
            &&& (0 <= u < i ==> upstream_tree_ok(g, u, v[k].1.upstream@))
        }
}

/// The tree of tasks upstream of task `i`.
pub fn upstream_tree(g: &TaskGraph, i: usize) -> (r: Vec<(String, TaskUpstreamStatus)>)
    requires
        g.wf(),
        i < g.n(),
    ensures
        upstream_tree_ok(*g, i as int, r@),
    decreases i,
{
    let ups = &g.nodes[i].upstream;
    let mut out: Vec<(String, TaskUpstreamStatus)> = Vec::new();
    let mut k: usize = 0;
    while k < ups.len()
        invariant
            g.wf(),
            i < g.n(),
            ups@ == g.up(i as int),
            k <= ups@.len(),
            out@.len() == k,
            forall|j: int|
                #![trigger out@[j]]
                0 <= j < k ==> {
                    let u = g.up(i as int)[j].0 as int;
                    &&& out@[j].0@ == g.nodes@[u].id@
                    &&& out@[j].1.effective_on == g.eff(u)
                    &&& out@[j].1.actual == g.act(u)
                    &&& out@[j].1.dependency_type == g.up(i as int)[j].1
                    &&& (0 <= u < i ==> upstream_tree_ok(*g, u, out@[j].1.upstream@))
                },
        decreases ups@.len() - k,
    {
        let (u, t) = ups[k];
        proof {
            assert(g.up(i as int)[k as int].0 < i);
        }
        let sub = upstream_tree(g, u);
        let name = g.nodes[u].id.clone();
        let status = TaskUpstreamStatus {
            effective_on: is_control_effective_on(g, u),
            actual: g.actual[u],
            dependency_type: t,
            upstream: sub,
        };
        let ghost o0 = out@;
        out.push((name, status));
        proof {
            assert forall|j: int| 0 <= j < k + 1 implies #[trigger] out@[j] == if j < k { o0[j] } else { out@[k as int] } by {}
        }
        k = k + 1;
    }
    out
}

/// The tree of tasks upstream of the task named `name`.
pub fn list_upstream(g: &TaskGraph, name: &String) -> (r: Result<Vec<(String, TaskUpstreamStatus)>, RequestError>)
    requires
        g.wf(),
        names_unique(*g),
    ensures
        r is Err <==> !has_name(*g, name@),
        r is Err ==> (r matches Err(RequestError::UnknownTask)),
        r matches Ok(v) ==> upstream_tree_ok(*g, index_of(*g, name@), v@),
{
    match find_task(g, name) {
        None => Err(RequestError::UnknownTask),
        Some(i) => {
            proof {
                lemma_index_of(*g, name@, i as int);
            }
            Ok(upstream_tree(g, i))
        },
    }
}

/// A downstream task in the tree listed by `list_downstream`.
pub struct TaskDownstreamStatus {
    pub effective_on: bool,
    pub actual: Actual,
    pub dependency_type: DependencyType,
    /// `Strong` while every link from the listed task down to this one is strong.
    pub effective_dependency_type: DependencyType,
    pub downstream: Vec<(String, TaskDownstreamStatus)>,
}

/// The present tasks before `n` that are downstream of `i`, in index order.
pub open spec fn down_children(g: TaskGraph, i: int, n: int) -> Seq<usize>
    decreases n,
{
    if n <= 0 {
        seq![]
    } else if g.valid(n - 1) && g.has_up(n - 1, i) {
        down_children(g, i, n - 1).push((n - 1) as usize)
    } else {
        down_children(g, i, n - 1)
    }
}

/// How `d` depends on its upstream `u`.
pub open spec fn dep_of(g: TaskGraph, d: int, u: int) -> DependencyType {
    if g.is_up(d, u, DependencyType::Strong) {
        DependencyType::Strong
    } else {
        DependencyType::Weak
    }
}

/// The effective dependency type one link further down.
pub open spec fn combine_dep(e: DependencyType, t: DependencyType) -> DependencyType {
    match e {
        DependencyType::Strong => t,
        DependencyType::Weak => DependencyType::Weak,
    }
}

/// `v` lists the present downstreams of task `i` in index order, each with its state
/// and, recursively, its own downstreams.
pub open spec fn downstream_tree_ok(g: TaskGraph, i: int, eff_t: DependencyType, v: Seq<(String, TaskDownstreamStatus)>) -> bool
    decreases g.n() - i,
{
    let ch = down_children(g, i, g.n());
    &&& v.len() == ch.len()
    &&& forall|k: int|
        #![trigger v[k]]
        0 <= k < v.len() ==> {
            let d = ch[k] as int;
            &&& v[k].0@ == g.nodes@[d].id@
            &&& v[k].1.effective_on == g.eff(d)
            &&& v[k].1.actual == g.act(d)
            &&& v[k].1.dependency_type == dep_of(g, d, i)
            &&& v[k].1.effective_dependency_type == combine_dep(eff_t, dep_of(g, d, i))
            &&& (i < d < g.n() ==> downstream_tree_ok(g, d, combine_dep(eff_t, dep_of(g, d, i)), v[k].1.downstream@))
        }
}

/// Every task in `down_children` is a present downstream after `i`.
pub proof fn lemma_down_children(g: TaskGraph, i: int, n: int)
    requires
        g.wf(),
        n <= g.n(),
        g.n() <= usize::MAX,
    ensures
        forall|k: int| 0 <= k < down_children(g, i, n).len() ==> {
            let d = #[trigger] down_children(g, i, n)[k] as int;
            i < d < n && g.valid(d) && g.has_up(d, i)
        },
    decreases n,
{
    if n > 0 {
        lemma_down_children(g, i, n - 1);
        assert forall|k: int| 0 <= k < down_children(g, i, n).len() implies {
            let d = #[trigger] down_children(g, i, n)[k] as int;
            i < d < n && g.valid(d) && g.has_up(d, i)
        } by {
            let d = down_children(g, i, n)[k] as int;
            if k < down_children(g, i, n - 1).len() {
                assert(down_children(g, i, n)[k] == down_children(g, i, n - 1)[k]);
            } else {
                assert(g.valid(n - 1) && g.has_up(n - 1, i));
                assert(down_children(g, i, n) == down_children(g, i, n - 1).push((n - 1) as usize));
                assert(d == n - 1);
                let kk = choose|kk: int| 0 <= kk < g.up(d).len() && (#[trigger] g.up(d)[kk]).0 == i;
                assert(g.up(d)[kk].0 < d);
            }
        }
    }
}

/// In a listed downstream tree, an entry's effective dependency type is strong exactly
/// when the links above it are all strong (`eff_t`, for the first level) and its own
/// link is strong: one weak link makes everything below it weak.  Each entry's own
/// downstream tree is listed from its effective type, so this holds at every depth.
pub proof fn lemma_downstream_weakness(g: TaskGraph, i: int, eff_t: DependencyType, v: Seq<(String, TaskDownstreamStatus)>)
    requires
        g.wf(),
        0 <= i < g.n(),
        g.n() <= usize::MAX,
        downstream_tree_ok(g, i, eff_t, v),
    ensures
        forall|k: int|
            0 <= k < v.len() ==> {
                let e = #[trigger] v[k].1;
                &&& e.dependency_type == DependencyType::Strong <==> g.is_up(
                    down_children(g, i, g.n())[k] as int,
                    i,
                    DependencyType::Strong,
                )
                &&& e.effective_dependency_type == DependencyType::Strong <==> (eff_t == DependencyType::Strong
                    && e.dependency_type == DependencyType::Strong)
                &&& eff_t == DependencyType::Weak ==> e.effective_dependency_type == DependencyType::Weak
                &&& downstream_tree_ok(
                    g,
                    down_children(g, i, g.n())[k] as int,
                    e.effective_dependency_type,
                    e.downstream@,
                )
            },
{
    lemma_down_children(g, i, g.n());
    assert forall|k: int| 0 <= k < v.len() implies {
        let e = #[trigger] v[k].1;
        &&& e.dependency_type == DependencyType::Strong <==> g.is_up(
            down_children(g, i, g.n())[k] as int,
            i,
            DependencyType::Strong,
        )
        &&& e.effective_dependency_type == DependencyType::Strong <==> (eff_t == DependencyType::Strong
            && e.dependency_type == DependencyType::Strong)
        &&& eff_t == DependencyType::Weak ==> e.effective_dependency_type == DependencyType::Weak
        &&& downstream_tree_ok(
            g,
            down_children(g, i, g.n())[k] as int,
            e.effective_dependency_type,
            e.downstream@,
        )
    } by {
        let d = down_children(g, i, g.n())[k] as int;
        assert(v[k].0@ == g.nodes@[d].id@);
        assert(i < d < g.n());
    }
}

/// The tree of tasks downstream of task `i`, reached through links whose combined type
/// so far is `eff_t`.
pub fn downstream_tree(g: &TaskGraph, i: usize, eff_t: DependencyType) -> (r: Vec<(String, TaskDownstreamStatus)>)
    requires
        g.wf(),
        i < g.n(),
    ensures
        downstream_tree_ok(*g, i as int, eff_t, r@),
        forall|k: int|
            0 <= k < r@.len() ==> (#[trigger] r@[k].1.effective_dependency_type == DependencyType::Strong <==> (eff_t
                == DependencyType::Strong && r@[k].1.dependency_type == DependencyType::Strong)),
    decreases g.n() - i,
{
    let n = g.nodes.len();
    let mut out: Vec<(String, TaskDownstreamStatus)> = Vec::new();
    let mut d: usize = 0;
    proof {
        lemma_down_children(*g, i as int, n as int);
    }
    while d < n
        invariant
            g.wf(),
            n == g.n(),
            i < n,
            d <= n,
            out@.len() == down_children(*g, i as int, d as int).len(),
            forall|k: int| 0 <= k < down_children(*g, i as int, n as int).len() ==> {
                let c = #[trigger] down_children(*g, i as int, n as int)[k] as int;
                i < c < n && g.valid(c) && g.has_up(c, i as int)
            },
            forall|k: int|
                #![trigger out@[k]]
                0 <= k < out@.len() ==> {
                    let c = down_children(*g, i as int, d as int)[k] as int;
                    &&& out@[k].0@ == g.nodes@[c].id@
                    &&& out@[k].1.effective_on == g.eff(c)
                    &&& out@[k].1.actual == g.act(c)
                    &&& out@[k].1.dependency_type == dep_of(*g, c, i as int)
                    &&& out@[k].1.effective_dependency_type == combine_dep(eff_t, dep_of(*g, c, i as int))
                    &&& (i < c < g.n() ==> downstream_tree_ok(
                        *g,
                        c,
                        combine_dep(eff_t, dep_of(*g, c, i as int)),
                        out@[k].1.downstream@,
                    ))
                },
        decreases n - d,
    {
        let ghost o0 = out@;
        let ghost ch0 = down_children(*g, i as int, d as int);
        proof {
            lemma_down_children(*g, i as int, d + 1);
        }
        if g.present[d] {
            match g.dep_type(d, i) {
                Some(t) => {
                    proof {
                        assert(down_children(*g, i as int, d + 1) == ch0.push(d));
                        let kk = choose|kk: int| 0 <= kk < g.up(d as int).len() && (#[trigger] g.up(d as int)[kk]).0 == i;
                        assert(g.up(d as int)[kk].0 < d);
                        assert(dep_of(*g, d as int, i as int) == t);
                    }
                    let et = match eff_t {
                        DependencyType::Strong => t,
                        DependencyType::Weak => DependencyType::Weak,
                    };
                    let sub = downstream_tree(g, d, et);
                    let name = g.nodes[d].id.clone();
                    let status = TaskDownstreamStatus {
                        effective_on: is_control_effective_on(g, d),
                        actual: g.actual[d],
                        dependency_type: t,
                        effective_dependency_type: et,
                        downstream: sub,
                    };
                    out.push((name, status));
                    proof {
                        assert forall|k: int| 0 <= k < out@.len() implies #[trigger] out@[k] == if k < o0.len() {
                            o0[k]
                        } else {
                            out@[o0.len() as int]
                        } by {}
                        assert forall|k: int| 0 <= k < o0.len() implies down_children(*g, i as int, d + 1)[k] == ch0[k] by {}
                    }
                },
                None => {
                    proof {
                        assert(down_children(*g, i as int, d + 1) == ch0);
                    }
                },
            }
        } else {
            proof {
                assert(down_children(*g, i as int, d + 1) == ch0);
            }
        }
        d = d + 1;
    }
    proof {
        lemma_downstream_weakness(*g, i as int, eff_t, out@);
        assert forall|k: int| 0 <= k < out@.len() implies (#[trigger] out@[k].1.effective_dependency_type
            == DependencyType::Strong <==> (eff_t == DependencyType::Strong && out@[k].1.dependency_type
            == DependencyType::Strong)) by {
            let e = out@[k].1;
        }
    }
    out
}

/// The tree of tasks downstream of the task named `name`.
pub fn list_downstream(g: &TaskGraph, name: &String) -> (r: Result<Vec<(String, TaskDownstreamStatus)>, RequestError>)
    requires
        g.wf(),
        names_unique(*g),
    ensures
        r is Err <==> !has_name(*g, name@),
        r is Err ==> (r matches Err(RequestError::UnknownTask)),
        r matches Ok(v) ==> downstream_tree_ok(*g, index_of(*g, name@), DependencyType::Strong, v@),
{
    match find_task(g, name) {
        None => Err(RequestError::UnknownTask),
        Some(i) => {
            proof {
                lemma_index_of(*g, name@, i as int);
            }
            Ok(downstream_tree(g, i, DependencyType::Strong))
        },
    }
}

} // verus!
