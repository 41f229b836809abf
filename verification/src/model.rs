use vstd::prelude::*;

verus! {

/// The actual (observed) state of a task.
#[derive(Clone, Copy, PartialEq, Eq, Structural, Debug)]
pub enum Actual {
    Stopped,
    Starting,
    Started,
    Stopping,
}

/// How a downstream task depends on an upstream task.  All dependencies keep the
/// downstream from starting until the upstream has started, and stop the downstream
/// when the upstream leaves the started state.
#[derive(Clone, Copy, PartialEq, Eq, Structural, Debug)]
pub enum DependencyType {
    /// Turning the downstream on also turns the upstream on (`transitive_on`).
    Strong,
    /// The downstream is only effectively on while the upstream is effectively on.
    Weak,
}

/// What happens once a short task's command succeeds.
#[derive(Clone, Copy, PartialEq, Eq, Structural, Debug)]
pub enum ShortTaskStartedAction {
    /// Nothing happens, the task stays on and started.
    NoAction,
    /// Set the direct-on state to off once the task ends.
    TurnOff,
    /// Delete the task once the task ends.
    Delete,
}

/// The kind of a task, with what the control logic reads of its specification.
#[derive(Clone, Copy, Debug)]
pub enum TaskKind {
    /// No process: starts and stops instantly.
    Empty,
    /// A process that keeps running until stopped.
    Long,
    /// A process that is considered started once it exits successfully.
    Short { started_action: Option<ShortTaskStartedAction>, scheduled: bool },
}

/// A task: its name, kind and upstream dependencies (by index into the graph).
pub struct TaskNode {
    pub id: String,
    pub kind: TaskKind,
    pub upstream: Vec<(usize, DependencyType)>,
}

/// The dependency graph with the control and actual state of each task.  Tasks are
/// stored by index; a deleted task keeps its slot with `present` false.  Upstream
/// indices are always smaller than the task's own index, so the graph has no cycles.
pub struct TaskGraph {
    pub nodes: Vec<TaskNode>,
    pub present: Vec<bool>,
    pub direct_on: Vec<bool>,
    pub transitive_on: Vec<bool>,
    /// "All weak upstream effective on".
    pub awueo: Vec<bool>,
    pub actual: Vec<Actual>,
    pub delete_when_stopped: Vec<bool>,
}

impl TaskGraph {
    pub open spec fn n(self) -> int {
        self.nodes@.len() as int
    }

    pub open spec fn up(self, i: int) -> Seq<(usize, DependencyType)> {
        self.nodes@[i].upstream@
    }

    pub open spec fn kind(self, i: int) -> TaskKind {
        self.nodes@[i].kind
    }

    pub open spec fn valid(self, i: int) -> bool {
        0 <= i < self.n() && self.present@[i]
    }

    pub open spec fn act(self, i: int) -> Actual {
        self.actual@[i]
    }

    pub open spec fn wf(self) -> bool {
        &&& self.present@.len() == self.n()
        &&& self.direct_on@.len() == self.n()
        &&& self.transitive_on@.len() == self.n()
        &&& self.awueo@.len() == self.n()
        &&& self.actual@.len() == self.n()
        &&& self.delete_when_stopped@.len() == self.n()
        &&& forall|i: int, k: int|
            0 <= i < self.n() && 0 <= k < self.up(i).len() ==> (#[trigger] self.up(i)[k]).0 < i
        &&& forall|i: int, k: int|
            self.valid(i) && 0 <= k < self.up(i).len() ==> self.present@[(
            #[trigger] self.up(i)[k]).0 as int]
        &&& forall|i: int, k1: int, k2: int|
            #![trigger self.up(i)[k1], self.up(i)[k2]]
            0 <= i < self.n() && 0 <= k1 < self.up(i).len() && 0 <= k2 < self.up(i).len() && k1
                != k2 ==> self.up(i)[k1].0 != self.up(i)[k2].0
    }

    /// Same tasks and dependencies (control and actual state may differ).
    pub open spec fn same_structure(self, other: Self) -> bool {
        &&& self.nodes@ == other.nodes@
        &&& self.present@ == other.present@
        &&& self.delete_when_stopped@ == other.delete_when_stopped@
    }

    /// Same control state (direct, transitive, awueo).
    pub open spec fn same_control(self, other: Self) -> bool {
        &&& self.direct_on@ == other.direct_on@
        &&& self.transitive_on@ == other.transitive_on@
        &&& self.awueo@ == other.awueo@
    }

    /// `direct_on || transitive_on`.
    pub open spec fn on(self, i: int) -> bool {
        self.direct_on@[i] || self.transitive_on@[i]
    }

    /// `(direct_on || transitive_on) && awueo`.
    pub open spec fn eff(self, i: int) -> bool {
        self.awueo@[i] && self.on(i)
    }

    /// `u` is an upstream of `d` with dependency type `t`.
    pub open spec fn is_up(self, d: int, u: int, t: DependencyType) -> bool {
        exists|k: int| 0 <= k < self.up(d).len() && (#[trigger] self.up(d)[k]).0 == u && self.up(d)[k].1 == t
    }

    /// `u` is an upstream of `d` (of any type).
    pub open spec fn has_up(self, d: int, u: int) -> bool {
        exists|k: int| 0 <= k < self.up(d).len() && (#[trigger] self.up(d)[k]).0 == u
    }

    /// Some present strong downstream of `u` is on.
    pub open spec fn strong_down_on(self, u: int) -> bool {
        exists|d: int| self.valid(d) && #[trigger] self.is_up(d, u, DependencyType::Strong) && self.on(d)
    }

    /// No present strong downstream of `u` is on.
    pub open spec fn all_strong_down_off(self, u: int) -> bool {
        forall|d: int| self.valid(d) && #[trigger] self.is_up(d, u, DependencyType::Strong) ==> !self.on(d)
    }

    /// Every weak upstream of `i` is effectively on.
    pub open spec fn all_weak_up_eff(self, i: int) -> bool {
        forall|k: int|
            0 <= k < self.up(i).len() && (#[trigger] self.up(i)[k]).1 == DependencyType::Weak
                ==> self.eff(self.up(i)[k].0 as int)
    }

    /// Every upstream of `i` is started.
    pub open spec fn all_up_started(self, i: int) -> bool {
        forall|k: int|
            0 <= k < self.up(i).len() ==> self.act((#[trigger] self.up(i)[k]).0 as int)
                == Actual::Started
    }

    /// Every present downstream of `u` is stopped.
    pub open spec fn all_down_stopped(self, u: int) -> bool {
        forall|d: int| self.valid(d) && #[trigger] self.has_up(d, u) ==> self.act(d) == Actual::Stopped
    }

    /// `u` has no present downstream.
    pub open spec fn no_down(self, u: int) -> bool {
        forall|d: int| self.valid(d) ==> !#[trigger] self.has_up(d, u)
    }

    /// The control state of task `i` agrees with its neighbours: `transitive_on` is
    /// set exactly when a strong downstream is on, and `awueo` exactly when every
    /// weak upstream is effectively on.
    pub open spec fn node_control_ok(self, i: int) -> bool {
        &&& self.transitive_on@[i] == self.strong_down_on(i)
        &&& self.awueo@[i] == self.all_weak_up_eff(i)
    }

    pub open spec fn control_ok(self) -> bool {
        forall|i: int| self.valid(i) ==> #[trigger] self.node_control_ok(i)
    }

    /// The short task started action, with the default: `TurnOff` when the task is
    /// scheduled, else `None`.
    pub open spec fn started_action_of(a: Option<ShortTaskStartedAction>, scheduled: bool) -> ShortTaskStartedAction {
        match a {
            Some(a) => a,
            None => if scheduled {
                ShortTaskStartedAction::TurnOff
            } else {
                ShortTaskStartedAction::NoAction
            },
        }
    }

    /// Well-formedness depends only on the structure and the lengths of the state.
    pub proof fn lemma_wf_frame(self, other: Self)
        requires
            self.wf(),
            other.nodes@ == self.nodes@,
            other.present@ == self.present@,
            other.direct_on@.len() == self.n(),
            other.transitive_on@.len() == self.n(),
            other.awueo@.len() == self.n(),
            other.actual@.len() == self.n(),
            other.delete_when_stopped@.len() == self.n(),
        ensures
            other.wf(),
    {
        assert forall|i: int, k: int| 0 <= i < other.n() && 0 <= k < other.up(i).len() implies (
        #[trigger] other.up(i)[k]).0 < i by {
            assert(self.up(i)[k] == other.up(i)[k]);
        }
        assert forall|i: int, k: int| other.valid(i) && 0 <= k < other.up(i).len() implies other.present@[(
        #[trigger] other.up(i)[k]).0 as int] by {
            assert(self.up(i)[k] == other.up(i)[k]);
        }
        assert forall|i: int, k1: int, k2: int|
            0 <= i < other.n() && 0 <= k1 < other.up(i).len() && 0 <= k2 < other.up(i).len() && k1
                != k2 implies #[trigger] other.up(i)[k1].0 != #[trigger] other.up(i)[k2].0 by {
            assert(self.up(i)[k1] == other.up(i)[k1]);
            assert(self.up(i)[k2] == other.up(i)[k2]);
        }
    }

    /// Graphs with the same tasks agree on dependencies.
    pub proof fn lemma_same_nodes_deps(self, other: Self)
        requires
            self.nodes@ == other.nodes@,
        ensures
            forall|d: int, u: int, t: DependencyType| #[trigger] self.is_up(d, u, t) == other.is_up(d, u, t),
            forall|d: int, u: int| #[trigger] self.has_up(d, u) == other.has_up(d, u),
            forall|d: int| #[trigger] self.up(d) == other.up(d),
    {
        assert forall|d: int, u: int, t: DependencyType| #[trigger] self.is_up(d, u, t) == other.is_up(d, u, t) by {
            assert(self.up(d) == other.up(d));
            if self.is_up(d, u, t) {
                let k = choose|k: int| 0 <= k < self.up(d).len() && (#[trigger] self.up(d)[k]).0 == u && self.up(d)[k].1 == t;
                assert(other.up(d)[k] == self.up(d)[k]);
            }
            if other.is_up(d, u, t) {
                let k = choose|k: int| 0 <= k < other.up(d).len() && (#[trigger] other.up(d)[k]).0 == u && other.up(d)[k].1 == t;
                assert(other.up(d)[k] == self.up(d)[k]);
            }
        }
        assert forall|d: int, u: int| #[trigger] self.has_up(d, u) == other.has_up(d, u) by {
            assert(self.up(d) == other.up(d));
            if self.has_up(d, u) {
                let k = choose|k: int| 0 <= k < self.up(d).len() && (#[trigger] self.up(d)[k]).0 == u;
                assert(other.up(d)[k] == self.up(d)[k]);
            }
            if other.has_up(d, u) {
                let k = choose|k: int| 0 <= k < other.up(d).len() && (#[trigger] other.up(d)[k]).0 == u;
                assert(other.up(d)[k] == self.up(d)[k]);
            }
        }
    }

    /// An empty graph.
    pub fn new() -> (g: Self)
        ensures
            g.wf(),
            g.n() == 0,
            g.control_ok(),
    {
        TaskGraph {
            nodes: Vec::new(),
            present: Vec::new(),
            direct_on: Vec::new(),
            transitive_on: Vec::new(),
            awueo: Vec::new(),
            actual: Vec::new(),
            delete_when_stopped: Vec::new(),
        }
    }

    /// Number of task slots (deleted tasks keep their slot).
    pub fn len(&self) -> (r: usize)
        requires
            self.wf(),
        ensures
            r == self.n(),
    {
        self.nodes.len()
    }

    pub fn is_present(&self, i: usize) -> (r: bool)
        requires
            self.wf(),
            i < self.n(),
        ensures
            r == self.present@[i as int],
    {
        self.present[i]
    }

    pub fn get_actual(&self, i: usize) -> (r: Actual)
        requires
            self.wf(),
            i < self.n(),
        ensures
            r == self.act(i as int),
    {
        self.actual[i]
    }

    pub fn get_direct_on(&self, i: usize) -> (r: bool)
        requires
            self.wf(),
            i < self.n(),
        ensures
            r == self.direct_on@[i as int],
    {
        self.direct_on[i]
    }

    pub fn get_transitive_on(&self, i: usize) -> (r: bool)
        requires
            self.wf(),
            i < self.n(),
        ensures
            r == self.transitive_on@[i as int],
    {
        self.transitive_on[i]
    }

    pub fn get_awueo(&self, i: usize) -> (r: bool)
        requires
            self.wf(),
            i < self.n(),
        ensures
            r == self.awueo@[i as int],
    {
        self.awueo[i]
    }

    pub fn get_kind(&self, i: usize) -> (r: TaskKind)
        requires
            self.wf(),
            i < self.n(),
        ensures
            r == self.kind(i as int),
    {
        self.nodes[i].kind
    }

    pub fn get_delete_when_stopped(&self, i: usize) -> (r: bool)
        requires
            self.wf(),
            i < self.n(),
        ensures
            r == self.delete_when_stopped@[i as int],
    {
        self.delete_when_stopped[i]
    }

    /// The dependency type with which `u` is an upstream of `d`, if it is one.
    pub fn dep_type(&self, d: usize, u: usize) -> (r: Option<DependencyType>)
        requires
            self.wf(),
            d < self.n(),
        ensures
            r == Some(DependencyType::Strong) <==> self.is_up(d as int, u as int, DependencyType::Strong),
            r == Some(DependencyType::Weak) <==> self.is_up(d as int, u as int, DependencyType::Weak),
            r is None <==> !self.has_up(d as int, u as int),
    {
        let ups = &self.nodes[d].upstream;
        let mut k: usize = 0;
        while k < ups.len()
            invariant
                self.wf(),
                d < self.n(),
                ups@ == self.up(d as int),
                k <= ups@.len(),
                forall|j: int| 0 <= j < k ==> ups@[j].0 != u,
            decreases ups@.len() - k,
        {
            if ups[k].0 == u {
                proof {
                    assert(self.up(d as int)[k as int] == (u, ups@[k as int].1));
                    assert forall|t: DependencyType| t != ups@[k as int].1 implies !self.is_up(
                        d as int,
                        u as int,
                        t,
                    ) by {
                        if self.is_up(d as int, u as int, t) {
                            let j = choose|j: int|
                                0 <= j < self.up(d as int).len() && #[trigger] self.up(d as int)[j] == (
                                u,
                                t,
                            );
                            assert(self.up(d as int)[j].0 == self.up(d as int)[k as int].0);
                        }
                    }
                }
                return Some(ups[k].1);
            }
            k = k + 1;
        }
        proof {
            assert forall|t: DependencyType| !self.is_up(d as int, u as int, t) by {
                if self.is_up(d as int, u as int, t) {
                    let j = choose|j: int|
                        0 <= j < self.up(d as int).len() && #[trigger] self.up(d as int)[j] == (u, t);
                    assert(ups@[j].0 != u);
                }
            }
            if self.has_up(d as int, u as int) {
                let j = choose|j: int|
                    0 <= j < self.up(d as int).len() && (#[trigger] self.up(d as int)[j]).0 == u;
                assert(ups@[j].0 != u);
            }
        }
        None
    }
}

} // verus!
