use vstd::prelude::*;

verus! {

/// The work decided by the control logic: tasks whose state changed without a process
/// (to log), tasks whose process must be run or stopped, and tasks to delete.  Each
/// field holds one flag per task slot.
pub struct ExecutePlan {
    pub log_starting: Vec<bool>,
    pub log_started: Vec<bool>,
    pub log_stopping: Vec<bool>,
    pub log_stopped: Vec<bool>,
    pub run: Vec<bool>,
    pub stop: Vec<bool>,
    pub delete: Vec<bool>,
}

/// The flags of a plan as sequences.
pub struct PlanView {
    pub log_starting: Seq<bool>,
    pub log_started: Seq<bool>,
    pub log_stopping: Seq<bool>,
    pub log_stopped: Seq<bool>,
    pub run: Seq<bool>,
    pub stop: Seq<bool>,
    pub delete: Seq<bool>,
}

impl View for ExecutePlan {
    type V = PlanView;

    open spec fn view(&self) -> PlanView {
        PlanView {
            log_starting: self.log_starting@,
            log_started: self.log_started@,
            log_stopping: self.log_stopping@,
            log_stopped: self.log_stopped@,
            run: self.run@,
            stop: self.stop@,
            delete: self.delete@,
        }
    }
}

pub open spec fn all_false(s: Seq<bool>) -> bool {
    forall|i: int| 0 <= i < s.len() ==> !#[trigger] s[i]
}

/// `b` has every flag that `a` has.
pub open spec fn grows(a: Seq<bool>, b: Seq<bool>) -> bool {
    a.len() == b.len() && forall|i: int| 0 <= i < a.len() && #[trigger] a[i] ==> b[i]
}

impl PlanView {
    pub open spec fn wf(self, n: int) -> bool {
        &&& self.log_starting.len() == n
        &&& self.log_started.len() == n
        &&& self.log_stopping.len() == n
        &&& self.log_stopped.len() == n
        &&& self.run.len() == n
        &&& self.stop.len() == n
        &&& self.delete.len() == n
    }

    pub open spec fn is_empty(self) -> bool {
        &&& all_false(self.log_starting)
        &&& all_false(self.log_started)
        &&& all_false(self.log_stopping)
        &&& all_false(self.log_stopped)
        &&& all_false(self.run)
        &&& all_false(self.stop)
        &&& all_false(self.delete)
    }

    /// Every flag of `self` is still set in `other`.
    pub open spec fn grows_to(self, other: Self) -> bool {
        &&& grows(self.log_starting, other.log_starting)
        &&& grows(self.log_started, other.log_started)
        &&& grows(self.log_stopping, other.log_stopping)
        &&& grows(self.log_stopped, other.log_stopped)
        &&& grows(self.run, other.run)
        &&& grows(self.stop, other.stop)
        &&& grows(self.delete, other.delete)
    }

    /// Only the start-related fields (`log_starting`, `log_started`, `run`) changed.
    pub open spec fn only_start_fields(self, other: Self) -> bool {
        &&& self.log_stopping == other.log_stopping
        &&& self.log_stopped == other.log_stopped
        &&& self.stop == other.stop
        &&& self.delete == other.delete
    }

    /// Only the stop-related fields changed.
    pub open spec fn only_stop_fields(self, other: Self) -> bool {
        &&& self.log_starting == other.log_starting
        &&& self.log_started == other.log_started
        &&& self.run == other.run
    }
}

fn false_vec(n: usize) -> (v: Vec<bool>)
    ensures
        v@.len() == n,
        all_false(v@),
{
    let mut v: Vec<bool> = Vec::new();
    let mut i: usize = 0;
    while i < n
        invariant
            i <= n,
            v@.len() == i,
            all_false(v@),
        decreases n - i,
    {
        v.push(false);
        i = i + 1;
    }
    v
}

impl ExecutePlan {
    /// An empty plan for a graph of `n` task slots.
    pub fn new(n: usize) -> (p: Self)
        ensures
            p@.wf(n as int),
            p@.is_empty(),
    {
        ExecutePlan {
            log_starting: false_vec(n),
            log_started: false_vec(n),
            log_stopping: false_vec(n),
            log_stopped: false_vec(n),
            run: false_vec(n),
            stop: false_vec(n),
            delete: false_vec(n),
        }
    }

    /// Add a flag, unset, for one more task slot.
    pub fn push_slot(&mut self)
        ensures
            final(self)@.log_starting == old(self)@.log_starting.push(false),
            final(self)@.log_started == old(self)@.log_started.push(false),
            final(self)@.log_stopping == old(self)@.log_stopping.push(false),
            final(self)@.log_stopped == old(self)@.log_stopped.push(false),
            final(self)@.run == old(self)@.run.push(false),
            final(self)@.stop == old(self)@.stop.push(false),
            final(self)@.delete == old(self)@.delete.push(false),
    {
        self.log_starting.push(false);
        self.log_started.push(false);
        self.log_stopping.push(false);
        self.log_stopped.push(false);
        self.run.push(false);
        self.stop.push(false);
        self.delete.push(false);
    }

    /// The task indices whose flag is set in `flags`, in increasing order.
    pub fn members(flags: &Vec<bool>) -> (r: Vec<usize>)
        ensures
            forall|k: int| 0 <= k < r@.len() ==> r@[k] < flags@.len() && flags@[r@[k] as int],
            forall|i: int| 0 <= i < flags@.len() && flags@[i] ==> r@.contains(i as usize),
            forall|a: int, b: int| 0 <= a < b < r@.len() ==> r@[a] < r@[b],
    {
        let mut r: Vec<usize> = Vec::new();
        let mut i: usize = 0;
        while i < flags.len()
            invariant
                i <= flags@.len(),
                forall|k: int| 0 <= k < r@.len() ==> r@[k] < i && flags@[r@[k] as int],
                forall|j: int| 0 <= j < i && flags@[j] ==> r@.contains(j as usize),
                forall|a: int, b: int| 0 <= a < b < r@.len() ==> r@[a] < r@[b],
            decreases flags@.len() - i,
        {
            let ghost r0 = r@;
            if flags[i] {
                r.push(i);
                assert(r@[r@.len() - 1] == i);
                assert forall|j: int| 0 <= j < i && flags@[j] implies r@.contains(j as usize) by {
                    let k = choose|k: int| 0 <= k < r0.len() && r0[k] == j as usize;
                    assert(r@[k] == j as usize);
                }
            }
            i = i + 1;
        }
        r
    }
}

} // verus!
