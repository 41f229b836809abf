use vstd::prelude::*;
use crate::model::Actual;

verus! {

/// What the end of a task's process means for the task.
#[derive(Clone, Copy, PartialEq, Eq, Structural, Debug)]
pub enum ProcessEnd {
    /// A stop was asked for: the task has stopped.
    Stopped,
    /// A short task's process succeeded: the task has started.
    Started,
    /// The process failed: the task is stopping and is restarted after a delay.
    Failed,
}

/// The exit code `code` counts as success: it is one of `success_codes`, or 0 when
/// there are none.
pub open spec fn exit_succeeded(success_codes: Seq<i32>, code: i32) -> bool {
    if success_codes.len() == 0 {
        code == 0
    } else {
        success_codes.contains(code)
    }
}

/// The meaning of a process that ended with `code` (none when a signal ended it):
/// stopped if a stop was asked for (`stopping`), started if it is a short task's
/// (`short`) and the code counts as success, failed otherwise.
pub fn process_end(stopping: bool, short: bool, code: Option<i32>, success_codes: &Vec<i32>) -> (r: ProcessEnd)
    ensures
        r == if stopping {
            ProcessEnd::Stopped
        } else if short && (code matches Some(c) && exit_succeeded(success_codes@, c)) {
            ProcessEnd::Started
        } else {
            ProcessEnd::Failed
        },
{
    if stopping {
        return ProcessEnd::Stopped;
    }
    if !short {
        return ProcessEnd::Failed;
    }
    let c = match code {
        Some(c) => c,
        None => return ProcessEnd::Failed,
    };
    let ok = if success_codes.len() == 0 {
        c == 0
    } else {
        let mut found = false;
        let mut i: usize = 0;
        while i < success_codes.len()
            invariant
                i <= success_codes@.len(),
                found == exists|j: int| 0 <= j < i && success_codes@[j] == c,
            decreases success_codes@.len() - i,
        {
            if success_codes[i] == c {
                found = true;
            }
            i = i + 1;
        }
        found
    };
    if ok {
        ProcessEnd::Started
    } else {
        ProcessEnd::Failed
    }
}

/// Where a wait for a task to start or stop stands.
#[derive(Clone, Copy, PartialEq, Eq, Structural, Debug)]
pub enum WaitStep {
    /// The task reached the state waited for.
    Done,
    /// The task went to the other end instead (stopped while waiting for it to start,
    /// or started while waiting for it to stop).
    Canceled,
    /// Keep waiting.
    Pending,
}

/// The other end from `target`: stopped for started, started for stopped.
pub open spec fn other_end(target: Actual) -> Actual {
    if target == Actual::Started {
        Actual::Stopped
    } else {
        Actual::Started
    }
}

/// The step of a wait for `target` (started or stopped), given the state seen at the
/// previous check (`last`, none at the first) and the state now: done at the target,
/// canceled on arriving at the other end since the previous check, else pending.
pub fn wait_step(target: Actual, last: Option<Actual>, now: Actual) -> (r: WaitStep)
    requires
        target == Actual::Started || target == Actual::Stopped,
    ensures
        r == if now == target {
            WaitStep::Done
        } else if now == other_end(target) && last is Some && last != Some(now) {
            WaitStep::Canceled
        } else {
            WaitStep::Pending
        },
{
    if now == target {
        return WaitStep::Done;
    }
    let other = if target == Actual::Started {
        Actual::Stopped
    } else {
        Actual::Started
    };
    match last {
        Some(l) => {
            if now == other && l != now {
                WaitStep::Canceled
            } else {
                WaitStep::Pending
            }
        },
        None => WaitStep::Pending,
    }
}

} // verus!
