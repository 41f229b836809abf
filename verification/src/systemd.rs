use vstd::prelude::*;
use vstd::string::{StrSliceExecFns, StringExecFns};

verus! {

/// How a systemd unit is followed.
#[derive(Clone, Copy, PartialEq, Eq, Structural, Debug)]
pub struct UnitMeta {
    /// The unit counts as started once it has a process, rather than once that
    /// process exits (a long-running service, not a one-shot one).
    pub started_at_pid: bool,
    /// The unit has a process while it starts and runs.
    pub pid_relevant: bool,
    /// The unit stays active after its start completes (a mount, or a one-shot service
    /// that remains after exit), so it must be stopped explicitly.
    pub active_stop: bool,
}

/// The part of a unit name after its last `.` (the whole name if it has none).
pub open spec fn unit_suffix(unit: Seq<char>) -> Seq<char>
    decreases unit.len(),
{
    if unit.len() == 0 {
        unit
    } else if unit.last() == '.' {
        Seq::empty()
    } else {
        unit_suffix(unit.drop_last()).push(unit.last())
    }
}

/// The unit is a service: its name ends in `.service`.
pub fn is_service(unit: &str) -> (r: bool)
    ensures
        r == (unit_suffix(unit@) == "service"@),
{
    let n = unit.unicode_len();
    let mut start: usize = n;
    proof {
        assert(unit@.subrange(0, n as int) =~= unit@);
        assert(unit_suffix(unit@) + unit@.subrange(n as int, n as int) =~= unit_suffix(unit@));
    }
    while start > 0 && unit.get_char(start - 1) != '.'
        invariant
            start <= n,
            n == unit@.len(),
            forall|k: int| start <= k < n ==> unit@[k] != '.',
            unit_suffix(unit@) == unit_suffix(unit@.subrange(0, start as int)) + unit@.subrange(start as int, n as int),
        decreases start,
    {
        proof {
            let p = unit@.subrange(0, start as int);
            assert(p.drop_last() =~= unit@.subrange(0, start - 1));
            assert(p.last() == unit@[start - 1]);
            assert(unit@.subrange(start - 1, n as int) =~= seq![unit@[start - 1]] + unit@.subrange(start as int, n as int));
            assert(unit_suffix(p) == unit_suffix(p.drop_last()).push(p.last()));
            assert(unit_suffix(p.drop_last()).push(p.last()) + unit@.subrange(start as int, n as int) =~= unit_suffix(
                unit@.subrange(0, start - 1),
            ) + unit@.subrange(start - 1, n as int));
        }
        start = start - 1;
    }
    proof {
        let p = unit@.subrange(0, start as int);
        if start > 0 {
            assert(p.last() == '.');
            assert(unit_suffix(p) == Seq::<char>::empty());
        } else {
            assert(p.len() == 0);
        }
        assert(unit_suffix(unit@) =~= unit@.subrange(start as int, n as int));
    }
    let suffix = String::from_str(unit.substring_char(start, n));
    let service = String::from_str("service");
    suffix == service
}

/// How a service is followed, by its `Type` and `RemainAfterExit` properties; `None`
/// for a type that is not handled.
pub fn service_meta(service_type: &str, remain_after_exit: &str) -> (r: Option<UnitMeta>)
    ensures
        r == if service_type@ == "oneshot"@ {
            Some(UnitMeta { started_at_pid: false, pid_relevant: true, active_stop: remain_after_exit@ == "yes"@ })
        } else if service_type@ == "simple"@ || service_type@ == "exec"@ || service_type@ == "notify"@
            || service_type@ == "forking"@ || service_type@ == "dbus"@ {
            Some(UnitMeta { started_at_pid: true, pid_relevant: true, active_stop: false })
        } else {
            None
        },
{
    let t = String::from_str(service_type);
    if t == String::from_str("oneshot") {
        let yes = String::from_str(remain_after_exit) == String::from_str("yes");
        return Some(UnitMeta { started_at_pid: false, pid_relevant: true, active_stop: yes });
    }
    if t == String::from_str("simple") || t == String::from_str("exec") || t == String::from_str("notify") || t
        == String::from_str("forking") || t == String::from_str("dbus") {
        return Some(UnitMeta { started_at_pid: true, pid_relevant: true, active_stop: false });
    }
    None
}

/// How a unit that is not a service (a mount, a target, ...) is followed: it has no
/// process to wait on and must be stopped explicitly.
pub fn other_unit_meta() -> (r: UnitMeta)
    ensures
        r == (UnitMeta { started_at_pid: false, pid_relevant: false, active_stop: true }),
{
    UnitMeta { started_at_pid: false, pid_relevant: false, active_stop: true }
}

/// The unit's `Result` property says it succeeded (`success`, or `mounted`).
pub fn unit_result_ok(result: &str) -> (r: bool)
    ensures
        r == (result@ == "success"@ || result@ == "mounted"@),
{
    let s = String::from_str(result);
    s == String::from_str("success") || s == String::from_str("mounted")
}

/// The name of the file, in the run directory, that is present while the unit is
/// started.
pub fn started_file_name(unit: &str) -> (r: String)
    ensures
        r@ == "puteron-control-systemd-"@ + unit@ + "-started"@,
{
    let mut out = String::from_str("puteron-control-systemd-");
    out.append(unit);
    out.append("-started");
    out
}

} // verus!
