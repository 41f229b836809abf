use vstd::prelude::*;
use vstd::string::{StrSliceExecFns, StringExecFns};

verus! {

/// The path of the control socket: `sock`, the value of `PUTERON_IPC_SOCK` when it is
/// set, else `/run/puteron.sock`.
pub fn ipc_path(sock: Option<String>) -> (r: String)
    ensures
        r@ == match sock {
            Some(p) => p@,
            None => "/run/puteron.sock"@,
        },
{
    match sock {
        Some(p) => p,
        None => String::from_str("/run/puteron.sock"),
    }
}

/// The directory for run-time files: `runtime`, the value of `XDG_RUNTIME_DIR` when it
/// is set, else `/run`.
pub fn run_dir(runtime: Option<String>) -> (r: String)
    ensures
        r@ == match runtime {
            Some(p) => p@,
            None => "/run"@,
        },
{
    match runtime {
        Some(p) => p,
        None => String::from_str("/run"),
    }
}

/// `rel` taken from the directory `base`: `rel` itself if it is absolute, else `rel`
/// after `base` and a `/` (none is added when `base` is empty or ends in one).
pub open spec fn join_path(base: Seq<char>, rel: Seq<char>) -> Seq<char> {
    if rel.len() > 0 && rel[0] == '/' {
        rel
    } else if base.len() == 0 || base.last() == '/' {
        base + rel
    } else {
        base + seq!['/'] + rel
    }
}

/// The path of a file `rel` in the run directory (see `run_dir`).
pub fn run_path(runtime: Option<String>, rel: &str) -> (r: String)
    ensures
        r@ == join_path(run_dir_of(runtime), rel@),
{
    let base = run_dir(runtime);
    let n = rel.unicode_len();
    if n > 0 && rel.get_char(0) == '/' {
        return String::from_str(rel);
    }
    let m = base.as_str().unicode_len();
    let mut out = base;
    if m > 0 && out.as_str().get_char(m - 1) != '/' {
        proof {
            reveal_strlit("/");
        }
        out.append("/");
    }
    out.append(rel);
    proof {
        assert(out@ =~= join_path(run_dir_of(runtime), rel@));
    }
    out
}

/// The run directory named by `runtime` (see `run_dir`).
pub open spec fn run_dir_of(runtime: Option<String>) -> Seq<char> {
    match runtime {
        Some(p) => p@,
        None => "/run"@,
    }
}

} // verus!
