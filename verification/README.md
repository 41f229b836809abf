# puteron

A process supervisor built around a dependency graph of tasks. Each task is empty
(no process), long (a process that keeps running) or short (a process that is
considered started once it exits successfully). Tasks depend on other tasks strongly
(turning the downstream on turns the upstream on) or weakly (the downstream is only
effectively on while the upstream is). A task only starts once everything upstream of
it has started, and only stops once everything downstream of it has stopped.

The control logic is written in Verus and proved against its contracts:

- `src/model.rs`: the task graph and its mathematical model (control state, actual
  state, well-formedness).
- `src/task_util.rs`, `src/task_control.rs`, `src/set_direct*.rs`, `src/start_down.rs`,
  `src/stop_down.rs`, `src/control.rs`, `src/events.rs`: turning tasks on and off,
  propagating starts downstream and stops upstream, and reacting to process events;
  each returns an `ExecutePlan` (`src/plan.rs`) of processes to run, stop or delete.
- `src/graph_edit.rs`, `src/delete.rs`, `src/requests.rs`, `src/queries.rs`: adding,
  validating and deleting tasks, and the requests the demon answers.
- `src/sanity.rs`: a consistency check of the control state.
- `src/spec_order.rs`, `src/json_merge.rs`, `src/spec_files.rs`, `src/task_dir.rs`,
  `src/time.rs`: ordering task specifications by dependency, reading and layering the
  JSON files of a task (through serde_json, with their SHA-256 digests through sha2),
  which task a file names, and reading durations.
- `src/restart.rs`, `src/schedule.rs`: restart back-off and schedule rules (dates
  through chrono, random delays through rand), and the pending schedule in time order.
- `src/supervise.rs`, `src/paths.rs`: what the end of a task's process means, where a
  wait for a task stands, and the socket and run-time paths.
- `src/systemd.rs`: how a systemd unit is followed when it is put under a task.

`app/` holds the `puteron` command: it runs processes (their output goes to stderr or
the syslog), reads the task directories (and re-reads them when watching, through
`files_changed`), answers requests on a Unix socket, and, as `puteron control-systemd
UNIT`, starts a systemd unit, follows it and stops it.  The control decisions are the
library's; `app/` keeps two of its own: the longest delay once a restart delay is past
the library's range, and whether a task added again has the same specification as
before.
`tests/` runs the library on concrete graphs.
