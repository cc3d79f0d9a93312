# racedet

A deterministic scheduler for testing concurrent async code. Tasks announce
the points where they may be interleaved and the synchronization they
perform (locks, joins, barriers, watches); at each point the scheduler decides
which suspended tasks run next, at random or following a replay trace, and
records every decision so that a failing interleaving can be replayed.

## Layout

- `src/` is the verified library (Verus):
  - `scheduler.rs` and `scheduler/get_runnable_tasks.rs`: the scheduler's state,
    its decisions, the full trace and the replay trace of a run;
  - `sync_model.rs`, `sync/`: the models of synchronization primitives that
    tell which tasks can make progress;
  - `locks.rs`, `lock_model/`: the lock tables behind the lock models;
  - `parsed_replay_trace.rs`, `replay_trace.rs`: the textual replay trace, its
    parser and printer, and its form attached to the scheduler's strings;
  - `full_trace.rs`, `trace.rs`: the traces as the user reads them;
  - `string_pool.rs`, `keyed.rs`, `text.rs`, `task.rs`: supporting types;
  - `driver.rs`: the settings of a test run and the decisions between runs.
- `app/` is ordinary Rust around the library: the async executor and task
  plumbing, the shared scheduler behind a mutex, environment variables, and
  the loop that runs a test many times.
- `tests/` exercises the library through its public interface.
