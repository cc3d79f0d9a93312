//! The scheduler: which tasks run, which wait at a suspension point, and
//! which scheduling decisions were made.
//!
//! Tasks register with the scheduler and run until they reach a suspension
//! point, where they wait. Whenever something changes, the scheduler looks
//! at the tasks: if a running task can progress, the tasks it needs are
//! resumed without a decision; otherwise one of the ways of resuming a
//! suspended task is chosen, at random or as a replay trace prescribes.
//! Every step is recorded in a trace.

pub mod get_runnable_tasks;

use crate::full_trace::{
    FullTraceTaskId, FullTraceTaskIdView, TaskRef, TaskRefView, TaskSnapshot, TaskSnapshotView,
    TraceView, TraceViewItem, TraceViewItemView, is_ranked, sort_by_rank, sorted_as, views_of,
};
use crate::keyed::{VecSet, key_views};
use crate::parsed_replay_trace::{
    ReplayStepView, ReplayTrace, ReplayTraceView, indices_in_range, lemma_parse_render, parse_trace,
    step_round_trips, text_round_trips, trace_text,
};
use crate::replay_trace::{
    AttachedReplayTrace, AttachedStepView, ReadyTask, attached_in_pool, attached_matches, decisions,
    ready_in_pool, ready_views, ref_stable_id, snapshot_entry, step_of_decision, step_outcome,
    item_error, item_strings, lemma_decision_origin, lemma_decisions_nonempty, lemma_snapshots_listed,
    lemma_snapshots_no_error, lemma_trace_error_at, lemma_trace_no_error, snapshot_strings, strings_in,
    trace_error, trace_strings_in,
};
use crate::scheduler::get_runnable_tasks::{
    NextSchedulerAction, TaskScheduleChoice, are_the_choices, get_eligible_scheduler_choices,
    is_dependency_path, is_ready_root, needed_by_running, reached_from, some_running_ready,
};
use crate::string_pool::{StringIdx, StringPool, lemma_pool_get_extends, pool_extends, pool_get};
use crate::sync_model::{
    BadSyncError, DynSyncModel, NotificationOutcome, ProcessSyncEvent, ProcessSyncInitEvent, RegistrySlot,
    SyncEvent, SyncInitEvent,
    SyncModelRegistry,
};
use crate::task::{TaskId, TaskSet, TaskStableId};
use crate::text::{
    chars_of, decimal, id_texts, joined, lemma_joined_step, lemma_text_lt_irreflexive,
    lemma_text_lt_total, lemma_text_lt_transitive, push_decimal, push_id_list, push_str, text_eq,
    free_of, text_less, text_lt,
};
use vstd::prelude::*;

verus! {

broadcast use vstd::seq_lib::group_seq_properties;

/// Where a task is.
#[derive(Debug, Clone, Copy)]
pub enum TaskState {
    /// Waiting at a suspension point until the scheduler resumes it.
    Suspended { point: StringIdx },
    /// Running. More than one task runs when a running task waits for
    /// others that it needs.
    Running,
    Finished,
}

pub enum TaskStateView {
    Suspended(usize),
    Running,
    Finished,
}

impl View for TaskState {
    type V = TaskStateView;

    open spec fn view(&self) -> TaskStateView {
        match self {
            TaskState::Suspended { point } => TaskStateView::Suspended(point@),
            TaskState::Running => TaskStateView::Running,
            TaskState::Finished => TaskStateView::Finished,
        }
    }
}

pub open spec fn opt_idx(o: Option<StringIdx>) -> Option<usize> {
    match o {
        Some(i) => Some(i@),
        None => None,
    }
}

pub open spec fn opt_stable(o: Option<TaskStableId>) -> Option<u64> {
    match o {
        Some(i) => Some(i@),
        None => None,
    }
}

/// A task known to the scheduler.
#[derive(Debug, Clone, Copy)]
pub struct Task {
    pub id: TaskId,
    pub stable_id: Option<TaskStableId>,
    /// The index of its name in the string pool.
    pub name: StringIdx,
    /// The point where it was last suspended, once it was resumed.
    pub prev_suspend_point: Option<StringIdx>,
    pub state: TaskState,
}

pub struct TaskView {
    pub id: u64,
    pub stable_id: Option<u64>,
    pub name: usize,
    pub prev_point: Option<usize>,
    pub state: TaskStateView,
}

impl View for Task {
    type V = TaskView;

    open spec fn view(&self) -> TaskView {
        TaskView {
            id: self.id@,
            stable_id: opt_stable(self.stable_id),
            name: self.name@,
            prev_point: opt_idx(self.prev_suspend_point),
            state: self.state@,
        }
    }
}

pub open spec fn with_state(t: TaskView, s: TaskStateView) -> TaskView {
    TaskView { id: t.id, stable_id: t.stable_id, name: t.name, prev_point: t.prev_point, state: s }
}

/// A task as a trace records it at a decision: its identity and the point
/// where it is (or was last) suspended.
#[derive(Debug, Clone, Copy)]
pub struct TraceTaskSnapshot {
    pub task_id: TaskId,
    pub point: Option<StringIdx>,
}

impl View for TraceTaskSnapshot {
    type V = (u64, Option<usize>);

    open spec fn view(&self) -> (u64, Option<usize>) {
        (self.task_id@, opt_idx(self.point))
    }
}

/// An event of the trace that the scheduler records.
#[derive(Debug, Clone)]
pub enum TraceEvent {
    TaskStarted(TaskId),
    TaskFinished(TaskId),
    TaskSuspended { task: TaskId, suspend_point: StringIdx },
    AutoResumedTasks {
        resumed_tasks: Vec<TaskId>,
        running_tasks: Vec<TraceTaskSnapshot>,
        suspended_tasks: Vec<TraceTaskSnapshot>,
    },
    ScheduleDecision {
        resumed_tasks: Vec<TaskId>,
        running_tasks: Vec<TraceTaskSnapshot>,
        suspended_tasks: Vec<TraceTaskSnapshot>,
        options: Vec<Vec<TaskId>>,
    },
}

pub enum TraceEventView {
    Started(u64),
    Finished(u64),
    Suspended(u64, usize),
    AutoResumed {
        resumed: Seq<u64>,
        running: Seq<(u64, Option<usize>)>,
        suspended: Seq<(u64, Option<usize>)>,
    },
    Decision {
        resumed: Seq<u64>,
        running: Seq<(u64, Option<usize>)>,
        suspended: Seq<(u64, Option<usize>)>,
        options: Seq<Seq<u64>>,
    },
}

pub open spec fn ids_view(v: Seq<TaskId>) -> Seq<u64> {
    v.map_values(|t: TaskId| t@)
}

pub open spec fn snapshots_view(v: Seq<TraceTaskSnapshot>) -> Seq<(u64, Option<usize>)> {
    v.map_values(|t: TraceTaskSnapshot| t@)
}

pub open spec fn options_view(v: Seq<Vec<TaskId>>) -> Seq<Seq<u64>> {
    v.map_values(|o: Vec<TaskId>| ids_view(o@))
}

impl View for TraceEvent {
    type V = TraceEventView;

    open spec fn view(&self) -> TraceEventView {
        match self {
            TraceEvent::TaskStarted(id) => TraceEventView::Started(id@),
            TraceEvent::TaskFinished(id) => TraceEventView::Finished(id@),
            TraceEvent::TaskSuspended { task, suspend_point } => TraceEventView::Suspended(
                task@,
                suspend_point@,
            ),
            TraceEvent::AutoResumedTasks { resumed_tasks, running_tasks, suspended_tasks } =>
                TraceEventView::AutoResumed {
                resumed: ids_view(resumed_tasks@),
                running: snapshots_view(running_tasks@),
                suspended: snapshots_view(suspended_tasks@),
            },
            TraceEvent::ScheduleDecision {
                resumed_tasks,
                running_tasks,
                suspended_tasks,
                options,
            } => TraceEventView::Decision {
                resumed: ids_view(resumed_tasks@),
                running: snapshots_view(running_tasks@),
                suspended: snapshots_view(suspended_tasks@),
                options: options_view(options@),
            },
        }
    }
}

/// The replay trace that the scheduler follows, and the step it is at.
#[derive(Debug)]
pub struct ReplayState {
    pub trace: AttachedReplayTrace,
    pub next_step: usize,
}

pub struct ReplayView {
    pub steps: Seq<AttachedStepView>,
    pub next_step: usize,
}

/// How the scheduler chooses when it is not replaying.
#[derive(Debug)]
pub enum TaskSelector {
    Random(RandomTaskSelector),
}

/// Chooses uniformly at random.
#[derive(Debug)]
pub struct RandomTaskSelector;

impl RandomTaskSelector {
    pub fn new() -> (r: Self) {
        RandomTaskSelector
    }
}

/// A number in `0..bound`, drawn by `rand::random_range`.
#[verifier::external_body]
fn random_below(bound: usize) -> (r: usize)
    requires
        bound > 0,
    ensures
        r < bound,
{
    rand::random_range(0..bound)
}

impl RandomTaskSelector {
    /// The index of one of `n` choices, drawn at random.
    pub fn choose_next_running_task(&mut self, n: usize) -> (r: usize)
        requires
            n > 0,
        ensures
            r < n,
    {
        random_below(n)
    }
}

impl TaskSelector {
    /// The index of one of `n` choices.
    pub fn choose_next_running_task(&mut self, n: usize) -> (r: usize)
        requires
            n > 0,
        ensures
            r < n,
    {
        match self {
            TaskSelector::Random(selector) => selector.choose_next_running_task(n),
        }
    }
}

/// How many of the tasks have a stable identity.
pub open spec fn count_stable(ts: Seq<TaskView>) -> nat
    decreases ts.len(),
{
    if ts.len() == 0 {
        0
    } else {
        count_stable(ts.drop_last()) + if ts.last().stable_id is Some {
            1nat
        } else {
            0nat
        }
    }
}

proof fn lemma_count_stable_bound(ts: Seq<TaskView>)
    ensures
        count_stable(ts) <= ts.len(),
    decreases ts.len(),
{
    if ts.len() > 0 {
        lemma_count_stable_bound(ts.drop_last());
    }
}

proof fn lemma_count_stable_same(a: Seq<TaskView>, b: Seq<TaskView>)
    requires
        a.len() == b.len(),
        forall|i: int| 0 <= i < a.len() ==> (#[trigger] a[i].stable_id is Some) == (b[i].stable_id is Some),
    ensures
        count_stable(a) == count_stable(b),
    decreases a.len(),
{
    if a.len() > 0 {
        lemma_count_stable_same(a.drop_last(), b.drop_last());
    }
}

/// The task's name and points are strings of the pool.
pub open spec fn task_in_pool(t: TaskView, pool: Seq<Seq<char>>) -> bool {
    &&& pool_get(pool, t.name) is Some
    &&& (t.prev_point matches Some(p) ==> pool_get(pool, p) is Some)
    &&& (t.state matches TaskStateView::Suspended(p) ==> pool_get(pool, p) is Some)
}

pub open spec fn valid_task_id(n: nat, id: u64) -> bool {
    1 <= id <= n
}

pub open spec fn snapshots_ok(s: Seq<(u64, Option<usize>)>, n: nat, pool: Seq<Seq<char>>) -> bool {
    forall|k: int|
        0 <= k < s.len() ==> {
            &&& valid_task_id(n, (#[trigger] s[k]).0)
            &&& (s[k].1 matches Some(p) ==> pool_get(pool, p) is Some)
        }
}

pub open spec fn ids_ok(s: Seq<u64>, n: nat) -> bool {
    forall|k: int| 0 <= k < s.len() ==> valid_task_id(n, #[trigger] s[k])
}

/// The event names tasks among the first `n` and strings of the pool.
pub open spec fn event_ok(e: TraceEventView, n: nat, pool: Seq<Seq<char>>) -> bool {
    match e {
        TraceEventView::Started(id) => valid_task_id(n, id),
        TraceEventView::Finished(id) => valid_task_id(n, id),
        TraceEventView::Suspended(id, p) => valid_task_id(n, id) && pool_get(pool, p) is Some,
        TraceEventView::AutoResumed { resumed, running, suspended } => {
            &&& ids_ok(resumed, n)
            &&& snapshots_ok(running, n, pool)
            &&& snapshots_ok(suspended, n, pool)
        },
        TraceEventView::Decision { resumed, running, suspended, options } => {
            &&& ids_ok(resumed, n)
            &&& snapshots_ok(running, n, pool)
            &&& snapshots_ok(suspended, n, pool)
            &&& forall|k: int| 0 <= k < options.len() ==> ids_ok(#[trigger] options[k], n)
            &&& resumed.len() >= 1
            &&& suspended.len() >= 1
        },
    }
}

/// A decision names its tasks by their stable identities, and each suspended
/// task with its point.
pub open spec fn decision_named(ts: Seq<TaskView>, e: TraceEventView) -> bool {
    match e {
        TraceEventView::Decision { resumed, suspended, .. } => {
            &&& forall|k: int| 0 <= k < resumed.len() ==> ts[#[trigger] resumed[k] - 1].stable_id is Some
            &&& forall|k: int|
                0 <= k < suspended.len() ==> ts[(#[trigger] suspended[k]).0 - 1].stable_id is Some
                    && suspended[k].1 is Some
        },
        _ => true,
    }
}

proof fn lemma_task_in_pool_mono(t: TaskView, a: Seq<Seq<char>>, b: Seq<Seq<char>>)
    requires
        task_in_pool(t, a),
        pool_extends(b, a),
    ensures
        task_in_pool(t, b),
{
    lemma_pool_get_extends(b, a, t.name);
    if let Some(p) = t.prev_point {
        lemma_pool_get_extends(b, a, p);
    }
    if let TaskStateView::Suspended(p) = t.state {
        lemma_pool_get_extends(b, a, p);
    }
}

proof fn lemma_snapshots_ok_mono(
    s: Seq<(u64, Option<usize>)>,
    n: nat,
    n2: nat,
    a: Seq<Seq<char>>,
    b: Seq<Seq<char>>,
)
    requires
        snapshots_ok(s, n, a),
        n <= n2,
        pool_extends(b, a),
    ensures
        snapshots_ok(s, n2, b),
{
    assert forall|k: int| 0 <= k < s.len() implies {
        &&& valid_task_id(n2, (#[trigger] s[k]).0)
        &&& (s[k].1 matches Some(p) ==> pool_get(b, p) is Some)
    } by {
        if let Some(p) = s[k].1 {
            lemma_pool_get_extends(b, a, p);
        }
    }
}

proof fn lemma_event_ok_mono(e: TraceEventView, n: nat, n2: nat, a: Seq<Seq<char>>, b: Seq<Seq<char>>)
    requires
        event_ok(e, n, a),
        n <= n2,
        pool_extends(b, a),
    ensures
        event_ok(e, n2, b),
{
    match e {
        TraceEventView::Suspended(id, p) => {
            lemma_pool_get_extends(b, a, p);
        },
        TraceEventView::AutoResumed { resumed, running, suspended } => {
            lemma_snapshots_ok_mono(running, n, n2, a, b);
            lemma_snapshots_ok_mono(suspended, n, n2, a, b);
        },
        TraceEventView::Decision { resumed, running, suspended, options } => {
            lemma_snapshots_ok_mono(running, n, n2, a, b);
            lemma_snapshots_ok_mono(suspended, n, n2, a, b);
            assert forall|k: int| 0 <= k < options.len() implies ids_ok(#[trigger] options[k], n2) by {
                assert(ids_ok(options[k], n));
            }
        },
        _ => {},
    }
}

proof fn lemma_attached_in_pool_mono(t: Seq<AttachedStepView>, a: Seq<Seq<char>>, b: Seq<Seq<char>>)
    requires
        attached_in_pool(t, a),
        pool_extends(b, a),
    ensures
        attached_in_pool(t, b),
{
    assert forall|i: int, j: int| 0 <= i < t.len() && 0 <= j < t[i].ready.len() implies {
        let x = #[trigger] t[i].ready[j];
        &&& pool_get(b, x.1) is Some
        &&& pool_get(b, x.2) is Some
    } by {
        let x = t[i].ready[j];
        lemma_pool_get_extends(b, a, x.1);
        lemma_pool_get_extends(b, a, x.2);
    }
}

/// How a task that does not run is shown in the error for reaching a point.
pub open spec fn state_debug(s: TaskStateView) -> Seq<char> {
    match s {
        TaskStateView::Suspended(p) => "Suspended { point: StringIdx("@ + decimal(p as nat) + ") }"@,
        TaskStateView::Running => "Running"@,
        TaskStateView::Finished => "Finished"@,
    }
}

/// The error for a task that reaches a point while it does not run.
pub open spec fn not_running_message(id: u64, name: usize, point: usize, s: TaskStateView) -> Seq<
    char,
> {
    "task "@ + decimal(id as nat) + " "@ + decimal(name as nat) + " reached point "@ + decimal(
        point as nat,
    ) + ", but its state is not Running, but rather is "@ + state_debug(s)
        + ".\n  This might mean that an internal task concurrency is happening (e.g., join or FuturesUnordered).\n  If this is the case, each spawned task must be wrapped with `task`"@
}

fn not_running_text(id: TaskId, name: StringIdx, point: StringIdx, state: TaskState) -> (r: String)
    ensures
        r@ == not_running_message(id@, name@, point@, state@),
{
    let mut m = "task ".to_string();
    push_decimal(&mut m, id.get());
    push_str(&mut m, " ");
    push_decimal(&mut m, name.as_usize() as u64);
    push_str(&mut m, " reached point ");
    push_decimal(&mut m, point.as_usize() as u64);
    push_str(&mut m, ", but its state is not Running, but rather is ");
    let ghost before = m@;
    match state {
        TaskState::Suspended { point: p } => {
            let mut d = "Suspended { point: StringIdx(".to_string();
            push_decimal(&mut d, p.as_usize() as u64);
            push_str(&mut d, ") }");
            push_str(&mut m, d.as_str());
        },
        TaskState::Running => {
            push_str(&mut m, "Running");
        },
        TaskState::Finished => {
            push_str(&mut m, "Finished");
        },
    }
    push_str(
        &mut m,
        ".\n  This might mean that an internal task concurrency is happening (e.g., join or FuturesUnordered).\n  If this is the case, each spawned task must be wrapped with `task`",
    );
    m
}

/// What suspending a task at a point does: a running task becomes
/// suspended there and the trace records it (unless the scheduler has
/// stopped on an error); any other task is an error and nothing changes.
pub open spec fn suspend_outcome(
    tasks: Seq<TaskView>,
    events: Seq<TraceEventView>,
    failure: Option<Seq<char>>,
    task_id: u64,
    point: usize,
    tasks2: Seq<TaskView>,
    events2: Seq<TraceEventView>,
    r: Result<(), String>,
) -> bool {
    let t = tasks[task_id - 1];
    if t.state is Running {
        &&& r is Ok
        &&& tasks2 == tasks.update(task_id - 1, with_state(t, TaskStateView::Suspended(point)))
        &&& events2 == if failure is None {
            events.push(TraceEventView::Suspended(task_id, point))
        } else {
            events
        }
    } else {
        &&& r matches Err(m) && m@ == not_running_message(task_id, t.name, point, t.state)
        &&& tasks2 == tasks
        &&& events2 == events
    }
}

/// The tasks that run.
pub open spec fn running_ids(ts: Seq<TaskView>) -> Set<u64> {
    Set::new(|id: u64| valid_task_id(ts.len(), id) && ts[id - 1].state is Running)
}

/// The tasks that are suspended.
pub open spec fn suspended_ids(ts: Seq<TaskView>) -> Set<u64> {
    Set::new(|id: u64| valid_task_id(ts.len(), id) && ts[id - 1].state is Suspended)
}

/// The running tasks as a trace records them, in task order.
pub open spec fn running_snapshots(ts: Seq<TaskView>) -> Seq<(u64, Option<usize>)>
    decreases ts.len(),
{
    if ts.len() == 0 {
        Seq::empty()
    } else {
        let rest = running_snapshots(ts.drop_last());
        let t = ts.last();
        if t.state is Running {
            rest.push((t.id, t.prev_point))
        } else {
            rest
        }
    }
}

/// The suspended tasks as a trace records them, in task order.
pub open spec fn suspended_snapshots(ts: Seq<TaskView>) -> Seq<(u64, Option<usize>)>
    decreases ts.len(),
{
    if ts.len() == 0 {
        Seq::empty()
    } else {
        let rest = suspended_snapshots(ts.drop_last());
        let t = ts.last();
        match t.state {
            TaskStateView::Suspended(p) => rest.push((t.id, Some(p))),
            _ => rest,
        }
    }
}

/// A task that can be resumed: a known, suspended task.
pub open spec fn resumable(ts: Seq<TaskView>, id: u64) -> bool {
    valid_task_id(ts.len(), id) && ts[id - 1].state is Suspended
}

/// The task, resumed: it runs, and remembers the point it was suspended at.
pub open spec fn resumed_task(t: TaskView) -> TaskView {
    TaskView {
        id: t.id,
        stable_id: t.stable_id,
        name: t.name,
        prev_point: match t.state {
            TaskStateView::Suspended(p) => Some(p),
            _ => t.prev_point,
        },
        state: TaskStateView::Running,
    }
}

/// The tasks after the tasks of `s` are resumed.
pub open spec fn resume_all(ts: Seq<TaskView>, s: Set<u64>) -> Seq<TaskView> {
    Seq::new(ts.len(), |i: int| if s.contains(ts[i].id) { resumed_task(ts[i]) } else { ts[i] })
}

/// The error for a task that is to be resumed but cannot be.
pub open spec fn resume_error(ts: Seq<TaskView>, id: u64) -> Seq<char> {
    if valid_task_id(ts.len(), id) {
        "Internal error: task "@ + decimal(id as nat) + " "@ + decimal(ts[id - 1].name as nat)
            + " is selected to run, but its state was not Suspended, but rather is "@ + state_debug(
            ts[id - 1].state,
        ) + "."@
    } else {
        "Internal error: task "@ + decimal(id as nat) + " is selected to run, but it is not known."@
    }
}

/// Resuming the tasks of `s`, in this order, fails at the first that cannot
/// be resumed, with its error.
pub open spec fn resume_fails_with(ts: Seq<TaskView>, s: Seq<u64>, m: Seq<char>) -> bool {
    exists|k: int|
        0 <= k < s.len() && !resumable(ts, #[trigger] s[k]) && (forall|j: int|
            0 <= j < k ==> resumable(ts, #[trigger] s[j])) && m == resume_error(ts, s[k])
}

/// A suspended task that has no stable identity yet.
pub open spec fn is_new_task(t: TaskView) -> bool {
    t.state is Suspended && t.stable_id is None
}

/// The name of the task.
pub open spec fn name_of(pool: Seq<Seq<char>>, t: TaskView) -> Seq<char> {
    pool_get(pool, t.name).unwrap()
}

/// The order in which new tasks get stable identities: by name, then by
/// identity.
pub open spec fn key_before(pool: Seq<Seq<char>>, a: TaskView, b: TaskView) -> bool {
    text_lt(name_of(pool, a), name_of(pool, b)) || (name_of(pool, a) == name_of(pool, b) && a.id
        < b.id)
}

/// How many of the tasks are new.
pub open spec fn count_new(ts: Seq<TaskView>) -> nat
    decreases ts.len(),
{
    if ts.len() == 0 {
        0
    } else {
        count_new(ts.drop_last()) + if is_new_task(ts.last()) {
            1nat
        } else {
            0nat
        }
    }
}

/// How many of the new tasks come before `t`.
pub open spec fn new_rank(ts: Seq<TaskView>, pool: Seq<Seq<char>>, t: TaskView) -> nat
    decreases ts.len(),
{
    if ts.len() == 0 {
        0
    } else {
        new_rank(ts.drop_last(), pool, t) + if is_new_task(ts.last()) && key_before(
            pool,
            ts.last(),
            t,
        ) {
            1nat
        } else {
            0nat
        }
    }
}

pub open spec fn with_stable(t: TaskView, id: u64) -> TaskView {
    TaskView { id: t.id, stable_id: Some(id), name: t.name, prev_point: t.prev_point, state: t.state }
}

/// The tasks once every new task has a stable identity: taken in the order
/// of `key_before`, they get consecutive identities from `next`.
pub open spec fn with_stable_ids(ts: Seq<TaskView>, pool: Seq<Seq<char>>, next: u64) -> Seq<TaskView> {
    Seq::new(
        ts.len(),
        |i: int|
            if is_new_task(ts[i]) {
                with_stable(ts[i], (next + new_rank(ts, pool, ts[i])) as u64)
            } else {
                ts[i]
            },
    )
}

proof fn lemma_key_before_transitive(pool: Seq<Seq<char>>, a: TaskView, b: TaskView, c: TaskView)
    requires
        key_before(pool, a, b),
        key_before(pool, b, c),
    ensures
        key_before(pool, a, c),
{
    if text_lt(name_of(pool, a), name_of(pool, b)) && text_lt(name_of(pool, b), name_of(pool, c)) {
        lemma_text_lt_transitive(name_of(pool, a), name_of(pool, b), name_of(pool, c));
    }
}

proof fn lemma_key_before_irreflexive(pool: Seq<Seq<char>>, a: TaskView)
    ensures
        !key_before(pool, a, a),
{
    lemma_text_lt_irreflexive(name_of(pool, a));
}

/// A task that comes after another in name order has no smaller rank among
/// the new tasks, and a larger one when the earlier task is itself new.
proof fn lemma_new_rank_monotonic(ts: Seq<TaskView>, pool: Seq<Seq<char>>, a: TaskView, b: TaskView)
    requires
        key_before(pool, a, b),
    ensures
        new_rank(ts, pool, a) <= new_rank(ts, pool, b),
        (exists|k: int| 0 <= k < ts.len() && ts[k] == a) && is_new_task(a) ==> new_rank(ts, pool, a) < new_rank(
            ts,
            pool,
            b,
        ),
    decreases ts.len(),
{
    if ts.len() > 0 {
        let rest = ts.drop_last();
        lemma_new_rank_monotonic(rest, pool, a, b);
        let l = ts.last();
        if key_before(pool, l, a) {
            lemma_key_before_transitive(pool, l, a, b);
        }
        if l == a {
            lemma_key_before_irreflexive(pool, a);
        }
        if (exists|k: int| 0 <= k < ts.len() && ts[k] == a) && is_new_task(a) && l != a {
            let k = choose|k: int| 0 <= k < ts.len() && ts[k] == a;
            assert(rest[k] == a);
        }
    }
}

/// Suspended tasks without a stable identity get them in the order of
/// their names (then of their identities): a task whose name comes first
/// gets the smaller one. Each new identity lies from `next` on, below
/// `next` plus the number of new tasks, and tasks that are not new keep
/// theirs.
pub proof fn lemma_stable_ids_in_name_order(ts: Seq<TaskView>, pool: Seq<Seq<char>>, next: u64, i: int, j: int)
    requires
        0 <= i < ts.len(),
        0 <= j < ts.len(),
        next + count_new(ts) <= u64::MAX,
    ensures
        is_new_task(ts[i]) ==> with_stable_ids(ts, pool, next)[i].stable_id is Some && next
            <= with_stable_ids(ts, pool, next)[i].stable_id.unwrap() < next + count_new(ts),
        !is_new_task(ts[i]) ==> with_stable_ids(ts, pool, next)[i] == ts[i],
        is_new_task(ts[i]) && is_new_task(ts[j]) && (text_lt(name_of(pool, ts[i]), name_of(pool, ts[j])) || (
        name_of(pool, ts[i]) == name_of(pool, ts[j]) && ts[i].id < ts[j].id)) ==> with_stable_ids(
            ts,
            pool,
            next,
        )[i].stable_id.unwrap() < with_stable_ids(ts, pool, next)[j].stable_id.unwrap(),
{
    lemma_new_rank_bound(ts, pool, ts[i]);
    lemma_new_rank_bound(ts, pool, ts[j]);
    if is_new_task(ts[i]) {
        lemma_new_rank_strict_bound(ts, pool, i);
    }
    if is_new_task(ts[i]) && is_new_task(ts[j]) && key_before(pool, ts[i], ts[j]) {
        lemma_new_rank_monotonic(ts, pool, ts[i], ts[j]);
        lemma_new_rank_strict_bound(ts, pool, j);
    }
}

/// A new task's rank is below the number of new tasks.
proof fn lemma_new_rank_strict_bound(ts: Seq<TaskView>, pool: Seq<Seq<char>>, i: int)
    requires
        0 <= i < ts.len(),
        is_new_task(ts[i]),
    ensures
        new_rank(ts, pool, ts[i]) < count_new(ts),
    decreases ts.len(),
{
    let t = ts[i];
    let rest = ts.drop_last();
    if i < ts.len() - 1 {
        assert(rest[i] == t);
        lemma_new_rank_strict_bound(rest, pool, i);
    } else {
        lemma_new_rank_bound(rest, pool, t);
        lemma_key_before_irreflexive(pool, t);
    }
}

proof fn lemma_new_rank_bound(ts: Seq<TaskView>, pool: Seq<Seq<char>>, t: TaskView)
    ensures
        new_rank(ts, pool, t) <= count_new(ts),
    decreases ts.len(),
{
    if ts.len() > 0 {
        lemma_new_rank_bound(ts.drop_last(), pool, t);
    }
}

proof fn lemma_count_new_stable(ts: Seq<TaskView>)
    ensures
        count_new(ts) + count_stable(ts) <= ts.len(),
    decreases ts.len(),
{
    if ts.len() > 0 {
        lemma_count_new_stable(ts.drop_last());
    }
}

proof fn lemma_count_stable_after(a: Seq<TaskView>, b: Seq<TaskView>)
    requires
        a.len() == b.len(),
        forall|i: int|
            0 <= i < a.len() ==> (#[trigger] b[i].stable_id is Some) == (a[i].stable_id is Some
                || is_new_task(a[i])),
    ensures
        count_stable(b) == count_stable(a) + count_new(a),
    decreases a.len(),
{
    if a.len() > 0 {
        let (a2, b2) = (a.drop_last(), b.drop_last());
        assert forall|i: int| 0 <= i < a2.len() implies (#[trigger] b2[i].stable_id is Some) == (
        a2[i].stable_id is Some || is_new_task(a2[i])) by {
            assert(b2[i] == b[i] && a2[i] == a[i]);
        }
        lemma_count_stable_after(a2, b2);
        assert(b.last() == b[a.len() - 1]);
    }
}

/// The options of a decision: the tasks each choice resumes.
pub open spec fn choice_options(cs: Seq<TaskScheduleChoice>) -> Seq<Seq<u64>> {
    cs.map_values(|c: TaskScheduleChoice| c.to_run.seq())
}

/// The trace after resuming `resumed` with nothing to choose.
pub open spec fn auto_events(
    events: Seq<TraceEventView>,
    failure: Option<Seq<char>>,
    resumed: Seq<u64>,
    ts: Seq<TaskView>,
) -> Seq<TraceEventView> {
    if failure is None {
        events.push(
            TraceEventView::AutoResumed {
                resumed,
                running: running_snapshots(ts),
                suspended: suspended_snapshots(ts),
            },
        )
    } else {
        events
    }
}

/// The trace after deciding to resume `resumed` among `options`.
pub open spec fn decision_events(
    events: Seq<TraceEventView>,
    failure: Option<Seq<char>>,
    resumed: Seq<u64>,
    ts: Seq<TaskView>,
    options: Seq<Seq<u64>>,
) -> Seq<TraceEventView> {
    if failure is None {
        events.push(
            TraceEventView::Decision {
                resumed,
                running: running_snapshots(ts),
                suspended: suspended_snapshots(ts),
                options,
            },
        )
    } else {
        events
    }
}

/// Every task of every choice is known.
pub open spec fn options_known(ts: Seq<TaskView>, cs: Seq<TaskScheduleChoice>) -> bool {
    forall|k: int, id: u64|
        0 <= k < cs.len() && #[trigger] cs[k].to_run@.contains(id) ==> valid_task_id(ts.len(), id)
}

/// What deciding for choice `k` does: the decision is recorded and its tasks
/// resumed; a choice with an unknown task, or a chosen task that is not
/// suspended, is an error and nothing changes.
pub open spec fn decided(
    events: Seq<TraceEventView>,
    failure: Option<Seq<char>>,
    ts: Seq<TaskView>,
    cs: Seq<TaskScheduleChoice>,
    k: int,
    ts2: Seq<TaskView>,
    events2: Seq<TraceEventView>,
    r: Result<bool, String>,
) -> bool {
    let c = cs[k];
    if !options_known(ts, cs) {
        &&& r matches Err(m) && exists|j: int, id: u64|
            0 <= j < cs.len() && #[trigger] cs[j].to_run@.contains(id) && !valid_task_id(ts.len(), id)
                && m@ == resume_error(ts, id)
        &&& ts2 == ts
        &&& events2 == events
    } else if forall|id: u64| c.to_run@.contains(id) ==> resumable(ts, id) {
        &&& r == Ok::<bool, String>(true)
        &&& ts2 == resume_all(ts, c.to_run@)
        &&& events2 == decision_events(events, failure, c.to_run.seq(), ts, choice_options(cs))
    } else {
        &&& r matches Err(m) && resume_fails_with(ts, c.to_run.seq(), m@)
        &&& ts2 == ts
        &&& events2 == events
    }
}

proof fn lemma_snapshots_ok(ts: Seq<TaskView>, pool: Seq<Seq<char>>)
    requires
        forall|i: int| 0 <= i < ts.len() ==> (#[trigger] ts[i]).id == i + 1,
        forall|i: int| 0 <= i < ts.len() ==> task_in_pool(#[trigger] ts[i], pool),
    ensures
        snapshots_ok(running_snapshots(ts), ts.len(), pool),
        snapshots_ok(suspended_snapshots(ts), ts.len(), pool),
    decreases ts.len(),
{
    if ts.len() > 0 {
        let rest = ts.drop_last();
        assert forall|i: int| 0 <= i < rest.len() implies (#[trigger] rest[i]).id == i + 1 && task_in_pool(
            rest[i],
            pool,
        ) by {
            assert(rest[i] == ts[i]);
        }
        lemma_snapshots_ok(rest, pool);
        assert(ts.last() == ts[ts.len() - 1]);
        assert(task_in_pool(ts.last(), pool));
    }
}

/// The suspended tasks as a replay step lists them: stable identity, name
/// and point.
pub open spec fn suspended_ready(ts: Seq<TaskView>) -> Seq<(u64, usize, usize)>
    decreases ts.len(),
{
    if ts.len() == 0 {
        Seq::empty()
    } else {
        let rest = suspended_ready(ts.drop_last());
        let t = ts.last();
        match t.state {
            TaskStateView::Suspended(p) => rest.push((t.stable_id.unwrap(), t.name, p)),
            _ => rest,
        }
    }
}

/// Every suspended task has a stable identity.
pub open spec fn suspended_have_stable_ids(ts: Seq<TaskView>) -> bool {
    forall|i: int| 0 <= i < ts.len() && (#[trigger] ts[i]).state is Suspended ==> ts[i].stable_id is Some
}

/// Every task of the choice is known and has a stable identity.
pub open spec fn choice_has_stable_ids(ts: Seq<TaskView>, c: TaskScheduleChoice) -> bool {
    forall|id: u64| #[trigger] c.to_run@.contains(id) ==> valid_task_id(ts.len(), id) && ts[id - 1].stable_id is Some
}

/// The stable identities of the tasks of the choice.
pub open spec fn choice_stable_set(ts: Seq<TaskView>, c: TaskScheduleChoice) -> Set<u64> {
    Set::new(|s: u64| exists|id: u64| #[trigger] c.to_run@.contains(id) && ts[id - 1].stable_id == Some(s))
}

/// A choice of the right size whose tasks cannot all be named by stable
/// identities.
pub open spec fn choice_invalid(ts: Seq<TaskView>, c: TaskScheduleChoice, resumed: Seq<u64>) -> bool {
    c.to_run.seq().len() == resumed.len() && !choice_has_stable_ids(ts, c)
}

/// The choice resumes exactly the tasks that the replay step resumed.
pub open spec fn choice_matches(ts: Seq<TaskView>, c: TaskScheduleChoice, resumed: Seq<u64>) -> bool {
    &&& c.to_run.seq().len() == resumed.len()
    &&& choice_has_stable_ids(ts, c)
    &&& choice_stable_set(ts, c) == resumed.to_set()
}

/// None of the first `k` choices is invalid or matches.
pub open spec fn scan_clear(ts: Seq<TaskView>, cs: Seq<TaskScheduleChoice>, resumed: Seq<u64>, k: int) -> bool {
    forall|j: int|
        0 <= j < k ==> !choice_invalid(ts, #[trigger] cs[j], resumed) && !choice_matches(ts, cs[j], resumed)
}

/// The error for a run that leaves the replay at a step.
pub open spec fn diverged_message(step: usize, e: Seq<char>) -> Seq<char> {
    "task execution has diverged at step "@ + decimal(step as nat) + ": "@ + e
}

/// How a choice is shown in an error.
pub open spec fn choice_text(c: TaskScheduleChoice) -> Seq<char> {
    "TaskScheduleChoice { chosen_task: TaskId("@ + decimal(c.chosen_task@ as nat) + "), to_run: {"@
        + joined(id_texts("TaskId("@, c.to_run.seq()), ", "@) + "} }"@
}

pub open spec fn choice_texts(cs: Seq<TaskScheduleChoice>) -> Seq<Seq<char>> {
    Seq::new(cs.len(), |i: int| choice_text(cs[i]))
}

/// The error for a replay step that resumed tasks that no choice resumes.
pub open spec fn not_found_message(resumed: Seq<u64>, cs: Seq<TaskScheduleChoice>) -> Seq<char> {
    "did not find resumed_tasks ["@ + joined(id_texts("TaskStableId("@, resumed), ", "@)
        + "] among possible choices ["@ + joined(choice_texts(cs), ", "@) + "]"@
}

fn push_choice(out: &mut String, c: &TaskScheduleChoice)
    ensures
        final(out)@ == old(out)@ + choice_text(*c),
{
    push_str(out, "TaskScheduleChoice { chosen_task: TaskId(");
    push_decimal(out, c.chosen_task.get());
    push_str(out, "), to_run: {");
    let v = c.to_run.to_vec();
    let mut ids: Vec<u64> = Vec::new();
    let mut i: usize = 0;
    while i < v.len()
        invariant
            i <= v@.len(),
            ids@ == key_views(v@).take(i as int),
        decreases v@.len() - i,
    {
        let ghost before = ids@;
        ids.push(v[i].get());
        proof {
            assert(key_views(v@).take(i + 1) =~= before.push(v@[i as int]@));
        }
        i = i + 1;
    }
    proof {
        assert(key_views(v@).take(i as int) =~= key_views(v@));
    }
    push_id_list(out, "TaskId(", &ids);
    push_str(out, "} }");
    proof {
        assert(final(out)@ =~= old(out)@ + choice_text(*c));
    }
}

fn push_choice_list(out: &mut String, cs: &Vec<TaskScheduleChoice>)
    ensures
        final(out)@ == old(out)@ + joined(choice_texts(cs@), ", "@),
{
    let ghost start = out@;
    let ghost texts = choice_texts(cs@);
    proof {
        assert(start + joined(texts.take(0), ", "@) =~= start);
    }
    let mut i: usize = 0;
    while i < cs.len()
        invariant
            i <= cs@.len(),
            texts == choice_texts(cs@),
            out@ == start + joined(texts.take(i as int), ", "@),
        decreases cs@.len() - i,
    {
        if i > 0 {
            push_str(out, ", ");
        }
        push_choice(out, &cs[i]);
        proof {
            lemma_joined_step(texts, ", "@, i as int);
            assert(out@ =~= start + joined(texts.take(i + 1), ", "@));
        }
        i = i + 1;
    }
    proof {
        assert(texts.take(i as int) =~= texts);
    }
}

/// What following the replay step gives, once the step names the tasks it
/// resumes: the first choice that resumes them, or an error.
pub open spec fn replay_pick(
    ts: Seq<TaskView>,
    cs: Seq<TaskScheduleChoice>,
    resumed: Seq<u64>,
    rv: ReplayView,
    failure: Option<Seq<char>>,
    failure2: Option<Seq<char>>,
    replay2: Option<ReplayView>,
    r: Result<usize, String>,
) -> bool {
    match r {
        Ok(k) => {
            &&& k < cs.len()
            &&& scan_clear(ts, cs, resumed, k as int)
            &&& choice_matches(ts, cs[k as int], resumed)
            &&& failure2 == failure
            &&& replay2 == Some(ReplayView { steps: rv.steps, next_step: (rv.next_step + 1) as usize })
        },
        Err(m) => {
            &&& replay2 == Some(rv)
            &&& ((exists|k: int|
                0 <= k < cs.len() && scan_clear(ts, cs, resumed, k) && #[trigger] choice_invalid(
                    ts,
                    cs[k],
                    resumed,
                ) && m@ == "suspended task has stable id"@ && failure2 == failure) || (scan_clear(
                ts,
                cs,
                resumed,
                cs.len() as int,
            ) && m@ == diverged_message(rv.next_step, not_found_message(resumed, cs)) && failure2
                == Some(m@)))
        },
    }
}

/// What following the replay does at a decision among the choices.
pub open spec fn replay_outcome(
    ts: Seq<TaskView>,
    pool: Seq<Seq<char>>,
    cs: Seq<TaskScheduleChoice>,
    rv: ReplayView,
    failure: Option<Seq<char>>,
    failure2: Option<Seq<char>>,
    replay2: Option<ReplayView>,
    r: Result<usize, String>,
) -> bool {
    match step_outcome(rv.steps, rv.next_step as int, suspended_ready(ts), pool) {
        Err(e) => {
            &&& r matches Err(m) && m@ == diverged_message(rv.next_step, e) && failure2 == Some(m@)
            &&& replay2 == Some(rv)
        },
        Ok(resumed) => replay_pick(ts, cs, resumed, rv, failure, failure2, replay2, r),
    }
}

fn diverged_text(step: usize, e: &str) -> (r: String)
    ensures
        r@ == diverged_message(step, e@),
{
    let mut m = "task execution has diverged at step ".to_string();
    push_decimal(&mut m, step as u64);
    push_str(&mut m, ": ");
    push_str(&mut m, e);
    m
}

/// A round in which running tasks can progress: the tasks they need (`need`)
/// are resumed, and the trace records it, with nothing to choose.
pub open spec fn auto_step<X>(
    a: SchedulerState<X>,
    b: SchedulerState<X>,
    need: Set<u64>,
    r: Result<bool, String>,
) -> bool {
    let ts = a.tasks();
    &&& b.next_stable() == a.next_stable()
    &&& b.replay() == a.replay()
    &&& b.failure() == a.failure()
    &&& if need.is_empty() {
        &&& r == Ok::<bool, String>(false)
        &&& b.tasks() == ts
        &&& b.events() == a.events()
    } else if forall|id: u64| need.contains(id) ==> resumable(ts, id) {
        &&& r == Ok::<bool, String>(true)
        &&& b.tasks() == resume_all(ts, need)
        &&& exists|s: Seq<u64>|
            s.no_duplicates() && #[trigger] s.to_set() == need && b.events() == auto_events(
                a.events(),
                a.failure(),
                s,
                ts,
            )
    } else {
        &&& r matches Err(m) && exists|s: Seq<u64>|
            s.no_duplicates() && #[trigger] s.to_set() == need && resume_fails_with(ts, s, m@)
        &&& b.tasks() == ts
        &&& b.events() == a.events()
    }
}

/// A round in which no running task can progress and `cs` are the choices:
/// new suspended tasks get stable identities, then one choice is taken, at
/// random or as the replay prescribes.
pub open spec fn choice_step<X>(
    a: SchedulerState<X>,
    b: SchedulerState<X>,
    cs: Seq<TaskScheduleChoice>,
    r: Result<bool, String>,
) -> bool {
    let ts = a.tasks();
    if cs.len() == 0 {
        &&& r == Ok::<bool, String>(false)
        &&& b.tasks() == ts
        &&& b.events() == a.events()
        &&& b.next_stable() == a.next_stable()
        &&& b.replay() == a.replay()
        &&& b.failure() == a.failure()
    } else {
        let ts1 = with_stable_ids(ts, a.pool(), a.next_stable());
        &&& b.next_stable() == a.next_stable() + count_new(ts)
        &&& match a.replay() {
            None => {
                &&& b.replay() is None
                &&& b.failure() == a.failure()
                &&& exists|k: int|
                    0 <= k < cs.len() && #[trigger] decided(
                        a.events(),
                        a.failure(),
                        ts1,
                        cs,
                        k,
                        b.tasks(),
                        b.events(),
                        r,
                    )
            },
            Some(rv) => exists|r1: Result<usize, String>|
                #[trigger] replay_outcome(ts1, a.pool(), cs, rv, a.failure(), b.failure(), b.replay(), r1)
                    && match r1 {
                    Ok(k) => decided(a.events(), a.failure(), ts1, cs, k as int, b.tasks(), b.events(), r),
                    Err(m) => {
                        &&& r == Err::<bool, String>(m)
                        &&& b.tasks() == ts1
                        &&& b.events() == a.events()
                    },
                },
        }
    }
}

/// One round of the scheduler, from state `a` to state `b` with result `r`.
pub open spec fn control_step<X: DynSyncModel>(
    a: SchedulerState<X>,
    b: SchedulerState<X>,
    r: Result<bool, String>,
) -> bool {
    let ts = a.tasks();
    let m = a.model();
    let running = running_ids(ts);
    if some_running_ready(&m, running) {
        auto_step(a, b, needed_by_running(&m, running), r)
    } else {
        exists|cs: Seq<TaskScheduleChoice>|
            #[trigger] are_the_choices(&m, running, suspended_ids(ts), cs) && choice_step(a, b, cs, r)
    }
}

proof fn lemma_stable_ids_cover_suspended(ts: Seq<TaskView>, pool: Seq<Seq<char>>, next: u64)
    ensures
        suspended_have_stable_ids(with_stable_ids(ts, pool, next)),
{
}

/// How a trace names a task: by its stable identity once it has one.
pub open spec fn trace_id_of(t: TaskView) -> FullTraceTaskIdView {
    match t.stable_id {
        Some(n) => FullTraceTaskIdView::Stable(n),
        None => FullTraceTaskIdView::Unstable(t.id),
    }
}

/// The task as the full trace shows it.
pub open spec fn ref_of(ts: Seq<TaskView>, pool: Seq<Seq<char>>, id: u64) -> TaskRefView {
    TaskRefView { id: trace_id_of(ts[id - 1]), name: name_of(pool, ts[id - 1]) }
}

/// The snapshot as the full trace shows it.
pub open spec fn snap_of(ts: Seq<TaskView>, pool: Seq<Seq<char>>, s: (u64, Option<usize>)) -> TaskSnapshotView {
    TaskSnapshotView {
        id: trace_id_of(ts[s.0 - 1]),
        name: name_of(pool, ts[s.0 - 1]),
        position: match s.1 {
            Some(p) => Some(pool_get(pool, p).unwrap()),
            None => None,
        },
    }
}

pub open spec fn refs_of(ts: Seq<TaskView>, pool: Seq<Seq<char>>, ids: Seq<u64>) -> Seq<TaskRefView> {
    Seq::new(ids.len(), |i: int| ref_of(ts, pool, ids[i]))
}

pub open spec fn snaps_of(
    ts: Seq<TaskView>,
    pool: Seq<Seq<char>>,
    ss: Seq<(u64, Option<usize>)>,
) -> Seq<TaskSnapshotView> {
    Seq::new(ss.len(), |i: int| snap_of(ts, pool, ss[i]))
}

/// `v` is how the full trace shows the recorded event `e`: tasks by their
/// current identities and names, points by their strings, and every list of
/// tasks in the order of their identities.
pub open spec fn shows_event(ts: Seq<TaskView>, pool: Seq<Seq<char>>, e: TraceEventView, v: TraceViewItemView) -> bool {
    match e {
        TraceEventView::Started(id) => v == TraceViewItemView::TaskStarted(ref_of(ts, pool, id)),
        TraceEventView::Finished(id) => v == TraceViewItemView::TaskFinished(ref_of(ts, pool, id)),
        TraceEventView::Suspended(id, p) => v == TraceViewItemView::TaskSuspended(
            ref_of(ts, pool, id),
            pool_get(pool, p).unwrap(),
        ),
        TraceEventView::AutoResumed { resumed, running, suspended } => match v {
            TraceViewItemView::AutoResumedTasks { resumed: r2, running: run2, suspended: sus2 } => {
                &&& sorted_as::<TaskRef>(r2, refs_of(ts, pool, resumed))
                &&& sorted_as::<TaskSnapshot>(run2, snaps_of(ts, pool, running))
                &&& sorted_as::<TaskSnapshot>(sus2, snaps_of(ts, pool, suspended))
            },
            _ => false,
        },
        TraceEventView::Decision { resumed, running, suspended, options } => match v {
            TraceViewItemView::ScheduleDecision {
                resumed: r2,
                running: run2,
                suspended: sus2,
                options: o2,
            } => {
                &&& sorted_as::<TaskRef>(r2, refs_of(ts, pool, resumed))
                &&& sorted_as::<TaskSnapshot>(run2, snaps_of(ts, pool, running))
                &&& sorted_as::<TaskSnapshot>(sus2, snaps_of(ts, pool, suspended))
                &&& o2.len() == options.len()
                &&& forall|k: int|
                    0 <= k < options.len() ==> sorted_as::<TaskRef>(
                        #[trigger] o2[k],
                        refs_of(ts, pool, options[k]),
                    )
            },
            _ => false,
        },
    }
}

/// `tv` is how the full trace shows the recorded events.
pub open spec fn shows_events(
    ts: Seq<TaskView>,
    pool: Seq<Seq<char>>,
    events: Seq<TraceEventView>,
    tv: Seq<TraceViewItemView>,
) -> bool {
    &&& tv.len() == events.len()
    &&& forall|i: int| 0 <= i < tv.len() ==> shows_event(ts, pool, events[i], #[trigger] tv[i])
}

/// The textual step lists the decision's suspended tasks (names and points
/// as strings of the trace) and the tasks it resumed.
pub open spec fn text_step_of_decision(step: ReplayStepView, strings: Seq<Seq<char>>, v: TraceViewItemView) -> bool {
    match v {
        TraceViewItemView::ScheduleDecision { resumed, suspended, .. } => {
            &&& step.suspended.len() == suspended.len()
            &&& forall|j: int|
                #![trigger step.suspended[j]]
                0 <= j < suspended.len() ==> {
                    let e = snapshot_entry(suspended[j]).unwrap();
                    &&& step.suspended[j].0 == e.0
                    &&& strings[step.suspended[j].1 - 1] == e.1
                    &&& strings[step.suspended[j].2 - 1] == e.2
                }
            &&& step.resumed == resumed.map_values(|r: TaskRefView| ref_stable_id(r))
        },
        _ => false,
    }
}

/// The replay trace has one step for each decision of the full trace.
pub open spec fn replay_of(tv: Seq<TraceViewItemView>, t: ReplayTraceView) -> bool {
    &&& t.steps.len() == decisions(tv).len()
    &&& forall|i: int|
        0 <= i < t.steps.len() ==> text_step_of_decision(#[trigger] t.steps[i], t.strings, decisions(tv)[i])
}

/// An element of a list sorted from the snapshots is one of them.
proof fn lemma_sorted_snapshot(
    ts: Seq<TaskView>,
    pool: Seq<Seq<char>>,
    ss: Seq<(u64, Option<usize>)>,
    sorted: Seq<TaskSnapshotView>,
    k: int,
)
    requires
        sorted.to_multiset() == snaps_of(ts, pool, ss).to_multiset(),
        0 <= k < sorted.len(),
    ensures
        exists|q: int| 0 <= q < ss.len() && sorted[k] == snap_of(ts, pool, #[trigger] ss[q]),
{
    let x = sorted[k];
    assert(sorted.contains(x));
    vstd::seq_lib::to_multiset_contains(sorted, x);
    vstd::seq_lib::to_multiset_contains(snaps_of(ts, pool, ss), x);
    let q = choose|q: int| 0 <= q < snaps_of(ts, pool, ss).len() && snaps_of(ts, pool, ss)[q] == x;
    assert(sorted[k] == snap_of(ts, pool, ss[q]));
}

/// An element of a list sorted from the task references is one of them.
proof fn lemma_sorted_ref(ts: Seq<TaskView>, pool: Seq<Seq<char>>, ids: Seq<u64>, sorted: Seq<TaskRefView>, k: int)
    requires
        sorted.to_multiset() == refs_of(ts, pool, ids).to_multiset(),
        0 <= k < sorted.len(),
    ensures
        exists|q: int| 0 <= q < ids.len() && sorted[k] == ref_of(ts, pool, #[trigger] ids[q]),
{
    let x = sorted[k];
    assert(sorted.contains(x));
    vstd::seq_lib::to_multiset_contains(sorted, x);
    vstd::seq_lib::to_multiset_contains(refs_of(ts, pool, ids), x);
    let q = choose|q: int| 0 <= q < refs_of(ts, pool, ids).len() && refs_of(ts, pool, ids)[q] == x;
    assert(sorted[k] == ref_of(ts, pool, ids[q]));
}

/// What the full trace shows of a recorded decision: it resumed and listed
/// tasks, identities are from 1, and its names and points are strings of the
/// pool.
proof fn lemma_shown_decision(ts: Seq<TaskView>, pool: Seq<Seq<char>>, next: u64, e: TraceEventView, v: TraceViewItemView)
    requires
        forall|i: int| 0 <= i < ts.len() ==> task_in_pool(#[trigger] ts[i], pool),
        stable_ids_unique(ts, next),
        event_ok(e, ts.len(), pool),
        shows_event(ts, pool, e, v),
        v is ScheduleDecision,
    ensures
        match v {
            TraceViewItemView::ScheduleDecision { resumed, suspended, .. } => {
                &&& resumed.len() >= 1
                &&& suspended.len() >= 1
                &&& forall|k: int|
                    0 <= k < suspended.len() ==> ((#[trigger] suspended[k]).id matches FullTraceTaskIdView::Stable(n)
                        ==> n >= 1)
                &&& forall|k: int|
                    0 <= k < resumed.len() ==> ((#[trigger] resumed[k]).id matches FullTraceTaskIdView::Stable(n)
                        ==> n >= 1)
                &&& forall|x: Seq<char>| #[trigger] snapshot_strings(suspended).contains(x) ==> pool.contains(x)
            },
            _ => false,
        },
{
    broadcast use vstd::seq_lib::to_multiset_len;

    if let TraceEventView::Decision { resumed, running, suspended, options } = e {
        if let TraceViewItemView::ScheduleDecision { resumed: r2, suspended: sus2, .. } = v {
            assert(r2.len() == r2.to_multiset().len());
            assert(refs_of(ts, pool, resumed).len() == refs_of(ts, pool, resumed).to_multiset().len());
            assert(sus2.len() == sus2.to_multiset().len());
            assert(snaps_of(ts, pool, suspended).len() == snaps_of(ts, pool, suspended).to_multiset().len());
            assert forall|k: int| 0 <= k < sus2.len() implies ((#[trigger] sus2[k]).id matches FullTraceTaskIdView::Stable(n)
                ==> n >= 1) by {
                lemma_sorted_snapshot(ts, pool, suspended, sus2, k);
                let q = choose|q: int| 0 <= q < suspended.len() && sus2[k] == snap_of(ts, pool, #[trigger] suspended[q]);
                assert(valid_task_id(ts.len(), suspended[q].0));
                let t = ts[suspended[q].0 - 1];
                assert(t == ts[suspended[q].0 - 1]);
            }
            assert forall|k: int| 0 <= k < r2.len() implies ((#[trigger] r2[k]).id matches FullTraceTaskIdView::Stable(n)
                ==> n >= 1) by {
                lemma_sorted_ref(ts, pool, resumed, r2, k);
                let q = choose|q: int| 0 <= q < resumed.len() && r2[k] == ref_of(ts, pool, #[trigger] resumed[q]);
                assert(valid_task_id(ts.len(), resumed[q]));
                let t = ts[resumed[q] - 1];
                assert(t == ts[resumed[q] - 1]);
            }
            assert forall|x: Seq<char>| #[trigger] snapshot_strings(sus2).contains(x) implies pool.contains(x) by {
                let m = choose|m: int| 0 <= m < sus2.len() && ((#[trigger] sus2[m]).name == x || sus2[m].position == Some(x));
                lemma_sorted_snapshot(ts, pool, suspended, sus2, m);
                let q = choose|q: int| 0 <= q < suspended.len() && sus2[m] == snap_of(ts, pool, #[trigger] suspended[q]);
                let sq = suspended[q];
                assert(valid_task_id(ts.len(), sq.0));
                let t = ts[sq.0 - 1];
                assert(task_in_pool(t, pool));
                if sus2[m].name == x {
                    assert(pool[t.name - 1] == x);
                } else {
                    let p = sq.1.unwrap();
                    assert(pool_get(pool, p) is Some);
                    assert(pool[p - 1] == x);
                }
            }
        }
    }
}

/// What the full trace shows of a recorded event can become a replay step:
/// a decision names its tasks by stable identities and points.
proof fn lemma_shown_event_no_error(ts: Seq<TaskView>, pool: Seq<Seq<char>>, e: TraceEventView, v: TraceViewItemView)
    requires
        shows_event(ts, pool, e, v),
        decision_named(ts, e),
    ensures
        item_error(v) is None,
{
    if let TraceEventView::Decision { resumed, running, suspended, options } = e {
        if let TraceViewItemView::ScheduleDecision { resumed: r2, suspended: sus2, .. } = v {
            assert forall|k: int| 0 <= k < sus2.len() implies (#[trigger] sus2[k]).id is Stable
                && sus2[k].position is Some by {
                lemma_sorted_snapshot(ts, pool, suspended, sus2, k);
                let q = choose|q: int| 0 <= q < suspended.len() && sus2[k] == snap_of(ts, pool, #[trigger] suspended[q]);
                assert(ts[suspended[q].0 - 1].stable_id is Some && suspended[q].1 is Some);
            }
            lemma_snapshots_no_error(sus2);
            assert forall|k: int| 0 <= k < r2.len() implies (#[trigger] r2[k]).id is Stable by {
                lemma_sorted_ref(ts, pool, resumed, r2, k);
                let q = choose|q: int| 0 <= q < resumed.len() && r2[k] == ref_of(ts, pool, #[trigger] resumed[q]);
                assert(ts[resumed[q] - 1].stable_id is Some);
            }
        }
    }
}

/// The replay trace of a run with a decision, whose strings hold no comma,
/// is one that its text gives back.
proof fn lemma_replay_text_round_trips(
    ts: Seq<TaskView>,
    pool0: Seq<Seq<char>>,
    next: u64,
    events: Seq<TraceEventView>,
    tv: Seq<TraceViewItemView>,
    pool1: Seq<Seq<char>>,
    t: ReplayTraceView,
)
    requires
        forall|i: int| 0 <= i < ts.len() ==> task_in_pool(#[trigger] ts[i], pool0),
        stable_ids_unique(ts, next),
        forall|i: int| 0 <= i < events.len() ==> event_ok(#[trigger] events[i], ts.len(), pool0),
        shows_events(ts, pool0, events, tv),
        trace_error(tv) is None,
        replay_of(tv, t),
        indices_in_range(t),
        forall|x: Seq<char>| #[trigger] t.strings.contains(x) ==> pool1.contains(x),
        forall|x: Seq<char>| #[trigger] pool1.contains(x) ==> pool0.contains(x)
            || exists|k: int| 0 <= k < tv.len() && (#[trigger] item_strings(tv[k])).contains(x),
        exists|i: int| 0 <= i < events.len() && #[trigger] events[i] is Decision,
        forall|k: int| 0 <= k < pool0.len() ==> free_of(#[trigger] pool0[k], ','),
    ensures
        text_round_trips(t),
{
    let i = choose|i: int| 0 <= i < events.len() && #[trigger] events[i] is Decision;
    assert(shows_event(ts, pool0, events[i], tv[i]));
    lemma_decisions_nonempty(tv, i);
    assert forall|s: int| 0 <= s < t.steps.len() implies step_round_trips(#[trigger] t.steps[s]) by {
        lemma_decision_origin(tv, s);
        let j = choose|j: int| 0 <= j < tv.len() && #[trigger] tv[j] == decisions(tv)[s];
        assert(shows_event(ts, pool0, events[j], tv[j]));
        lemma_shown_decision(ts, pool0, next, events[j], tv[j]);
        lemma_trace_error_at(tv, j);
        assert(text_step_of_decision(t.steps[s], t.strings, tv[j]));
        if let TraceViewItemView::ScheduleDecision { resumed, suspended, .. } = tv[j] {
            let st = t.steps[s];
            assert forall|jj: int| 0 <= jj < st.suspended.len() implies (#[trigger] st.suspended[jj]).0 >= 1 by {
                lemma_snapshots_listed(suspended, jj);
                assert(suspended[jj].id is Stable);
            }
            assert forall|jj: int| 0 <= jj < st.resumed.len() implies #[trigger] st.resumed[jj] >= 1 by {
                assert(resumed[jj].id is Stable);
                assert(st.resumed[jj] == ref_stable_id(resumed[jj]));
            }
        }
    }
    assert(t.steps[0].suspended.len() >= 1);
    assert(1 <= t.steps[0].suspended[0].1 <= t.strings.len());
    assert forall|q: int| 0 <= q < t.strings.len() implies free_of(#[trigger] t.strings[q], ',') by {
        let x = t.strings[q];
        assert(t.strings.contains(x));
        if !pool0.contains(x) {
            let k = choose|k: int| 0 <= k < tv.len() && (#[trigger] item_strings(tv[k])).contains(x);
            assert(shows_event(ts, pool0, events[k], tv[k]));
            lemma_shown_decision(ts, pool0, next, events[k], tv[k]);
        }
        let m = choose|m: int| 0 <= m < pool0.len() && pool0[m] == x;
        assert(free_of(pool0[m], ','));
    }
}

/// Stable identities name tasks: each is from 1 and below the next one to/// Stable identities name tasks: each is from 1 and below the next one to
/// give, and no two tasks share one.
pub open spec fn stable_ids_unique(ts: Seq<TaskView>, next: u64) -> bool {
    &&& forall|i: int|
        0 <= i < ts.len() && (#[trigger] ts[i]).stable_id is Some ==> 1 <= ts[i].stable_id.unwrap()
            < next
    &&& forall|i: int, j: int|
        0 <= i < ts.len() && 0 <= j < ts.len() && i != j && (#[trigger] ts[i]).stable_id is Some
            && (#[trigger] ts[j]).stable_id is Some ==> ts[i].stable_id != ts[j].stable_id
}

proof fn lemma_stable_ids_same(a: Seq<TaskView>, b: Seq<TaskView>, next: u64)
    requires
        stable_ids_unique(a, next),
        a.len() == b.len(),
        forall|i: int| 0 <= i < a.len() ==> (#[trigger] b[i]).stable_id == a[i].stable_id,
    ensures
        stable_ids_unique(b, next),
{
    assert forall|i: int| 0 <= i < b.len() && (#[trigger] b[i]).stable_id is Some implies 1
        <= b[i].stable_id.unwrap() < next by {
        assert(a[i].stable_id == b[i].stable_id);
    }
    assert forall|i: int, j: int|
        0 <= i < b.len() && 0 <= j < b.len() && i != j && (#[trigger] b[i]).stable_id is Some && (
        #[trigger] b[j]).stable_id is Some implies b[i].stable_id != b[j].stable_id by {
        assert(a[i].stable_id == b[i].stable_id && a[j].stable_id == b[j].stable_id);
    }
}

proof fn lemma_key_irreflexive(pool: Seq<Seq<char>>, a: TaskView)
    ensures
        !key_before(pool, a, a),
{
    lemma_text_lt_irreflexive(name_of(pool, a));
}

proof fn lemma_key_transitive(pool: Seq<Seq<char>>, a: TaskView, b: TaskView, c: TaskView)
    requires
        key_before(pool, a, b),
        key_before(pool, b, c),
    ensures
        key_before(pool, a, c),
{
    let (na, nb, nc) = (name_of(pool, a), name_of(pool, b), name_of(pool, c));
    if text_lt(na, nb) && text_lt(nb, nc) {
        lemma_text_lt_transitive(na, nb, nc);
    }
}

proof fn lemma_key_total(pool: Seq<Seq<char>>, a: TaskView, b: TaskView)
    requires
        a.id != b.id,
    ensures
        key_before(pool, a, b) || key_before(pool, b, a),
{
    if name_of(pool, a) != name_of(pool, b) {
        lemma_text_lt_total(name_of(pool, a), name_of(pool, b));
    }
}

/// How many of the tasks are `t`.
pub open spec fn count_eq(ts: Seq<TaskView>, t: TaskView) -> nat
    decreases ts.len(),
{
    if ts.len() == 0 {
        0
    } else {
        count_eq(ts.drop_last(), t) + if ts.last() == t {
            1nat
        } else {
            0nat
        }
    }
}

proof fn lemma_count_eq_pos(ts: Seq<TaskView>, i: int)
    requires
        0 <= i < ts.len(),
    ensures
        count_eq(ts, ts[i]) >= 1,
    decreases ts.len(),
{
    if i < ts.len() - 1 {
        lemma_count_eq_pos(ts.drop_last(), i);
        assert(ts.drop_last()[i] == ts[i]);
    }
}

proof fn lemma_rank_before(ts: Seq<TaskView>, pool: Seq<Seq<char>>, a: TaskView, b: TaskView)
    requires
        is_new_task(a),
        key_before(pool, a, b),
    ensures
        new_rank(ts, pool, a) + count_eq(ts, a) <= new_rank(ts, pool, b),
    decreases ts.len(),
{
    if ts.len() > 0 {
        lemma_rank_before(ts.drop_last(), pool, a, b);
        let c = ts.last();
        lemma_key_irreflexive(pool, a);
        if is_new_task(c) && key_before(pool, c, a) {
            lemma_key_transitive(pool, c, a, b);
        }
    }
}

proof fn lemma_rank_bound(ts: Seq<TaskView>, pool: Seq<Seq<char>>, a: TaskView)
    requires
        is_new_task(a),
    ensures
        new_rank(ts, pool, a) + count_eq(ts, a) <= count_new(ts),
    decreases ts.len(),
{
    if ts.len() > 0 {
        lemma_rank_bound(ts.drop_last(), pool, a);
        lemma_key_irreflexive(pool, a);
    }
}

/// New tasks get distinct stable identities, from `next` on and below
/// `next` plus the number of new tasks.
proof fn lemma_with_stable_ids_unique(ts: Seq<TaskView>, pool: Seq<Seq<char>>, next: u64)
    requires
        stable_ids_unique(ts, next),
        forall|i: int| 0 <= i < ts.len() ==> (#[trigger] ts[i]).id == i + 1,
        next >= 1,
        next + count_new(ts) <= u64::MAX,
    ensures
        stable_ids_unique(with_stable_ids(ts, pool, next), (next + count_new(ts)) as u64),
{
    let t2 = with_stable_ids(ts, pool, next);
    let next2 = (next + count_new(ts)) as u64;
    assert forall|i: int| 0 <= i < t2.len() && (#[trigger] t2[i]).stable_id is Some implies 1
        <= t2[i].stable_id.unwrap() < next2 by {
        if is_new_task(ts[i]) {
            lemma_rank_bound(ts, pool, ts[i]);
            lemma_count_eq_pos(ts, i);
        }
    }
    assert forall|i: int, j: int|
        0 <= i < t2.len() && 0 <= j < t2.len() && i != j && (#[trigger] t2[i]).stable_id is Some && (
        #[trigger] t2[j]).stable_id is Some implies t2[i].stable_id != t2[j].stable_id by {
        if is_new_task(ts[i]) && is_new_task(ts[j]) {
            lemma_key_total(pool, ts[i], ts[j]);
            lemma_rank_bound(ts, pool, ts[i]);
            lemma_rank_bound(ts, pool, ts[j]);
            lemma_count_eq_pos(ts, i);
            lemma_count_eq_pos(ts, j);
            if key_before(pool, ts[i], ts[j]) {
                lemma_rank_before(ts, pool, ts[i], ts[j]);
            } else {
                lemma_rank_before(ts, pool, ts[j], ts[i]);
            }
        } else if is_new_task(ts[i]) {
            lemma_rank_bound(ts, pool, ts[i]);
        } else if is_new_task(ts[j]) {
            lemma_rank_bound(ts, pool, ts[j]);
        }
    }
}

/// The suspended snapshots name tasks that are suspended, with their points.
proof fn lemma_suspended_snapshots_named(ts: Seq<TaskView>)
    requires
        forall|i: int| 0 <= i < ts.len() ==> (#[trigger] ts[i]).id == i + 1,
        suspended_have_stable_ids(ts),
    ensures
        forall|k: int|
            0 <= k < suspended_snapshots(ts).len() ==> {
                let s = #[trigger] suspended_snapshots(ts)[k];
                &&& 1 <= s.0 <= ts.len()
                &&& ts[s.0 - 1].stable_id is Some
                &&& s.1 is Some
            },
    decreases ts.len(),
{
    if ts.len() > 0 {
        let rest = ts.drop_last();
        assert forall|i: int| 0 <= i < rest.len() implies (#[trigger] rest[i]).id == i + 1 by {
            assert(rest[i] == ts[i]);
        }
        assert forall|i: int| 0 <= i < rest.len() && (#[trigger] rest[i]).state is Suspended implies rest[i].stable_id is Some by {
            assert(rest[i] == ts[i]);
        }
        lemma_suspended_snapshots_named(rest);
        assert forall|k: int| 0 <= k < suspended_snapshots(ts).len() implies {
            let s = #[trigger] suspended_snapshots(ts)[k];
            &&& 1 <= s.0 <= ts.len()
            &&& ts[s.0 - 1].stable_id is Some
            &&& s.1 is Some
        } by {
            if k < suspended_snapshots(rest).len() {
                let s = suspended_snapshots(rest)[k];
                assert(suspended_snapshots(ts)[k] == s);
                assert(rest[s.0 - 1] == ts[s.0 - 1]);
            } else {
                assert(ts[ts.len() - 1] == ts.last());
            }
        }
    }
}

proof fn lemma_suspended_snapshots_nonempty(ts: Seq<TaskView>, i: int)
    requires
        0 <= i < ts.len(),
        ts[i].state is Suspended,
    ensures
        suspended_snapshots(ts).len() >= 1,
    decreases ts.len(),
{
    if i < ts.len() - 1 {
        lemma_suspended_snapshots_nonempty(ts.drop_last(), i);
        assert(ts.drop_last()[i] == ts[i]);
    }
}

/// What the scheduler knows: the interned strings, the tasks, the trace, the
/// models of the synchronization primitives, the replay trace it follows,
/// and the error that stopped it.
pub struct SchedulerState<X> {
    pub(crate) string_pool: StringPool,
    pub(crate) next_task_id: u64,
    pub(crate) next_stable_task_id: u64,
    pub(crate) task_selector: TaskSelector,
    pub(crate) tasks: Vec<Task>,
    pub(crate) trace: Vec<TraceEvent>,
    pub(crate) sync_model: SyncModelRegistry<X>,
    pub(crate) replay: Option<ReplayState>,
    pub(crate) error: Option<String>,
}

impl<X> SchedulerState<X> {
    /// The tasks, task `i + 1` at position `i`.
    pub closed spec fn tasks(&self) -> Seq<TaskView> {
        self.tasks@.map_values(|t: Task| t@)
    }

    /// The recorded trace.
    pub closed spec fn events(&self) -> Seq<TraceEventView> {
        self.trace@.map_values(|e: TraceEvent| e@)
    }

    /// The interned strings.
    pub closed spec fn pool(&self) -> Seq<Seq<char>> {
        self.string_pool@
    }

    /// The next stable identity to give.
    pub closed spec fn next_stable(&self) -> u64 {
        self.next_stable_task_id
    }

    /// The error that stopped the scheduler, if any.
    pub closed spec fn failure(&self) -> Option<Seq<char>> {
        match self.error {
            Some(e) => Some(e@),
            None => None,
        }
    }

    /// The replay trace being followed and the step it is at.
    pub closed spec fn replay(&self) -> Option<ReplayView> {
        match self.replay {
            Some(r) => Some(ReplayView { steps: r.trace@, next_step: r.next_step }),
            None => None,
        }
    }

    /// The models of the synchronization primitives.
    pub closed spec fn model(&self) -> SyncModelRegistry<X> {
        self.sync_model
    }

    /// The state is consistent: tasks are numbered from 1 in order, every
    /// index names a string of the pool, every event names known tasks, and
    /// the next stable identity follows those given.
    pub closed spec fn wf(&self) -> bool {
        let tasks = self.tasks();
        let pool = self.pool();
        &&& self.next_task_id == tasks.len() + 1
        &&& forall|i: int| 0 <= i < tasks.len() ==> (#[trigger] tasks[i]).id == i + 1
        &&& forall|i: int| 0 <= i < tasks.len() ==> task_in_pool(#[trigger] tasks[i], pool)
        &&& self.next_stable_task_id == count_stable(tasks) + 1
        &&& stable_ids_unique(tasks, self.next_stable_task_id)
        &&& forall|i: int|
            0 <= i < self.events().len() ==> event_ok(#[trigger] self.events()[i], tasks.len(), pool)
        &&& forall|i: int| 0 <= i < self.events().len() ==> decision_named(tasks, #[trigger] self.events()[i])
        &&& (self.replay() matches Some(r) ==> attached_in_pool(r.steps, pool))
    }

    /// The number of interned strings.
    pub fn pool_len(&self) -> (r: usize)
        ensures
            r == self.pool().len(),
    {
        self.string_pool.len()
    }

    /// The number of tasks registered so far.
    pub fn task_count(&self) -> (r: usize)
        ensures
            r == self.tasks().len(),
    {
        self.tasks.len()
    }

    /// A scheduler with no task yet that uses the given models, and follows
    /// the replay trace if there is one.
    pub fn with_sync_model(
        sync_model: SyncModelRegistry<X>,
        replay: Option<&ReplayTrace>,
        task_selector: TaskSelector,
    ) -> (r: Self)
        requires
            replay matches Some(t) ==> indices_in_range(t@) && t@.strings.len() < usize::MAX,
        ensures
            r.wf(),
            r.tasks() == Seq::<TaskView>::empty(),
            r.events() == Seq::<TraceEventView>::empty(),
            r.next_stable() == 1,
            r.failure() is None,
            r.model() == sync_model,
            match replay {
                None => r.replay() is None && r.pool() == Seq::<Seq<char>>::empty(),
                Some(t) => r.replay() matches Some(rv) && rv.next_step == 0 && attached_matches(
                    rv.steps,
                    r.pool(),
                    t@,
                ),
            },
    {
        let mut string_pool = StringPool::new();
        let replay = match replay {
            Some(t) => {
                let trace = AttachedReplayTrace::from_parsed(&mut string_pool, t);
                Some(ReplayState { trace, next_step: 0 })
            },
            None => None,
        };
        let r = SchedulerState {
            string_pool,
            next_task_id: 1,
            next_stable_task_id: 1,
            task_selector,
            tasks: Vec::new(),
            trace: Vec::new(),
            sync_model,
            replay,
            error: None,
        };
        proof {
            assert(r.tasks() =~= Seq::<TaskView>::empty());
            assert(r.events() =~= Seq::<TraceEventView>::empty());
        }
        r
    }

    /// Registers a task that starts running now; its identity is the next
    /// number.
    pub fn register_task(&mut self, name: &str) -> (r: TaskId)
        requires
            old(self).wf(),
            old(self).tasks().len() + 2 <= u64::MAX,
            old(self).pool().len() < usize::MAX,
        ensures
            final(self).wf(),
            r@ == old(self).tasks().len() + 1,
            pool_extends(final(self).pool(), old(self).pool()),
            old(self).pool().contains(name@) ==> final(self).pool() == old(self).pool(),
            !old(self).pool().contains(name@) ==> final(self).pool() == old(self).pool().push(name@),
            final(self).tasks().drop_last() == old(self).tasks(),
            final(self).tasks().len() == old(self).tasks().len() + 1,
            final(self).tasks().last().id == r@,
            final(self).tasks().last().stable_id is None,
            pool_get(final(self).pool(), final(self).tasks().last().name) == Some(name@),
            final(self).tasks().last().prev_point is None,
            final(self).tasks().last().state is Running,
            final(self).events() == if old(self).failure() is None {
                old(self).events().push(TraceEventView::Started(r@))
            } else {
                old(self).events()
            },
            final(self).next_stable() == old(self).next_stable(),
            final(self).failure() == old(self).failure(),
            final(self).replay() == old(self).replay(),
            final(self).model() == old(self).model(),
    {
        let ghost old_pool = self.pool();
        let ghost old_tasks = self.tasks();
        let ghost old_events = self.events();
        let name = self.string_pool.intern(name);
        let id = TaskId::new(self.next_task_id);
        self.next_task_id = self.next_task_id + 1;
        self.tasks.push(
            Task {
                id,
                stable_id: None,
                name,
                prev_suspend_point: None,
                state: TaskState::Running,
            },
        );
        if self.error.is_none() {
            self.trace.push(TraceEvent::TaskStarted(id));
        }
        proof {
            let tasks = self.tasks();
            assert(tasks.drop_last() =~= old_tasks);
            assert(tasks.last() == self.tasks@.last()@);
            assert forall|i: int| 0 <= i < tasks.len() implies task_in_pool(#[trigger] tasks[i], self.pool()) by {
                if i < old_tasks.len() {
                    assert(tasks[i] == old_tasks[i]);
                    lemma_task_in_pool_mono(old_tasks[i], old_pool, self.pool());
                }
            }
            assert forall|i: int| 0 <= i < tasks.len() implies (#[trigger] tasks[i]).id == i + 1 by {
                if i < old_tasks.len() {
                    assert(tasks[i] == old_tasks[i]);
                }
            }
            if old_events.len() < self.events().len() {
                assert(self.events() =~= old_events.push(TraceEventView::Started(id@)));
            } else {
                assert(self.events() =~= old_events);
            }
            assert forall|i: int| 0 <= i < self.events().len() implies event_ok(
                #[trigger] self.events()[i],
                tasks.len(),
                self.pool(),
            ) by {
                if i < old_events.len() {
                    assert(self.events()[i] == old_events[i]);
                    lemma_event_ok_mono(old_events[i], old_tasks.len(), tasks.len(), old_pool, self.pool());
                }
            }
            assert(count_stable(tasks) == count_stable(old_tasks));
            assert forall|i: int| 0 <= i < tasks.len() && (#[trigger] tasks[i]).stable_id is Some implies 1
                <= tasks[i].stable_id.unwrap() < self.next_stable_task_id by {
                assert(tasks[i] == old_tasks[i]);
            }
            assert forall|i: int, j: int|
                0 <= i < tasks.len() && 0 <= j < tasks.len() && i != j && (#[trigger] tasks[i]).stable_id is Some
                    && (#[trigger] tasks[j]).stable_id is Some implies tasks[i].stable_id != tasks[j].stable_id by {
                assert(tasks[i] == old_tasks[i] && tasks[j] == old_tasks[j]);
            }
            if let Some(r) = self.replay() {
                lemma_attached_in_pool_mono(r.steps, old_pool, self.pool());
            }
        }
        id
    }

    /// Records that the task finished.
    pub fn on_task_finished(&mut self, task_id: TaskId)
        requires
            old(self).wf(),
            valid_task_id(old(self).tasks().len(), task_id@),
        ensures
            final(self).wf(),
            final(self).tasks() == old(self).tasks().update(
                task_id@ - 1,
                with_state(old(self).tasks()[task_id@ - 1], TaskStateView::Finished),
            ),
            final(self).events() == if old(self).failure() is None {
                old(self).events().push(TraceEventView::Finished(task_id@))
            } else {
                old(self).events()
            },
            final(self).pool() == old(self).pool(),
            final(self).next_stable() == old(self).next_stable(),
            final(self).failure() == old(self).failure(),
            final(self).replay() == old(self).replay(),
            final(self).model() == old(self).model(),
    {
        let ghost old_tasks = self.tasks();
        let ghost old_events = self.events();
        let idx = self.task_idx(task_id);
        let mut t = self.tasks[idx];
        t.state = TaskState::Finished;
        self.tasks.set(idx, t);
        if self.error.is_none() {
            self.trace.push(TraceEvent::TaskFinished(task_id));
        }
        proof {
            let tasks = self.tasks();
            assert(old_tasks[idx as int] == old(self).tasks@[idx as int]@);
            assert(tasks =~= old_tasks.update(
                idx as int,
                with_state(old_tasks[idx as int], TaskStateView::Finished),
            ));
            assert forall|i: int| 0 <= i < tasks.len() implies (#[trigger] tasks[i]).id == i + 1
                && task_in_pool(tasks[i], self.pool()) by {
                assert(old_tasks[i].id == i + 1 && task_in_pool(old_tasks[i], self.pool()));
            }
            lemma_count_stable_same(tasks, old_tasks);
            lemma_stable_ids_same(old_tasks, tasks, self.next_stable_task_id);
            if old_events.len() < self.events().len() {
                assert(self.events() =~= old_events.push(TraceEventView::Finished(task_id@)));
            } else {
                assert(self.events() =~= old_events);
            }
            assert forall|i: int| 0 <= i < self.events().len() implies event_ok(
                #[trigger] self.events()[i],
                tasks.len(),
                self.pool(),
            ) by {
                if i < old_events.len() {
                    assert(self.events()[i] == old_events[i]);
                }
            }
        }
    }

    /// Suspends a running task at a point, recording it in the trace. A task
    /// that does not run cannot reach a point: that is an error, and nothing
    /// changes.
    pub fn suspend(&mut self, task_id: TaskId, point: StringIdx) -> (r: Result<(), String>)
        requires
            old(self).wf(),
            valid_task_id(old(self).tasks().len(), task_id@),
            pool_get(old(self).pool(), point@) is Some,
        ensures
            final(self).wf(),
            suspend_outcome(
                old(self).tasks(),
                old(self).events(),
                old(self).failure(),
                task_id@,
                point@,
                final(self).tasks(),
                final(self).events(),
                r,
            ),
            final(self).pool() == old(self).pool(),
            final(self).next_stable() == old(self).next_stable(),
            final(self).failure() == old(self).failure(),
            final(self).replay() == old(self).replay(),
            final(self).model() == old(self).model(),
    {
        let ghost old_tasks = self.tasks();
        let ghost old_events = self.events();
        let idx = self.task_idx(task_id);
        let mut t = self.tasks[idx];
        proof {
            assert(old_tasks[idx as int] == t@);
        }
        match t.state {
            TaskState::Running => {},
            _ => {
                let msg = not_running_text(task_id, t.name, point, t.state);
                return Err(msg);
            },
        }
        t.state = TaskState::Suspended { point };
        self.tasks.set(idx, t);
        if self.error.is_none() {
            self.trace.push(TraceEvent::TaskSuspended { task: task_id, suspend_point: point });
        }
        proof {
            let tasks = self.tasks();
            assert(tasks =~= old_tasks.update(
                idx as int,
                with_state(old_tasks[idx as int], TaskStateView::Suspended(point@)),
            ));
            assert forall|i: int| 0 <= i < tasks.len() implies (#[trigger] tasks[i]).id == i + 1
                && task_in_pool(tasks[i], self.pool()) by {
                assert(old_tasks[i].id == i + 1 && task_in_pool(old_tasks[i], self.pool()));
            }
            lemma_count_stable_same(tasks, old_tasks);
            lemma_stable_ids_same(old_tasks, tasks, self.next_stable_task_id);
            if old_events.len() < self.events().len() {
                assert(self.events() =~= old_events.push(
                    TraceEventView::Suspended(task_id@, point@),
                ));
            } else {
                assert(self.events() =~= old_events);
            }
            assert forall|i: int| 0 <= i < self.events().len() implies event_ok(
                #[trigger] self.events()[i],
                tasks.len(),
                self.pool(),
            ) by {
                if i < old_events.len() {
                    assert(self.events()[i] == old_events[i]);
                }
            }
        }
        Ok(())
    }

    /// The running task reaches the named point: it is suspended there, and
    /// the suspension is recorded unless the run already failed.
    pub fn on_reached_point(&mut self, task_id: TaskId, name: &str)
        requires
            old(self).wf(),
            valid_task_id(old(self).tasks().len(), task_id@),
            old(self).tasks()[task_id@ - 1].state is Running,
            old(self).pool().len() < usize::MAX,
        ensures
            final(self).wf(),
            pool_extends(final(self).pool(), old(self).pool()),
            old(self).pool().contains(name@) ==> final(self).pool() == old(self).pool(),
            !old(self).pool().contains(name@) ==> final(self).pool() == old(self).pool().push(name@),
            exists|p: usize|
                pool_get(final(self).pool(), p) == Some(name@) && suspend_outcome(
                    old(self).tasks(),
                    old(self).events(),
                    old(self).failure(),
                    task_id@,
                    p,
                    final(self).tasks(),
                    final(self).events(),
                    Ok(()),
                ),
            final(self).next_stable() == old(self).next_stable(),
            final(self).failure() == old(self).failure(),
            final(self).replay() == old(self).replay(),
            final(self).model() == old(self).model(),
    {
        let point = self.intern(name);
        let r = self.suspend(task_id, point);
        proof {
            assert(r is Ok);
        }
    }

    /// Like `on_reached_point`, and the task performs the event as it reaches
    /// the point. An event that the models refuse is an error, and then the
    /// task is not suspended.
    pub fn on_reached_point_with_event<E: SyncEvent>(
        &mut self,
        task_id: TaskId,
        name: &str,
        event: E,
    ) -> (r: Result<NotificationOutcome, BadSyncError>) where E::Model: RegistrySlot<X>
        requires
            old(self).wf(),
            valid_task_id(old(self).tasks().len(), task_id@),
            old(self).tasks()[task_id@ - 1].state is Running,
            old(self).pool().len() < usize::MAX,
        ensures
            final(self).wf(),
            pool_extends(final(self).pool(), old(self).pool()),
            old(self).pool().contains(name@) ==> final(self).pool() == old(self).pool(),
            !old(self).pool().contains(name@) ==> final(self).pool() == old(self).pool().push(name@),
            r is Err ==> final(self).tasks() == old(self).tasks() && final(self).events() == old(self).events(),
            r is Ok ==> exists|p: usize|
                pool_get(final(self).pool(), p) == Some(name@) && suspend_outcome(
                    old(self).tasks(),
                    old(self).events(),
                    old(self).failure(),
                    task_id@,
                    p,
                    final(self).tasks(),
                    final(self).events(),
                    Ok(()),
                ),
            final(self).next_stable() == old(self).next_stable(),
            final(self).failure() == old(self).failure(),
            final(self).replay() == old(self).replay(),
            E::Model::slot_described() ==> exists|m: E::Model|
                final(self).model() == #[trigger] E::Model::with_slot(old(self).model(), m) && E::Model::slot_of(
                    old(self).model(),
                ).handles(task_id@, event, m, r),
    {
        let point = self.intern(name);
        let ghost ev = event;
        let ghost m0 = self.sync_model;
        let rn = self.sync_model.on_notified(task_id, event);
        let ghost m1 = self.sync_model;
        let outcome = match rn {
            Ok(outcome) => outcome,
            Err(e) => {
                proof {
                    if E::Model::slot_described() {
                        let m = choose|m: E::Model|
                            m1 == #[trigger] E::Model::with_slot(m0, m) && E::Model::slot_of(m0).handles(task_id@, ev, m, rn);
                        assert(self.model() == E::Model::with_slot(old(self).model(), m));
                    }
                }
                return Err(e);
            },
        };
        let r = self.suspend(task_id, point);
        proof {
            assert(r is Ok);
            if E::Model::slot_described() {
                let m = choose|m: E::Model|
                    m1 == #[trigger] E::Model::with_slot(m0, m) && E::Model::slot_of(m0).handles(task_id@, ev, m, rn);
                assert(self.model() == E::Model::with_slot(old(self).model(), m));
            }
        }
        Ok(outcome)
    }

    /// The message of a task that reaches the named point while it does not
    /// run (its point interned like the point of a suspension).
    pub fn not_running_report(&mut self, task_id: TaskId, name: &str) -> (r: String)
        requires
            old(self).wf(),
            valid_task_id(old(self).tasks().len(), task_id@),
            old(self).pool().len() < usize::MAX,
        ensures
            final(self).wf(),
            pool_extends(final(self).pool(), old(self).pool()),
            old(self).pool().contains(name@) ==> final(self).pool() == old(self).pool(),
            !old(self).pool().contains(name@) ==> final(self).pool() == old(self).pool().push(name@),
            exists|p: usize|
                pool_get(final(self).pool(), p) == Some(name@) && r@ == not_running_message(
                    task_id@,
                    old(self).tasks()[task_id@ - 1].name,
                    p,
                    old(self).tasks()[task_id@ - 1].state,
                ),
            final(self).tasks() == old(self).tasks(),
            final(self).events() == old(self).events(),
            final(self).next_stable() == old(self).next_stable(),
            final(self).failure() == old(self).failure(),
            final(self).replay() == old(self).replay(),
            final(self).model() == old(self).model(),
    {
        let point = self.intern(name);
        let idx = self.task_idx(task_id);
        let t = self.tasks[idx];
        proof {
            assert(self.tasks()[idx as int] == t@);
        }
        not_running_text(task_id, t.name, point, t.state)
    }

    /// Hands an event that a task performs to the models.
    pub fn on_sync_event<E: SyncEvent>(&mut self, task_id: TaskId, event: E) -> (r: Result<
        NotificationOutcome,
        BadSyncError,
    >) where E::Model: RegistrySlot<X>
        requires
            old(self).wf(),
        ensures
            final(self).wf(),
            E::Model::slot_described() ==> exists|m: E::Model|
                final(self).model() == #[trigger] E::Model::with_slot(old(self).model(), m) && E::Model::slot_of(
                    old(self).model(),
                ).handles(task_id@, event, m, r),
            final(self).tasks() == old(self).tasks(),
            final(self).events() == old(self).events(),
            final(self).pool() == old(self).pool(),
            final(self).next_stable() == old(self).next_stable(),
            final(self).failure() == old(self).failure(),
            final(self).replay() == old(self).replay(),
    {
        let ghost ev = event;
        let r = self.sync_model.on_notified(task_id, event);
        proof {
            if E::Model::slot_described() {
                let m = choose|m: E::Model|
                    self.sync_model == #[trigger] E::Model::with_slot(old(self).sync_model, m) && E::Model::slot_of(
                        old(self).sync_model,
                    ).handles(task_id@, ev, m, r);
                assert(self.model() == E::Model::with_slot(old(self).model(), m));
            }
            assert(self.tasks() == old(self).tasks());
            assert(self.events() == old(self).events());
            assert(self.replay() == old(self).replay());
            assert(self.pool() == old(self).pool());
        }
        r
    }

    /// Hands an event that belongs to no task to the models.
    pub fn on_sync_init_event<E: SyncInitEvent>(&mut self, event: E) -> (r: Result<
        NotificationOutcome,
        BadSyncError,
    >) where E::Model: RegistrySlot<X>
        requires
            old(self).wf(),
        ensures
            final(self).wf(),
            E::Model::slot_described() ==> exists|m: E::Model|
                final(self).model() == #[trigger] E::Model::with_slot(old(self).model(), m) && E::Model::slot_of(
                    old(self).model(),
                ).handles_init(event, m, r),
            final(self).tasks() == old(self).tasks(),
            final(self).events() == old(self).events(),
            final(self).pool() == old(self).pool(),
            final(self).next_stable() == old(self).next_stable(),
            final(self).failure() == old(self).failure(),
            final(self).replay() == old(self).replay(),
    {
        let ghost ev = event;
        let r = self.sync_model.on_init_event(event);
        proof {
            if E::Model::slot_described() {
                let m = choose|m: E::Model|
                    self.sync_model == #[trigger] E::Model::with_slot(old(self).sync_model, m) && E::Model::slot_of(
                        old(self).sync_model,
                    ).handles_init(ev, m, r);
                assert(self.model() == E::Model::with_slot(old(self).model(), m));
            }
            assert(self.tasks() == old(self).tasks());
            assert(self.events() == old(self).events());
            assert(self.replay() == old(self).replay());
            assert(self.pool() == old(self).pool());
        }
        r
    }

    /// Interns a string in the pool of the scheduler.
    pub fn intern(&mut self, s: &str) -> (r: StringIdx)
        requires
            old(self).wf(),
            old(self).pool().len() < usize::MAX,
        ensures
            final(self).wf(),
            pool_extends(final(self).pool(), old(self).pool()),
            old(self).pool().contains(s@) ==> final(self).pool() == old(self).pool(),
            !old(self).pool().contains(s@) ==> final(self).pool() == old(self).pool().push(s@),
            pool_get(final(self).pool(), r@) == Some(s@),
            final(self).tasks() == old(self).tasks(),
            final(self).events() == old(self).events(),
            final(self).next_stable() == old(self).next_stable(),
            final(self).failure() == old(self).failure(),
            final(self).replay() == old(self).replay(),
            final(self).model() == old(self).model(),
    {
        let ghost old_pool = self.pool();
        let r = self.string_pool.intern(s);
        proof {
            let tasks = self.tasks();
            assert forall|i: int| 0 <= i < tasks.len() implies task_in_pool(#[trigger] tasks[i], self.pool()) by {
                lemma_task_in_pool_mono(tasks[i], old_pool, self.pool());
            }
            assert forall|i: int| 0 <= i < self.events().len() implies event_ok(
                #[trigger] self.events()[i],
                tasks.len(),
                self.pool(),
            ) by {
                assert(event_ok(old(self).events()[i], tasks.len(), old_pool));
                lemma_event_ok_mono(self.events()[i], tasks.len(), tasks.len(), old_pool, self.pool());
            }
            if let Some(rv) = self.replay() {
                lemma_attached_in_pool_mono(rv.steps, old_pool, self.pool());
            }
        }
        r
    }

    /// The running and the suspended tasks.
    pub fn task_sets(&self) -> (r: (TaskSet, TaskSet))
        requires
            self.wf(),
        ensures
            r.0@ == running_ids(self.tasks()),
            r.1@ == suspended_ids(self.tasks()),
    {
        let ghost ts = self.tasks();
        let mut running = TaskSet::new();
        let mut suspended = TaskSet::new();
        let mut i: usize = 0;
        while i < self.tasks.len()
            invariant
                i <= ts.len(),
                ts == self.tasks(),
                self.wf(),
                forall|id: u64| #[trigger] running@.contains(id) <==> (1 <= id <= i && ts[id - 1].state is Running),
                forall|id: u64| #[trigger] suspended@.contains(id) <==> (1 <= id <= i && ts[id - 1].state is Suspended),
            decreases ts.len() - i,
        {
            let t = self.tasks[i];
            proof {
                assert(ts[i as int] == t@);
                assert(ts[i as int].id == i + 1);
            }
            match t.state {
                TaskState::Running => {
                    running.insert(t.id);
                },
                TaskState::Suspended { .. } => {
                    suspended.insert(t.id);
                },
                TaskState::Finished => {},
            }
            i = i + 1;
        }
        proof {
            assert(running@ =~= running_ids(ts));
            assert(suspended@ =~= suspended_ids(ts));
        }
        (running, suspended)
    }

    /// The running and the suspended tasks as a trace records them.
    pub fn trace_task_snapshots(&self) -> (r: (Vec<TraceTaskSnapshot>, Vec<TraceTaskSnapshot>))
        ensures
            snapshots_view(r.0@) == running_snapshots(self.tasks()),
            snapshots_view(r.1@) == suspended_snapshots(self.tasks()),
    {
        let ghost ts = self.tasks();
        let mut running: Vec<TraceTaskSnapshot> = Vec::new();
        let mut suspended: Vec<TraceTaskSnapshot> = Vec::new();
        let mut i: usize = 0;
        while i < self.tasks.len()
            invariant
                i <= ts.len(),
                ts == self.tasks(),
                snapshots_view(running@) == running_snapshots(ts.take(i as int)),
                snapshots_view(suspended@) == suspended_snapshots(ts.take(i as int)),
            decreases ts.len() - i,
        {
            let t = self.tasks[i];
            proof {
                assert(ts[i as int] == t@);
                assert(ts.take(i + 1).drop_last() =~= ts.take(i as int));
                assert(ts.take(i + 1).last() == t@);
            }
            let ghost r0 = running@;
            let ghost s0 = suspended@;
            match t.state {
                TaskState::Running => {
                    running.push(TraceTaskSnapshot { task_id: t.id, point: t.prev_suspend_point });
                    proof {
                        assert(snapshots_view(running@) =~= snapshots_view(r0).push((t.id@, opt_idx(t.prev_suspend_point))));
                    }
                },
                TaskState::Suspended { point } => {
                    suspended.push(TraceTaskSnapshot { task_id: t.id, point: Some(point) });
                    proof {
                        assert(snapshots_view(suspended@) =~= snapshots_view(s0).push((t.id@, Some(point@))));
                    }
                },
                TaskState::Finished => {},
            }
            i = i + 1;
        }
        proof {
            assert(ts.take(i as int) =~= ts);
        }
        (running, suspended)
    }

    /// Whether all the tasks of the set can be resumed; if not, the error for
    /// the first in the set's order that cannot.
    pub fn check_resumable(&self, set: &TaskSet) -> (r: Result<(), String>)
        requires
            self.wf(),
        ensures
            r is Ok <==> (forall|id: u64| set@.contains(id) ==> resumable(self.tasks(), id)),
            r matches Err(m) ==> resume_fails_with(self.tasks(), set.seq(), m@),
    {
        let ghost ts = self.tasks();
        proof {
            set.lemma_view();
        }
        let n = set.len();
        let mut k: usize = 0;
        while k < n
            invariant
                k <= n,
                n == set.seq().len(),
                ts == self.tasks(),
                self.wf(),
                forall|j: int| 0 <= j < k ==> resumable(ts, #[trigger] set.seq()[j]),
            decreases n - k,
        {
            let id = *set.get(k);
            let ok = if id.get() >= 1 && id.get() <= self.tasks.len() as u64 {
                let t = self.tasks[(id.get() - 1) as usize];
                proof {
                    assert(ts[id@ - 1] == t@);
                }
                match t.state {
                    TaskState::Suspended { .. } => true,
                    _ => false,
                }
            } else {
                false
            };
            if !ok {
                let m = self.resume_error_text(id);
                proof {
                    assert(resume_fails_with(ts, set.seq(), m@)) by {
                        assert(!resumable(ts, set.seq()[k as int]));
                    }
                    assert(set@.contains(set.seq()[k as int]));
                }
                return Err(m);
            }
            k = k + 1;
        }
        proof {
            assert forall|id: u64| set@.contains(id) implies resumable(ts, id) by {
                let j = choose|j: int| 0 <= j < set.seq().len() && set.seq()[j] == id;
                assert(resumable(ts, set.seq()[j]));
            }
        }
        Ok(())
    }

    fn resume_error_text(&self, id: TaskId) -> (r: String)
        requires
            self.wf(),
        ensures
            r@ == resume_error(self.tasks(), id@),
    {
        let mut m = "Internal error: task ".to_string();
        push_decimal(&mut m, id.get());
        if id.get() >= 1 && id.get() <= self.tasks.len() as u64 {
            let t = self.tasks[(id.get() - 1) as usize];
            proof {
                assert(self.tasks()[id@ - 1] == t@);
            }
            push_str(&mut m, " ");
            push_decimal(&mut m, t.name.as_usize() as u64);
            push_str(&mut m, " is selected to run, but its state was not Suspended, but rather is ");
            match t.state {
                TaskState::Suspended { point: p } => {
                    let mut d = "Suspended { point: StringIdx(".to_string();
                    push_decimal(&mut d, p.as_usize() as u64);
                    push_str(&mut d, ") }");
                    push_str(&mut m, d.as_str());
                },
                TaskState::Running => {
                    push_str(&mut m, "Running");
                },
                TaskState::Finished => {
                    push_str(&mut m, "Finished");
                },
            }
            push_str(&mut m, ".");
        } else {
            push_str(&mut m, " is selected to run, but it is not known.");
        }
        m
    }

    /// Resumes the tasks of the set, which are all suspended.
    pub fn resume_tasks(&mut self, set: &TaskSet)
        requires
            old(self).wf(),
            forall|id: u64| set@.contains(id) ==> resumable(old(self).tasks(), id),
        ensures
            final(self).wf(),
            final(self).tasks() == resume_all(old(self).tasks(), set@),
            final(self).events() == old(self).events(),
            final(self).pool() == old(self).pool(),
            final(self).next_stable() == old(self).next_stable(),
            final(self).failure() == old(self).failure(),
            final(self).replay() == old(self).replay(),
            final(self).model() == old(self).model(),
    {
        let ghost ts = self.tasks();
        proof {
            set.lemma_view();
        }
        let n = set.len();
        let mut k: usize = 0;
        while k < n
            invariant
                k <= n,
                n == set.seq().len(),
                set.seq().no_duplicates(),
                forall|id: u64| set@.contains(id) ==> resumable(ts, id),
                forall|j: int| 0 <= j < n ==> set@.contains(#[trigger] set.seq()[j]),
                self.tasks().len() == ts.len(),
                self.tasks@.len() == ts.len(),
                forall|i: int| 0 <= i < ts.len() ==> (#[trigger] ts[i]).id == i + 1,
                forall|i: int|
                    0 <= i < ts.len() ==> #[trigger] self.tasks()[i] == if set.seq().take(k as int).contains(
                        ts[i].id,
                    ) {
                        resumed_task(ts[i])
                    } else {
                        ts[i]
                    },
                self.events() == old(self).events(),
                self.pool() == old(self).pool(),
                self.next_stable_task_id == old(self).next_stable_task_id,
                self.next_task_id == old(self).next_task_id,
                self.failure() == old(self).failure(),
                self.replay() == old(self).replay(),
                self.model() == old(self).model(),
            decreases n - k,
        {
            let id = *set.get(k);
            proof {
                assert(set@.contains(set.seq()[k as int]));
                assert(resumable(ts, id@));
                assert(ts[id@ - 1].id == id@);
                assert(!set.seq().take(k as int).contains(id@)) by {
                    if set.seq().take(k as int).contains(id@) {
                        let j = choose|j: int| 0 <= j < k && set.seq().take(k as int)[j] == id@;
                        assert(set.seq()[j] == set.seq()[k as int]);
                    }
                }
            }
            let tl = self.tasks.len();
            let idx = (id.get() - 1) as usize;
            let mut t = self.tasks[idx];
            proof {
                assert(self.tasks()[idx as int] == t@);
                assert(t@ == ts[idx as int]);
            }
            match t.state {
                TaskState::Suspended { point } => {
                    t.prev_suspend_point = Some(point);
                },
                _ => {},
            }
            t.state = TaskState::Running;
            let ghost before = self.tasks();
            self.tasks.set(idx, t);
            proof {
                assert(t@ == resumed_task(ts[idx as int]));
                assert forall|i: int| 0 <= i < ts.len() implies #[trigger] self.tasks()[i] == if set.seq().take(
                    k + 1,
                ).contains(ts[i].id) {
                    resumed_task(ts[i])
                } else {
                    ts[i]
                } by {
                    assert(set.seq().take(k + 1) =~= set.seq().take(k as int).push(id@));
                    if i != idx {
                        assert(self.tasks()[i] == before[i]);
                        assert(ts[i].id != id@);
                    }
                }
            }
            k = k + 1;
        }
        proof {
            assert(set.seq().take(n as int) =~= set.seq());
            let tasks = self.tasks();
            assert(tasks =~= resume_all(ts, set@)) by {
                assert forall|i: int| 0 <= i < ts.len() implies tasks[i] == resume_all(ts, set@)[i] by {
                    assert(set.seq().take(n as int).contains(ts[i].id) == set@.contains(ts[i].id));
                }
            }
            assert forall|i: int| 0 <= i < tasks.len() implies (#[trigger] tasks[i]).id == i + 1
                && task_in_pool(tasks[i], self.pool()) by {
                assert(task_in_pool(ts[i], self.pool()));
            }
            lemma_count_stable_same(tasks, ts);
            lemma_stable_ids_same(ts, tasks, self.next_stable_task_id);
        }
    }

    /// The names of the tasks, as characters.
    fn task_names(&self) -> (r: Vec<Vec<char>>)
        requires
            self.wf(),
        ensures
            r@.len() == self.tasks().len(),
            forall|i: int| 0 <= i < r@.len() ==> (#[trigger] r@[i])@ == name_of(self.pool(), self.tasks()[i]),
    {
        let mut r: Vec<Vec<char>> = Vec::new();
        let mut i: usize = 0;
        while i < self.tasks.len()
            invariant
                i <= self.tasks().len(),
                self.wf(),
                r@.len() == i,
                forall|j: int| 0 <= j < i ==> (#[trigger] r@[j])@ == name_of(self.pool(), self.tasks()[j]),
            decreases self.tasks().len() - i,
        {
            let t = self.tasks[i];
            proof {
                assert(self.tasks()[i as int] == t@);
                assert(task_in_pool(self.tasks()[i as int], self.pool()));
            }
            match self.string_pool.get(t.name) {
                Some(s) => {
                    r.push(chars_of(s.as_str()));
                },
                None => {
                    r.push(Vec::new());
                },
            }
            i = i + 1;
        }
        r
    }

    /// How many new tasks come before task `i` in the order of stable
    /// identities.
    fn rank_of(&self, names: &Vec<Vec<char>>, i: usize) -> (r: u64)
        requires
            self.wf(),
            i < self.tasks().len(),
            names@.len() == self.tasks().len(),
            forall|j: int| 0 <= j < names@.len() ==> (#[trigger] names@[j])@ == name_of(self.pool(), self.tasks()[j]),
        ensures
            r == new_rank(self.tasks(), self.pool(), self.tasks()[i as int]),
    {
        let ghost ts = self.tasks();
        let ghost pool = self.pool();
        let ti = self.tasks[i];
        proof {
            assert(ts[i as int] == ti@);
        }
        let mut r: u64 = 0;
        let mut j: usize = 0;
        while j < self.tasks.len()
            invariant
                j <= ts.len(),
                ts == self.tasks(),
                pool == self.pool(),
                self.wf(),
                i < ts.len(),
                ti@ == ts[i as int],
                names@.len() == ts.len(),
                forall|k: int| 0 <= k < names@.len() ==> (#[trigger] names@[k])@ == name_of(pool, ts[k]),
                r <= j,
                r == new_rank(ts.take(j as int), pool, ti@),
            decreases ts.len() - j,
        {
            let tj = self.tasks[j];
            proof {
                assert(ts[j as int] == tj@);
                assert(ts.take(j + 1).drop_last() =~= ts.take(j as int));
                assert(ts.take(j + 1).last() == tj@);
            }
            let is_new = match tj.state {
                TaskState::Suspended { .. } => tj.stable_id.is_none(),
                _ => false,
            };
            if is_new {
                let before = text_less(&names[j], &names[i]) || (text_eq(&names[j], &names[i])
                    && tj.id.get() < ti.id.get());
                if before {
                    r = r + 1;
                }
            }
            j = j + 1;
        }
        proof {
            assert(ts.take(j as int) =~= ts);
        }
        r
    }

    /// Gives a stable identity to every suspended task that has none: in the
    /// order of their names, then of their identities, they get the next
    /// stable identities.
    pub fn assign_stable_ids(&mut self)
        requires
            old(self).wf(),
        ensures
            final(self).wf(),
            final(self).tasks() == with_stable_ids(old(self).tasks(), old(self).pool(), old(self).next_stable()),
            final(self).next_stable() == old(self).next_stable() + count_new(old(self).tasks()),
            final(self).events() == old(self).events(),
            final(self).pool() == old(self).pool(),
            final(self).failure() == old(self).failure(),
            final(self).replay() == old(self).replay(),
            final(self).model() == old(self).model(),
    {
        let ghost ts = self.tasks();
        let ghost pool = self.pool();
        let names = self.task_names();
        let next = self.next_stable_task_id;
        proof {
            lemma_count_new_stable(ts);
        }
        let mut result: Vec<Task> = Vec::new();
        let mut count: u64 = 0;
        let mut i: usize = 0;
        while i < self.tasks.len()
            invariant
                i <= ts.len(),
                ts == self.tasks(),
                pool == self.pool(),
                self.wf(),
                next == self.next_stable_task_id,
                names@.len() == ts.len(),
                forall|k: int| 0 <= k < names@.len() ==> (#[trigger] names@[k])@ == name_of(pool, ts[k]),
                count == count_new(ts.take(i as int)),
                count_new(ts) + count_stable(ts) <= ts.len(),
                result@.len() == i,
                forall|k: int| 0 <= k < i ==> (#[trigger] result@[k])@ == with_stable_ids(ts, pool, next)[k],
            decreases ts.len() - i,
        {
            let t = self.tasks[i];
            proof {
                assert(ts[i as int] == t@);
                assert(ts.take(i + 1).drop_last() =~= ts.take(i as int));
                assert(ts.take(i + 1).last() == t@);
                lemma_count_new_stable(ts.take(i + 1));
            }
            let is_new = match t.state {
                TaskState::Suspended { .. } => t.stable_id.is_none(),
                _ => false,
            };
            if is_new {
                let rank = self.rank_of(&names, i);
                proof {
                    lemma_new_rank_bound(ts, pool, t@);
                }
                let stable = TaskStableId::new(next + rank);
                result.push(Task { stable_id: Some(stable), ..t });
                count = count + 1;
            } else {
                result.push(t);
            }
            i = i + 1;
        }
        proof {
            assert(ts.take(i as int) =~= ts);
        }
        self.tasks = result;
        self.next_stable_task_id = next + count;
        proof {
            let tasks = self.tasks();
            assert(tasks =~= with_stable_ids(ts, pool, next));
            assert forall|k: int| 0 <= k < tasks.len() implies (#[trigger] tasks[k]).id == k + 1
                && task_in_pool(tasks[k], pool) by {
                assert(task_in_pool(ts[k], pool));
                assert(ts[k].id == k + 1);
            }
            lemma_count_stable_after(ts, tasks);
            lemma_with_stable_ids_unique(ts, pool, next);
            assert(self.events() == old(self).events());
            assert forall|k: int| 0 <= k < self.events().len() implies event_ok(
                #[trigger] self.events()[k],
                tasks.len(),
                pool,
            ) by {
                assert(event_ok(old(self).events()[k], ts.len(), pool));
            }
        }
    }

    /// Whether every task of every choice is known; if not, the error for
    /// one that is not.
    fn check_options_known(&self, choices: &Vec<TaskScheduleChoice>) -> (r: Result<(), String>)
        requires
            self.wf(),
        ensures
            r is Ok <==> options_known(self.tasks(), choices@),
            r matches Err(m) ==> exists|j: int, id: u64|
                0 <= j < choices@.len() && #[trigger] choices@[j].to_run@.contains(id) && !valid_task_id(
                    self.tasks().len(),
                    id,
                ) && m@ == resume_error(self.tasks(), id),
    {
        let ghost ts = self.tasks();
        let n = self.tasks.len();
        let mut k: usize = 0;
        while k < choices.len()
            invariant
                k <= choices@.len(),
                n == ts.len(),
                ts == self.tasks(),
                self.wf(),
                forall|j: int, id: u64|
                    0 <= j < k && #[trigger] choices@[j].to_run@.contains(id) ==> valid_task_id(ts.len(), id),
            decreases choices@.len() - k,
        {
            let set = &choices[k].to_run;
            proof {
                set.lemma_view();
            }
            let m = set.len();
            let mut j: usize = 0;
            while j < m
                invariant
                    j <= m,
                    m == set.seq().len(),
                    k < choices@.len(),
                    set == choices@[k as int].to_run,
                    n == ts.len(),
                    ts == self.tasks(),
                    self.wf(),
                    forall|i: int| 0 <= i < j ==> valid_task_id(ts.len(), #[trigger] set.seq()[i]),
                decreases m - j,
            {
                let id = *set.get(j);
                if id.get() < 1 || id.get() > n as u64 {
                    let msg = self.resume_error_text(id);
                    proof {
                        set.lemma_view();
                        assert(choices@[k as int].to_run@.contains(id@));
                        assert(!valid_task_id(ts.len(), id@));
                        assert(!options_known(ts, choices@));
                    }
                    return Err(msg);
                }
                j = j + 1;
            }
            proof {
                assert forall|id: u64| #[trigger] set@.contains(id) implies valid_task_id(ts.len(), id) by {
                    let i = choose|i: int| 0 <= i < set.seq().len() && set.seq()[i] == id;
                    assert(valid_task_id(ts.len(), set.seq()[i]));
                }
            }
            k = k + 1;
        }
        Ok(())
    }

    /// Records the decision for choice `k` and resumes its tasks.
    pub fn apply_decision(&mut self, choices: &Vec<TaskScheduleChoice>, k: usize) -> (r: Result<
        bool,
        String,
    >)
        requires
            old(self).wf(),
            k < choices@.len(),
            choices@[k as int].to_run.seq().len() >= 1,
            suspended_have_stable_ids(old(self).tasks()),
        ensures
            final(self).wf(),
            decided(
                old(self).events(),
                old(self).failure(),
                old(self).tasks(),
                choices@,
                k as int,
                final(self).tasks(),
                final(self).events(),
                r,
            ),
            final(self).pool() == old(self).pool(),
            final(self).next_stable() == old(self).next_stable(),
            final(self).failure() == old(self).failure(),
            final(self).replay() == old(self).replay(),
            final(self).model() == old(self).model(),
    {
        let ghost ts = self.tasks();
        let ghost events = self.events();
        match self.check_options_known(choices) {
            Ok(()) => {},
            Err(m) => {
                return Err(m);
            },
        }
        let to_run = &choices[k].to_run;
        match self.check_resumable(to_run) {
            Ok(()) => {},
            Err(m) => {
                return Err(m);
            },
        }
        let (running, suspended) = self.trace_task_snapshots();
        if self.error.is_none() {
            let mut options: Vec<Vec<TaskId>> = Vec::new();
            let mut j: usize = 0;
            while j < choices.len()
                invariant
                    j <= choices@.len(),
                    options@.len() == j,
                    forall|i: int| 0 <= i < j ==> ids_view((#[trigger] options@[i])@) == choices@[i].to_run.seq(),
                decreases choices@.len() - j,
            {
                let v = choices[j].to_run.to_vec();
                proof {
                    assert(ids_view(v@) =~= key_views(v@));
                }
                options.push(v);
                j = j + 1;
            }
            let resumed = to_run.to_vec();
            proof {
                assert(ids_view(resumed@) =~= key_views(resumed@));
                assert(options_view(options@) =~= choice_options(choices@));
            }
            self.trace.push(
                TraceEvent::ScheduleDecision {
                    resumed_tasks: resumed,
                    running_tasks: running,
                    suspended_tasks: suspended,
                    options,
                },
            );
            proof {
                let e = TraceEventView::Decision {
                    resumed: to_run.seq(),
                    running: running_snapshots(ts),
                    suspended: suspended_snapshots(ts),
                    options: choice_options(choices@),
                };
                assert(self.events() =~= events.push(e));
                lemma_snapshots_ok(ts, self.pool());
                assert(decision_named(ts, e)) by {
                    lemma_suspended_snapshots_named(ts);
                    assert forall|x: int| 0 <= x < to_run.seq().len() implies ts[#[trigger] to_run.seq()[x] - 1].stable_id is Some by {
                        to_run.lemma_view();
                        assert(to_run@.contains(to_run.seq()[x]));
                        assert(resumable(ts, to_run.seq()[x]));
                    }
                }
                assert forall|i: int| 0 <= i < self.events().len() implies decision_named(
                    ts,
                    #[trigger] self.events()[i],
                ) by {
                    if i < events.len() {
                        assert(self.events()[i] == events[i]);
                    }
                }
                assert(event_ok(e, ts.len(), self.pool())) by {
                    to_run.lemma_view();
                    let first = to_run.seq()[0];
                    assert(to_run@.contains(first));
                    assert(resumable(ts, first));
                    lemma_suspended_snapshots_nonempty(ts, first - 1);
                    assert forall|i: int| 0 <= i < to_run.seq().len() implies valid_task_id(
                        ts.len(),
                        #[trigger] to_run.seq()[i],
                    ) by {
                        to_run.lemma_view();
                        assert(to_run@.contains(to_run.seq()[i]));
                    }
                    assert forall|i: int| 0 <= i < choice_options(choices@).len() implies ids_ok(
                        #[trigger] choice_options(choices@)[i],
                        ts.len(),
                    ) by {
                        let c = choices@[i];
                        assert forall|x: int| 0 <= x < c.to_run.seq().len() implies valid_task_id(
                            ts.len(),
                            #[trigger] c.to_run.seq()[x],
                        ) by {
                            c.to_run.lemma_view();
                            assert(choices@[i].to_run@.contains(c.to_run.seq()[x]));
                        }
                    }
                }
                assert forall|i: int| 0 <= i < self.events().len() implies event_ok(
                    #[trigger] self.events()[i],
                    ts.len(),
                    self.pool(),
                ) by {
                    if i < events.len() {
                        assert(self.events()[i] == events[i]);
                    }
                }
            }
        }
        self.resume_tasks(to_run);
        Ok(true)
    }

    /// The suspended tasks with their stable identities, names and points.
    fn suspended_ready_list(&self) -> (r: Vec<ReadyTask>)
        requires
            self.wf(),
            suspended_have_stable_ids(self.tasks()),
        ensures
            ready_views(r@) == suspended_ready(self.tasks()),
            ready_in_pool(ready_views(r@), self.pool()),
    {
        let ghost ts = self.tasks();
        let mut r: Vec<ReadyTask> = Vec::new();
        let mut i: usize = 0;
        while i < self.tasks.len()
            invariant
                i <= ts.len(),
                ts == self.tasks(),
                self.wf(),
                suspended_have_stable_ids(ts),
                ready_views(r@) == suspended_ready(ts.take(i as int)),
                ready_in_pool(ready_views(r@), self.pool()),
            decreases ts.len() - i,
        {
            let t = self.tasks[i];
            proof {
                assert(ts[i as int] == t@);
                assert(ts.take(i + 1).drop_last() =~= ts.take(i as int));
                assert(ts.take(i + 1).last() == t@);
                assert(task_in_pool(ts[i as int], self.pool()));
            }
            let ghost before = ready_views(r@);
            match t.state {
                TaskState::Suspended { point } => {
                    match t.stable_id {
                        Some(id) => {
                            r.push(ReadyTask { id, name: t.name, position: point });
                            proof {
                                assert(ready_views(r@) =~= before.push((id@, t.name@, point@)));
                            }
                        },
                        None => {
                            proof {
                                assert(ts[i as int].stable_id is Some);
                            }
                        },
                    }
                },
                _ => {},
            }
            i = i + 1;
        }
        proof {
            assert(ts.take(i as int) =~= ts);
        }
        r
    }

    /// The stable identities of the tasks of the choice, if all are known
    /// and have one.
    fn choice_stable_ids(&self, c: &TaskScheduleChoice) -> (r: Option<VecSet<TaskStableId>>)
        requires
            self.wf(),
        ensures
            r is None <==> !choice_has_stable_ids(self.tasks(), *c),
            r matches Some(s) ==> s@ == choice_stable_set(self.tasks(), *c),
    {
        let ghost ts = self.tasks();
        proof {
            c.to_run.lemma_view();
        }
        let n = self.tasks.len();
        let m = c.to_run.len();
        let mut out: VecSet<TaskStableId> = VecSet::new();
        let mut j: usize = 0;
        while j < m
            invariant
                j <= m,
                m == c.to_run.seq().len(),
                n == ts.len(),
                ts == self.tasks(),
                self.wf(),
                forall|i: int| 0 <= i < j ==> valid_task_id(ts.len(), #[trigger] c.to_run.seq()[i])
                    && ts[c.to_run.seq()[i] - 1].stable_id is Some,
                forall|s: u64| #[trigger] out@.contains(s) <==> exists|i: int|
                    0 <= i < j && ts[c.to_run.seq()[i] - 1].stable_id == Some(s),
            decreases m - j,
        {
            let id = *c.to_run.get(j);
            if id.get() < 1 || id.get() > n as u64 {
                proof {
                    assert(c.to_run@.contains(id@));
                }
                return None;
            }
            let t = self.tasks[(id.get() - 1) as usize];
            proof {
                assert(ts[id@ - 1] == t@);
            }
            match t.stable_id {
                Some(s) => {
                    out.insert(s);
                    proof {
                        assert forall|x: u64| (exists|i: int|
                            0 <= i < j + 1 && ts[c.to_run.seq()[i] - 1].stable_id == Some(x)) implies #[trigger] out@.contains(x) by {
                            let i = choose|i: int| 0 <= i < j + 1 && ts[c.to_run.seq()[i] - 1].stable_id == Some(x);
                            if i == j {
                                assert(x == s@);
                            }
                        }
                    }
                },
                None => {
                    proof {
                        assert(c.to_run@.contains(id@));
                    }
                    return None;
                },
            }
            j = j + 1;
        }
        proof {
            assert forall|id: u64| #[trigger] c.to_run@.contains(id) implies valid_task_id(ts.len(), id)
                && ts[id - 1].stable_id is Some by {
                let i = choose|i: int| 0 <= i < c.to_run.seq().len() && c.to_run.seq()[i] == id;
                assert(valid_task_id(ts.len(), c.to_run.seq()[i]));
            }
            assert forall|x: u64| out@.contains(x) == choice_stable_set(ts, *c).contains(x) by {
                if out@.contains(x) {
                    let i = choose|i: int| 0 <= i < j && ts[c.to_run.seq()[i] - 1].stable_id == Some(x);
                    assert(c.to_run@.contains(c.to_run.seq()[i]));
                }
                if choice_stable_set(ts, *c).contains(x) {
                    let id = choose|id: u64| #[trigger] c.to_run@.contains(id) && ts[id - 1].stable_id == Some(x);
                    let i = choose|i: int| 0 <= i < c.to_run.seq().len() && c.to_run.seq()[i] == id;
                    assert(ts[c.to_run.seq()[i] - 1].stable_id == Some(x));
                }
            }
            assert(out@ =~= choice_stable_set(ts, *c));
        }
        Some(out)
    }

    /// Follows the replay at a decision: the index of the choice that resumes
    /// what the next step of the replay resumed. When the run has left the
    /// replay, the error stops the scheduler.
    pub fn replay_choice(&mut self, choices: &Vec<TaskScheduleChoice>) -> (r: Result<usize, String>)
        requires
            old(self).wf(),
            old(self).replay() is Some,
            suspended_have_stable_ids(old(self).tasks()),
        ensures
            final(self).wf(),
            replay_outcome(
                old(self).tasks(),
                old(self).pool(),
                choices@,
                old(self).replay().unwrap(),
                old(self).failure(),
                final(self).failure(),
                final(self).replay(),
                r,
            ),
            final(self).tasks() == old(self).tasks(),
            final(self).events() == old(self).events(),
            final(self).pool() == old(self).pool(),
            final(self).next_stable() == old(self).next_stable(),
            final(self).model() == old(self).model(),
    {
        let ghost ts = self.tasks();
        let ghost rv = self.replay().unwrap();
        let ready = self.suspended_ready_list();
        let (step, res) = match &self.replay {
            Some(rs) => (rs.next_step, rs.trace.get_resumed_tasks(rs.next_step, &ready, &self.string_pool)),
            None => (0, Err(String::new())),
        };
        let resumed = match res {
            Ok(v) => v,
            Err(e) => {
                let m = diverged_text(step, e.as_str());
                self.error = Some(m.clone());
                proof {
                    old(self).lemma_wf_transfer(self);
                }
                return Err(m);
            },
        };
        proof {
            assert(step == rv.next_step);
        }
        let ghost rview = resumed@.map_values(|t: TaskStableId| t@);
        proof {
            assert(step_outcome(rv.steps, rv.next_step as int, suspended_ready(ts), old(self).pool())
                == Ok::<Seq<u64>, Seq<char>>(rview));
        }
        let mut rset: VecSet<TaskStableId> = VecSet::new();
        let mut ids: Vec<u64> = Vec::new();
        let mut i: usize = 0;
        while i < resumed.len()
            invariant
                i <= resumed@.len(),
                rview == resumed@.map_values(|t: TaskStableId| t@),
                ids@ == rview.take(i as int),
                forall|x: u64| #[trigger] rset@.contains(x) <==> exists|j: int| 0 <= j < i && rview[j] == x,
            decreases resumed@.len() - i,
        {
            let t = resumed[i];
            proof {
                assert(rview[i as int] == t@);
            }
            rset.insert(t);
            let ghost before = ids@;
            ids.push(t.get());
            proof {
                assert(ids@ =~= rview.take(i + 1));
                assert forall|x: u64| (exists|j: int| 0 <= j < i + 1 && rview[j] == x) implies #[trigger] rset@.contains(x) by {
                    let j = choose|j: int| 0 <= j < i + 1 && rview[j] == x;
                    if j == i {
                        assert(x == t@);
                    }
                }
            }
            i = i + 1;
        }
        proof {
            assert(ids@ =~= rview);
            assert forall|x: u64| rset@.contains(x) == rview.to_set().contains(x) by {
                if rview.to_set().contains(x) {
                    assert(rview.contains(x));
                }
            }
            assert(rset@ =~= rview.to_set());
        }
        let n = resumed.len();
        let mut k: usize = 0;
        while k < choices.len()
            invariant
                k <= choices@.len(),
                n == rview.len(),
                ts == self.tasks(),
                self.wf(),
                self.replay() == Some(rv),
                rv == old(self).replay().unwrap(),
                ts == old(self).tasks(),
                step == rv.next_step,
                step_outcome(rv.steps, rv.next_step as int, suspended_ready(ts), old(self).pool())
                    == Ok::<Seq<u64>, Seq<char>>(rview),
                self.failure() == old(self).failure(),
                self.tasks() == old(self).tasks(),
                self.events() == old(self).events(),
                self.pool() == old(self).pool(),
                self.next_stable() == old(self).next_stable(),
                self.model() == old(self).model(),
                rset@ == rview.to_set(),
                scan_clear(ts, choices@, rview, k as int),
            decreases choices@.len() - k,
        {
            let c = &choices[k];
            if c.to_run.len() == n {
                match self.choice_stable_ids(c) {
                    None => {
                        proof {
                            assert(choice_invalid(ts, choices@[k as int], rview));
                            assert(scan_clear(ts, choices@, rview, k as int));
                        }
                        let m = "suspended task has stable id".to_string();
                        proof {
                            reveal_strlit("suspended task has stable id");
                            assert(m@ == "suspended task has stable id"@);
                            assert(self.replay() == Some(rv));
                            assert(self.failure() == old(self).failure());
                            assert(replay_pick(ts, choices@, rview, rv, old(self).failure(), self.failure(), self.replay(), Err::<usize, String>(m)));
                            assert(rv == old(self).replay().unwrap());
                            assert(ts == old(self).tasks());
                            assert(replay_outcome(ts, old(self).pool(), choices@, rv, old(self).failure(), self.failure(), self.replay(), Err::<usize, String>(m)));
                        }
                        return Err(m);
                    },
                    Some(sset) => {
                        if sset.same_set(&rset) {
                            let ghost before = *self;
                            let taken = self.replay.take();
                            match taken {
                                Some(mut st) => {
                                    let len = st.trace.steps.len();
                                    proof {
                                        assert(st.trace@ == rv.steps);
                                        assert(st.next_step == step);
                                        assert(step < rv.steps.len());
                                    }
                                    st.next_step = st.next_step + 1;
                                    self.replay = Some(st);
                                },
                                None => {},
                            }
                            proof {
                                assert(self.tasks() == before.tasks());
                                assert(self.events() == before.events());
                                assert forall|i: int| 0 <= i < self.events().len() implies event_ok(
                                    #[trigger] self.events()[i],
                                    self.tasks().len(),
                                    self.pool(),
                                ) by {
                                    assert(event_ok(before.events()[i], before.tasks().len(), before.pool()));
                                }
                            }
                            proof {
                                assert(choice_matches(ts, choices@[k as int], rview));
                                assert(self.replay() == Some(ReplayView { steps: rv.steps, next_step: (rv.next_step + 1) as usize }));
                                assert(replay_pick(ts, choices@, rview, rv, old(self).failure(), self.failure(), self.replay(), Ok::<usize, String>(k)));
                            }
                            return Ok(k);
                        }
                    },
                }
            }
            proof {
                assert forall|j: int| 0 <= j < k + 1 implies !choice_invalid(ts, #[trigger] choices@[j], rview)
                    && !choice_matches(ts, choices@[j], rview) by {
                    if j < k {
                        assert(!choice_invalid(ts, choices@[j], rview));
                    }
                }
            }
            k = k + 1;
        }
        let mut m = "did not find resumed_tasks [".to_string();
        push_id_list(&mut m, "TaskStableId(", &ids);
        push_str(&mut m, "] among possible choices [");
        push_choice_list(&mut m, choices);
        push_str(&mut m, "]");
        let m2 = diverged_text(step, m.as_str());
        let ghost before = *self;
        self.error = Some(m2.clone());
        proof {
            before.lemma_wf_transfer(self);
        }
        Err(m2)
    }

    proof fn lemma_wf_transfer(&self, other: &Self)
        requires
            self.wf(),
            self.tasks() == other.tasks(),
            self.events() == other.events(),
            self.pool() == other.pool(),
            self.replay() == other.replay(),
            self.next_task_id == other.next_task_id,
            self.next_stable_task_id == other.next_stable_task_id,
        ensures
            other.wf(),
    {
        assert forall|i: int| 0 <= i < other.events().len() implies event_ok(
            #[trigger] other.events()[i],
            other.tasks().len(),
            other.pool(),
        ) by {
            assert(event_ok(self.events()[i], self.tasks().len(), self.pool()));
        }
    }

    fn task_name(&self, t: Task) -> (r: String)
        requires
            self.wf(),
            task_in_pool(t@, self.pool()),
        ensures
            r@ == name_of(self.pool(), t@),
    {
        match self.string_pool.get(t.name) {
            Some(s) => s,
            None => String::new(),
        }
    }

    fn make_task_ref(&self, id: TaskId) -> (r: TaskRef)
        requires
            self.wf(),
            valid_task_id(self.tasks().len(), id@),
        ensures
            r@ == ref_of(self.tasks(), self.pool(), id@),
    {
        let idx = self.task_idx(id);
        let t = self.tasks[idx];
        proof {
            assert(self.tasks()[idx as int] == t@);
        }
        let tid = match t.stable_id {
            Some(s) => FullTraceTaskId::Stable(s),
            None => FullTraceTaskId::Unstable(t.id),
        };
        TaskRef { id: tid, name: self.task_name(t) }
    }

    fn make_task_snapshot(&self, s: TraceTaskSnapshot) -> (r: TaskSnapshot)
        requires
            self.wf(),
            valid_task_id(self.tasks().len(), s@.0),
            s@.1 matches Some(p) ==> pool_get(self.pool(), p) is Some,
        ensures
            r@ == snap_of(self.tasks(), self.pool(), s@),
    {
        let idx = self.task_idx(s.task_id);
        let t = self.tasks[idx];
        proof {
            assert(self.tasks()[idx as int] == t@);
        }
        let tid = match t.stable_id {
            Some(st) => FullTraceTaskId::Stable(st),
            None => FullTraceTaskId::Unstable(t.id),
        };
        let position = match s.point {
            Some(p) => match self.string_pool.get(p) {
                Some(text) => Some(text),
                None => Some(String::new()),
            },
            None => None,
        };
        TaskSnapshot { id: tid, name: self.task_name(t), position }
    }

    fn make_task_refs(&self, ids: &Vec<TaskId>) -> (r: Vec<TaskRef>)
        requires
            self.wf(),
            ids_ok(ids_view(ids@), self.tasks().len()),
        ensures
            sorted_as::<TaskRef>(views_of(r@), refs_of(self.tasks(), self.pool(), ids_view(ids@))),
    {
        let ghost want = refs_of(self.tasks(), self.pool(), ids_view(ids@));
        let mut v: Vec<TaskRef> = Vec::new();
        let mut i: usize = 0;
        while i < ids.len()
            invariant
                i <= ids@.len(),
                self.wf(),
                ids_ok(ids_view(ids@), self.tasks().len()),
                want == refs_of(self.tasks(), self.pool(), ids_view(ids@)),
                views_of(v@) == want.take(i as int),
            decreases ids@.len() - i,
        {
            proof {
                assert(ids_view(ids@)[i as int] == ids@[i as int]@);
            }
            let t = self.make_task_ref(ids[i]);
            let ghost before = views_of(v@);
            v.push(t);
            proof {
                assert(views_of(v@) =~= before.push(t@));
                assert(want.take(i + 1) =~= want.take(i as int).push(want[i as int]));
            }
            i = i + 1;
        }
        proof {
            assert(want.take(i as int) =~= want);
        }
        sort_by_rank(v)
    }

    fn make_task_snapshots(&self, ss: &Vec<TraceTaskSnapshot>) -> (r: Vec<TaskSnapshot>)
        requires
            self.wf(),
            snapshots_ok(snapshots_view(ss@), self.tasks().len(), self.pool()),
        ensures
            sorted_as::<TaskSnapshot>(views_of(r@), snaps_of(self.tasks(), self.pool(), snapshots_view(ss@))),
    {
        let ghost want = snaps_of(self.tasks(), self.pool(), snapshots_view(ss@));
        let mut v: Vec<TaskSnapshot> = Vec::new();
        let mut i: usize = 0;
        while i < ss.len()
            invariant
                i <= ss@.len(),
                self.wf(),
                snapshots_ok(snapshots_view(ss@), self.tasks().len(), self.pool()),
                want == snaps_of(self.tasks(), self.pool(), snapshots_view(ss@)),
                views_of(v@) == want.take(i as int),
            decreases ss@.len() - i,
        {
            proof {
                assert(snapshots_view(ss@)[i as int] == ss@[i as int]@);
            }
            let t = self.make_task_snapshot(ss[i]);
            let ghost before = views_of(v@);
            v.push(t);
            proof {
                assert(views_of(v@) =~= before.push(t@));
                assert(want.take(i + 1) =~= want.take(i as int).push(want[i as int]));
            }
            i = i + 1;
        }
        proof {
            assert(want.take(i as int) =~= want);
        }
        sort_by_rank(v)
    }

    /// The recorded trace as a person reads it.
    pub fn get_trace(&self) -> (r: TraceView)
        requires
            self.wf(),
        ensures
            r@.len() == self.events().len(),
            forall|i: int|
                0 <= i < r@.len() ==> shows_event(self.tasks(), self.pool(), self.events()[i], #[trigger] r@[i]),
    {
        let ghost ts = self.tasks();
        let ghost pool = self.pool();
        let ghost events = self.events();
        let mut items: Vec<TraceViewItem> = Vec::new();
        let mut i: usize = 0;
        while i < self.trace.len()
            invariant
                i <= events.len(),
                self.wf(),
                ts == self.tasks(),
                pool == self.pool(),
                events == self.events(),
                views_of(items@).len() == i,
                forall|j: int| 0 <= j < i ==> shows_event(ts, pool, events[j], #[trigger] views_of(items@)[j]),
            decreases events.len() - i,
        {
            let e = &self.trace[i];
            proof {
                assert(events[i as int] == e@);
                assert(event_ok(events[i as int], ts.len(), pool));
            }
            let item = match e {
                TraceEvent::TaskStarted(id) => TraceViewItem::TaskStarted(self.make_task_ref(*id)),
                TraceEvent::TaskFinished(id) => TraceViewItem::TaskFinished(self.make_task_ref(*id)),
                TraceEvent::TaskSuspended { task, suspend_point } => {
                    let point = match self.string_pool.get(*suspend_point) {
                        Some(text) => text,
                        None => String::new(),
                    };
                    TraceViewItem::TaskSuspended { task: self.make_task_ref(*task), suspend_point: point }
                },
                TraceEvent::AutoResumedTasks { resumed_tasks, running_tasks, suspended_tasks } => {
                    TraceViewItem::AutoResumedTasks {
                        resumed_tasks: self.make_task_refs(resumed_tasks),
                        running_tasks: self.make_task_snapshots(running_tasks),
                        suspended_tasks: self.make_task_snapshots(suspended_tasks),
                    }
                },
                TraceEvent::ScheduleDecision {
                    resumed_tasks,
                    running_tasks,
                    suspended_tasks,
                    options,
                } => {
                    let mut opts: Vec<Vec<TaskRef>> = Vec::new();
                    proof {
                        let ov = options_view(options@);
                        assert(event_ok(e@, ts.len(), pool));
                        assert(e@ == TraceEventView::Decision {
                            resumed: ids_view(resumed_tasks@),
                            running: snapshots_view(running_tasks@),
                            suspended: snapshots_view(suspended_tasks@),
                            options: ov,
                        });
                        let ev = e@;
                        match ev {
                            TraceEventView::Decision { options: o, .. } => {
                                assert(o == ov);
                                assert(forall|j: int| 0 <= j < o.len() ==> ids_ok(#[trigger] o[j], ts.len()));
                            },
                            _ => {},
                        }
                    }
                    let mut k: usize = 0;
                    while k < options.len()
                        invariant
                            k <= options@.len(),
                            self.wf(),
                            ts == self.tasks(),
                            pool == self.pool(),
                            forall|j: int| 0 <= j < options@.len() ==> ids_ok(#[trigger] options_view(options@)[j], ts.len()),
                            opts@.len() == k,
                            forall|j: int|
                                0 <= j < k ==> sorted_as::<TaskRef>(
                                    views_of((#[trigger] opts@[j])@),
                                    refs_of(ts, pool, options_view(options@)[j]),
                                ),
                        decreases options@.len() - k,
                    {
                        proof {
                            assert(options_view(options@)[k as int] == ids_view(options@[k as int]@));
                        }
                        let o = self.make_task_refs(&options[k]);
                        opts.push(o);
                        k = k + 1;
                    }
                    let item = TraceViewItem::ScheduleDecision {
                        resumed_tasks: self.make_task_refs(resumed_tasks),
                        running_tasks: self.make_task_snapshots(running_tasks),
                        suspended_tasks: self.make_task_snapshots(suspended_tasks),
                        options: opts,
                    };
                    proof {
                        let o2 = opts@.map_values(|o: Vec<TaskRef>| views_of(o@));
                        assert forall|j: int| 0 <= j < options_view(options@).len() implies sorted_as::<TaskRef>(
                            #[trigger] o2[j],
                            refs_of(ts, pool, options_view(options@)[j]),
                        ) by {
                            assert(o2[j] == views_of(opts@[j]@));
                        }
                    }
                    item
                },
            };
            let ghost before = views_of(items@);
            items.push(item);
            proof {
                assert(views_of(items@) =~= before.push(item@));
            }
            i = i + 1;
        }
        TraceView { trace: items }
    }

    /// The replay trace of the run so far: one step for each decision. When
    /// the run has made a decision and no name or point holds a comma, the
    /// text of the trace parses back to the trace itself.
    pub fn get_replay(&mut self) -> (r: Result<ReplayTrace, String>)
        requires
            old(self).wf(),
        ensures
            final(self).wf(),
            final(self).pool() == old(self).pool(),
            final(self).tasks() == old(self).tasks(),
            final(self).events() == old(self).events(),
            final(self).next_stable() == old(self).next_stable(),
            final(self).failure() == old(self).failure(),
            final(self).replay() == old(self).replay(),
            final(self).model() == old(self).model(),
            r is Ok <==> old(self).pool().len() < 4294967295,
            r matches Err(e) ==> e@ == "too many strings for a replay trace"@ || e@ == "string pool is full"@,
            r matches Ok(t) ==> {
                &&& indices_in_range(t@)
                &&& t@.strings.no_duplicates()
                &&& exists|tv: Seq<TraceViewItemView>|
                    shows_events(old(self).tasks(), old(self).pool(), old(self).events(), tv)
                        && #[trigger] replay_of(tv, t@)
                &&& (exists|i: int|
                    0 <= i < old(self).events().len() && #[trigger] old(self).events()[i] is Decision)
                    && (forall|k: int|
                    0 <= k < old(self).pool().len() ==> free_of(#[trigger] old(self).pool()[k], ','))
                    ==> parse_trace(trace_text(t@)) == Ok::<ReplayTraceView, Seq<char>>(t@)
            },
    {
        let ghost ts = self.tasks();
        let ghost pool0 = self.pool();
        let ghost events = self.events();
        let tv = self.get_trace();
        proof {
            assert(shows_events(ts, pool0, events, tv@));
            assert forall|j: int| 0 <= j < tv@.len() implies item_error(#[trigger] tv@[j]) is None by {
                assert(shows_event(ts, pool0, events[j], tv@[j]));
                assert(decision_named(ts, events[j]));
                lemma_shown_event_no_error(ts, pool0, events[j], tv@[j]);
            }
            lemma_trace_no_error(tv@);
            assert forall|k: int| 0 <= k < tv@.len() implies strings_in(#[trigger] item_strings(tv@[k]), pool0) by {
                assert(shows_event(ts, pool0, events[k], tv@[k]));
                assert(event_ok(events[k], ts.len(), pool0));
                if tv@[k] is ScheduleDecision {
                    lemma_shown_decision(ts, pool0, old(self).next_stable_task_id, events[k], tv@[k]);
                }
            }
            assert(trace_strings_in(tv@, pool0));
        }
        let attached = match AttachedReplayTrace::from_trace(&mut self.string_pool, &tv) {
            Ok(a) => a,
            Err(e) => {
                proof {
                    self.lemma_pool_grew(old(self), pool0);
                    assert(pool0.len() >= 4294967295);
                }
                return Err(e);
            },
        };
        proof {
            self.lemma_pool_grew(old(self), pool0);
        }
        let n = self.string_pool.len();
        if n >= 4294967295usize {
            return Err("too many strings for a replay trace".to_string());
        }
        proof {
            assert forall|i: int, j: int|
                0 <= i < attached@.len() && 0 <= j < attached@[i].ready.len() implies {
                    let x = #[trigger] attached@[i].ready[j];
                    &&& pool_get(self.pool(), x.1) is Some
                    &&& pool_get(self.pool(), x.2) is Some
                } by {
                assert(step_of_decision(attached@[i], self.pool(), decisions(tv@)[i]));
                if let TraceViewItemView::ScheduleDecision { resumed, suspended, .. } = decisions(tv@)[i] {
                    assert(attached@[i].ready[j] == attached@[i].ready[j]);
                } else {
                }
            }
        }
        let t = attached.to_parsed(&self.string_pool);
        proof {
            let pool = self.pool();
            assert forall|i: int| 0 <= i < t@.steps.len() implies text_step_of_decision(
                #[trigger] t@.steps[i],
                t@.strings,
                decisions(tv@)[i],
            ) by {
                assert(step_of_decision(attached@[i], pool, decisions(tv@)[i]));
                if let TraceViewItemView::ScheduleDecision { resumed, suspended, .. } = decisions(tv@)[i] {
                    assert forall|j: int| 0 <= j < suspended.len() implies {
                        let e = snapshot_entry(suspended[j]).unwrap();
                        &&& (#[trigger] t@.steps[i].suspended[j]).0 == e.0
                        &&& t@.strings[t@.steps[i].suspended[j].1 - 1] == e.1
                        &&& t@.strings[t@.steps[i].suspended[j].2 - 1] == e.2
                    } by {
                        assert(attached@[i].ready[j] == attached@[i].ready[j]);
                    }
                }
            }
            assert(replay_of(tv@, t@));
        }
        proof {
            if (exists|i: int| 0 <= i < events.len() && #[trigger] events[i] is Decision) && (forall|k: int|
                0 <= k < pool0.len() ==> free_of(#[trigger] pool0[k], ',')) {
                lemma_replay_text_round_trips(
                    ts,
                    pool0,
                    old(self).next_stable_task_id,
                    events,
                    tv@,
                    self.pool(),
                    t@,
                );
                lemma_parse_render(t@);
            }
        }
        Ok(t)
    }

    proof fn lemma_pool_grew(&self, before: &Self, pool0: Seq<Seq<char>>)
        requires
            before.wf(),
            pool0 == before.pool(),
            pool_extends(self.pool(), pool0),
            self.tasks() == before.tasks(),
            self.events() == before.events(),
            self.replay() == before.replay(),
            self.next_task_id == before.next_task_id,
            self.next_stable_task_id == before.next_stable_task_id,
        ensures
            self.wf(),
    {
        let tasks = self.tasks();
        assert forall|i: int| 0 <= i < tasks.len() implies task_in_pool(#[trigger] tasks[i], self.pool()) by {
            assert(task_in_pool(before.tasks()[i], pool0));
            lemma_task_in_pool_mono(tasks[i], pool0, self.pool());
        }
        assert forall|i: int| 0 <= i < self.events().len() implies event_ok(
            #[trigger] self.events()[i],
            tasks.len(),
            self.pool(),
        ) by {
            assert(event_ok(before.events()[i], tasks.len(), pool0));
            lemma_event_ok_mono(self.events()[i], tasks.len(), tasks.len(), pool0, self.pool());
        }
        if let Some(rv) = self.replay() {
            lemma_attached_in_pool_mono(rv.steps, pool0, self.pool());
        }
        assert forall|i: int| 0 <= i < tasks.len() implies (#[trigger] tasks[i]).id == i + 1 by {
            assert(before.tasks()[i].id == i + 1);
        }
    }

    /// In a consistent scheduler, task `i + 1` is at position `i`, every
    /// name and point is a string of the pool, stable identities name tasks
    /// (no two tasks share one, and each is below the next to give), every
    /// recorded event names known tasks and strings of the pool, and every
    /// decision names its tasks by stable identities and points.
    pub proof fn lemma_consistent(&self)
        requires
            self.wf(),
        ensures
            forall|i: int| 0 <= i < self.tasks().len() ==> (#[trigger] self.tasks()[i]).id == i + 1,
            forall|i: int|
                0 <= i < self.tasks().len() ==> task_in_pool(#[trigger] self.tasks()[i], self.pool()),
            stable_ids_unique(self.tasks(), self.next_stable()),
            forall|i: int|
                0 <= i < self.events().len() ==> event_ok(#[trigger] self.events()[i], self.tasks().len(), self.pool()),
            forall|i: int| 0 <= i < self.events().len() ==> decision_named(self.tasks(), #[trigger] self.events()[i]),
    {
    }

    /// The position of a known task.
    fn task_idx(&self, task_id: TaskId) -> (r: usize)
        requires
            valid_task_id(self.tasks().len(), task_id@),
        ensures
            r == task_id@ - 1,
            r < self.tasks@.len(),
            r < self.tasks().len(),
    {
        let n = self.tasks.len();
        (task_id.get() - 1) as usize
    }

    /// Whether the task runs.
    pub fn is_running(&self, task_id: TaskId) -> (r: bool)
        requires
            self.wf(),
            valid_task_id(self.tasks().len(), task_id@),
        ensures
            r == (self.tasks()[task_id@ - 1].state is Running),
    {
        let idx = self.task_idx(task_id);
        let t = &self.tasks[idx];
        proof {
            assert(self.tasks()[idx as int] == self.tasks@[idx as int]@);
        }
        match t.state {
            TaskState::Running => true,
            _ => false,
        }
    }

    /// The error that stopped the scheduler, if any.
    pub fn error(&self) -> (r: Option<String>)
        ensures
            match r {
                Some(e) => self.failure() == Some(e@),
                None => self.failure() is None,
            },
    {
        match &self.error {
            Some(e) => Some(e.clone()),
            None => None,
        }
    }

    /// The string that a pool index names.
    pub fn pool_string(&self, idx: StringIdx) -> (r: Option<String>)
        ensures
            match r {
                Some(s) => pool_get(self.pool(), idx@) == Some(s@),
                None => pool_get(self.pool(), idx@) is None,
            },
    {
        self.string_pool.get(idx)
    }
}

impl SchedulerState<()> {
    /// A scheduler with no task yet, with the models of the library and no
    /// other, that follows the replay trace if there is one.
    pub fn new(replay: Option<&ReplayTrace>, task_selector: TaskSelector) -> (r: Self)
        requires
            replay matches Some(t) ==> indices_in_range(t@) && t@.strings.len() < usize::MAX,
        ensures
            r.wf(),
            r.tasks() == Seq::<TaskView>::empty(),
            r.events() == Seq::<TraceEventView>::empty(),
            r.next_stable() == 1,
            r.failure() is None,
            r.model().is_fresh(),
            match replay {
                None => r.replay() is None && r.pool() == Seq::<Seq<char>>::empty(),
                Some(t) => r.replay() matches Some(rv) && rv.next_step == 0 && attached_matches(
                    rv.steps,
                    r.pool(),
                    t@,
                ),
            },
    {
        Self::with_sync_model(SyncModelRegistry::new(), replay, task_selector)
    }
}

impl<X: DynSyncModel> SchedulerState<X> {
    /// One round of the scheduler. When a running task can progress, the
    /// tasks it needs are resumed. Otherwise, among the ways of resuming a
    /// suspended task, one is chosen: the one the replay prescribes, or one
    /// at random. Returns whether tasks were resumed; an error means that
    /// the run cannot go on.
    pub fn control_loop_iteration(&mut self) -> (r: Result<bool, String>)
        requires
            old(self).wf(),
        ensures
            final(self).wf(),
            final(self).pool() == old(self).pool(),
            final(self).model() == old(self).model(),
            control_step(*old(self), *final(self), r),
    {
        let ghost a = *self;
        let (running, suspended) = self.task_sets();
        let action = get_eligible_scheduler_choices(&running, &suspended, &self.sync_model);
        match action {
            NextSchedulerAction::NoChoice(tasks) => {
                let _ = tasks.len();
                proof {
                    tasks.lemma_view();
                }
                if tasks.is_empty() {
                    return Ok(false);
                }
                match self.check_resumable(&tasks) {
                    Ok(()) => {},
                    Err(m) => {
                        proof {
                            assert(tasks.seq().no_duplicates() && tasks.seq().to_set() == tasks@
                                && resume_fails_with(a.tasks(), tasks.seq(), m@));
                        }
                        return Err(m);
                    },
                }
                let (rs, ss) = self.trace_task_snapshots();
                if self.error.is_none() {
                    let resumed = tasks.to_vec();
                    let ghost events = self.events();
                    let ghost ts = self.tasks();
                    self.trace.push(
                        TraceEvent::AutoResumedTasks {
                            resumed_tasks: resumed,
                            running_tasks: rs,
                            suspended_tasks: ss,
                        },
                    );
                    proof {
                        assert(ids_view(resumed@) =~= key_views(resumed@));
                        let e = TraceEventView::AutoResumed {
                            resumed: tasks.seq(),
                            running: running_snapshots(ts),
                            suspended: suspended_snapshots(ts),
                        };
                        assert(self.events() =~= events.push(e));
                        lemma_snapshots_ok(ts, self.pool());
                        assert(event_ok(e, ts.len(), self.pool())) by {
                            assert forall|i: int| 0 <= i < tasks.seq().len() implies valid_task_id(
                                ts.len(),
                                #[trigger] tasks.seq()[i],
                            ) by {
                                assert(tasks@.contains(tasks.seq()[i]));
                            }
                        }
                        assert forall|i: int| 0 <= i < self.events().len() implies event_ok(
                            #[trigger] self.events()[i],
                            ts.len(),
                            self.pool(),
                        ) by {
                            if i < events.len() {
                                assert(self.events()[i] == events[i]);
                            }
                        }
                    }
                }
                proof {
                    assert(self.events() == auto_events(a.events(), a.failure(), tasks.seq(), a.tasks()));
                }
                self.resume_tasks(&tasks);
                proof {
                    assert(tasks.seq().no_duplicates() && tasks.seq().to_set() == tasks@
                        && self.events() == auto_events(a.events(), a.failure(), tasks.seq(), a.tasks()));
                }
                Ok(true)
            },
            NextSchedulerAction::Choices(choices) => {
                if choices.len() == 0 {
                    return Ok(false);
                }
                self.assign_stable_ids();
                let ghost b1 = *self;
                let ghost mut r1: Result<usize, String> = Ok(0);
                let k = if self.replay.is_some() {
                    proof {
                        lemma_stable_ids_cover_suspended(a.tasks(), a.pool(), a.next_stable());
                    }
                    let picked = self.replay_choice(&choices);
                    proof {
                        r1 = picked;
                    }
                    match picked {
                        Ok(k) => k,
                        Err(m) => {
                            proof {
                                assert(replay_outcome(
                                    b1.tasks(),
                                    a.pool(),
                                    choices@,
                                    a.replay().unwrap(),
                                    a.failure(),
                                    self.failure(),
                                    self.replay(),
                                    r1,
                                ));
                            }
                            return Err(m);
                        },
                    }
                } else {
                    self.task_selector.choose_next_running_task(choices.len())
                };
                proof {
                    let c = choices@[k as int];
                    let t = c.chosen_task@;
                    assert(suspended@.contains(t) && is_ready_root(&a.sync_model, t));
                    assert(is_dependency_path(&a.sync_model, seq![t]));
                    assert(reached_from(&a.sync_model, t).contains(t));
                    assert(!running@.contains(t));
                    assert(c.to_run@.contains(t));
                    c.to_run.lemma_view();
                }
                let r = self.apply_decision(&choices, k);
                proof {
                    if let Some(rv) = a.replay() {
                        assert(r1 == Ok::<usize, String>(k));
                        assert(replay_outcome(
                            b1.tasks(),
                            a.pool(),
                            choices@,
                            rv,
                            a.failure(),
                            self.failure(),
                            self.replay(),
                            r1,
                        ));
                    } else {
                        assert(decided(
                            a.events(),
                            a.failure(),
                            b1.tasks(),
                            choices@,
                            k as int,
                            self.tasks(),
                            self.events(),
                            r,
                        ));
                    }
                }
                r
            },
        }
    }
}

} // verus!
