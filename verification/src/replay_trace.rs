//! Replay traces attached to the strings of a scheduler: names and
//! suspension points are indices into the scheduler's string pool, so that
//! the scheduler can compare them with its own tasks.

use crate::full_trace::{
    FullTraceTaskId, FullTraceTaskIdView, TaskRef, TaskRefView, TaskSnapshot, TaskSnapshotView,
    TraceView, TraceViewItem, TraceViewItemView, views_of,
};
use crate::parsed_replay_trace::{
    ReplayStep, ReplayStepView, ReplayTrace, ReplayTraceView, SuspendedTask, indices_in_range,
};
use crate::string_pool::{
    StringIdx, StringPool, lemma_pool_extends_trans, lemma_pool_get_extends, lemma_sub_pool_len,
    pool_extends, pool_get,
};
use crate::task::TaskStableId;
use crate::text::{
    chars_of, debug_str, decimal, joined, lemma_joined_step, push_decimal, push_str, str_debug, text_eq,
    text_less, text_lt,
};
use vstd::prelude::*;

verus! {

broadcast use vstd::seq_lib::group_seq_properties;

/// A task that was suspended at a step: stable identity, name, position.
#[derive(Debug, Clone, Copy)]
pub struct ReadyTask {
    pub id: TaskStableId,
    pub name: StringIdx,
    pub position: StringIdx,
}

impl View for ReadyTask {
    type V = (u64, usize, usize);

    open spec fn view(&self) -> (u64, usize, usize) {
        (self.id@, self.name@, self.position@)
    }
}

/// One scheduling decision of a replay trace.
#[derive(Debug, Clone)]
pub struct AttachedStep {
    pub ready_tasks: Vec<ReadyTask>,
    pub resumed_tasks: Vec<TaskStableId>,
}

pub struct AttachedStepView {
    pub ready: Seq<(u64, usize, usize)>,
    pub resumed: Seq<u64>,
}

impl View for AttachedStep {
    type V = AttachedStepView;

    open spec fn view(&self) -> AttachedStepView {
        AttachedStepView {
            ready: self.ready_tasks@.map_values(|t: ReadyTask| t@),
            resumed: self.resumed_tasks@.map_values(|t: TaskStableId| t@),
        }
    }
}

/// A replay trace whose strings are in a string pool.
#[derive(Debug, Clone)]
pub struct AttachedReplayTrace {
    pub steps: Vec<AttachedStep>,
}

impl View for AttachedReplayTrace {
    type V = Seq<AttachedStepView>;

    open spec fn view(&self) -> Seq<AttachedStepView> {
        self.steps@.map_values(|s: AttachedStep| s@)
    }
}

/// The attached trace says the same as the textual one: the same stable
/// identities, and names and positions that are the same strings.
pub open spec fn attached_matches(
    attached: Seq<AttachedStepView>,
    pool: Seq<Seq<char>>,
    parsed: ReplayTraceView,
) -> bool {
    &&& attached.len() == parsed.steps.len()
    &&& forall|i: int|
        #![trigger attached[i]]
        0 <= i < attached.len() ==> {
            &&& attached[i].resumed == parsed.steps[i].resumed
            &&& attached[i].ready.len() == parsed.steps[i].suspended.len()
            &&& forall|j: int|
                #![trigger attached[i].ready[j]]
                0 <= j < attached[i].ready.len() ==> {
                    let a = attached[i].ready[j];
                    let p = parsed.steps[i].suspended[j];
                    &&& a.0 == p.0
                    &&& pool_get(pool, a.1) == Some(parsed.strings[p.1 - 1])
                    &&& pool_get(pool, a.2) == Some(parsed.strings[p.2 - 1])
                }
        }
}

/// Every name and position of the attached trace is in the pool.
pub open spec fn attached_in_pool(attached: Seq<AttachedStepView>, pool: Seq<Seq<char>>) -> bool {
    forall|i: int, j: int|
        0 <= i < attached.len() && 0 <= j < attached[i].ready.len() ==> {
            let a = #[trigger] attached[i].ready[j];
            &&& pool_get(pool, a.1) is Some
            &&& pool_get(pool, a.2) is Some
        }
}

/// What a suspended task of a decision contributes to a replay step: its
/// stable identity, name and point, when it has both.
pub open spec fn snapshot_entry(s: TaskSnapshotView) -> Option<(u64, Seq<char>, Seq<char>)> {
    match s.id {
        FullTraceTaskIdView::Stable(n) => match s.position {
            Some(p) => Some((n, s.name, p)),
            None => None,
        },
        _ => None,
    }
}

/// The error for the first suspended task that cannot be listed.
pub open spec fn first_snapshot_error(s: Seq<TaskSnapshotView>) -> Option<Seq<char>>
    decreases s.len(),
{
    if s.len() == 0 {
        None
    } else if !(s[0].id is Stable) {
        Some("ready tasks have stable id"@)
    } else if s[0].position is None {
        Some("ready tasks have position"@)
    } else {
        first_snapshot_error(s.drop_first())
    }
}

/// The error for a decision that cannot become a replay step, if any.
pub open spec fn item_error(v: TraceViewItemView) -> Option<Seq<char>> {
    match v {
        TraceViewItemView::ScheduleDecision { resumed, suspended, .. } => match first_snapshot_error(
            suspended,
        ) {
            Some(e) => Some(e),
            None => if forall|i: int| 0 <= i < resumed.len() ==> (#[trigger] resumed[i]).id is Stable {
                None
            } else {
                Some("resumed tasks have stable id"@)
            },
        },
        _ => None,
    }
}

/// The error for the first item that cannot become a replay step, if any.
pub open spec fn trace_error(items: Seq<TraceViewItemView>) -> Option<Seq<char>>
    decreases items.len(),
{
    if items.len() == 0 {
        None
    } else {
        match item_error(items[0]) {
            Some(e) => Some(e),
            None => trace_error(items.drop_first()),
        }
    }
}

/// The decisions of the trace, in order.
pub open spec fn decisions(items: Seq<TraceViewItemView>) -> Seq<TraceViewItemView>
    decreases items.len(),
{
    if items.len() == 0 {
        Seq::empty()
    } else {
        let rest = decisions(items.drop_last());
        if items.last() is ScheduleDecision {
            rest.push(items.last())
        } else {
            rest
        }
    }
}

/// How many strings the decisions of the trace name.
pub open spec fn decision_string_count(items: Seq<TraceViewItemView>) -> nat
    decreases items.len(),
{
    if items.len() == 0 {
        0
    } else {
        decision_string_count(items.drop_last()) + match items.last() {
            TraceViewItemView::ScheduleDecision { suspended, .. } => 2 * suspended.len(),
            _ => 0,
        }
    }
}

pub open spec fn ref_stable_id(r: TaskRefView) -> u64 {
    match r.id {
        FullTraceTaskIdView::Stable(n) => n,
        FullTraceTaskIdView::Unstable(n) => n,
    }
}

/// The names and points of the snapshots.
pub open spec fn snapshot_strings(s: Seq<TaskSnapshotView>) -> Set<Seq<char>> {
    Set::new(
        |x: Seq<char>|
            exists|k: int| 0 <= k < s.len() && ((#[trigger] s[k]).name == x || s[k].position == Some(x)),
    )
}

/// The names and points that the entries name, in order.
pub open spec fn ready_uses(ready: Seq<(u64, usize, usize)>, pool: Seq<Seq<char>>) -> Seq<Seq<char>>
    decreases ready.len(),
{
    if ready.len() == 0 {
        Seq::empty()
    } else {
        ready_uses(ready.drop_last(), pool).push(pool[ready.last().1 - 1]).push(pool[ready.last().2 - 1])
    }
}

/// The names and points that the steps name, in order.
pub open spec fn trace_uses(steps: Seq<AttachedStepView>, pool: Seq<Seq<char>>) -> Seq<Seq<char>>
    decreases steps.len(),
{
    if steps.len() == 0 {
        Seq::empty()
    } else {
        trace_uses(steps.drop_last(), pool) + ready_uses(steps.last().ready, pool)
    }
}

/// The strings in the order in which they first occur, each once.
pub open spec fn first_uses(s: Seq<Seq<char>>) -> Seq<Seq<char>>
    decreases s.len(),
{
    if s.len() == 0 {
        Seq::empty()
    } else {
        let d = first_uses(s.drop_last());
        if d.contains(s.last()) {
            d
        } else {
            d.push(s.last())
        }
    }
}

/// Every one of the strings is in the pool.
pub open spec fn strings_in(strings: Set<Seq<char>>, pool: Seq<Seq<char>>) -> bool {
    forall|x: Seq<char>| #[trigger] strings.contains(x) ==> pool.contains(x)
}

/// Every string that a decision of the trace names is in the pool.
pub open spec fn trace_strings_in(items: Seq<TraceViewItemView>, pool: Seq<Seq<char>>) -> bool {
    forall|k: int| 0 <= k < items.len() ==> strings_in(#[trigger] item_strings(items[k]), pool)
}

/// The strings that a decision of the trace names: its suspended tasks'
/// names and points.
pub open spec fn item_strings(v: TraceViewItemView) -> Set<Seq<char>> {
    match v {
        TraceViewItemView::ScheduleDecision { suspended, .. } => snapshot_strings(suspended),
        _ => Set::empty(),
    }
}

/// The attached step lists the decision's suspended tasks and resumed tasks,
/// names and points by their indices in the pool.
pub open spec fn step_of_decision(step: AttachedStepView, pool: Seq<Seq<char>>, v: TraceViewItemView) -> bool {
    match v {
        TraceViewItemView::ScheduleDecision { resumed, suspended, .. } => {
            &&& step.ready.len() == suspended.len()
            &&& forall|j: int|
                #![trigger step.ready[j]]
                0 <= j < suspended.len() ==> {
                    let e = snapshot_entry(suspended[j]).unwrap();
                    &&& step.ready[j].0 == e.0
                    &&& pool_get(pool, step.ready[j].1) == Some(e.1)
                    &&& pool_get(pool, step.ready[j].2) == Some(e.2)
                }
            &&& step.resumed == resumed.map_values(|r: TaskRefView| ref_stable_id(r))
        },
        _ => false,
    }
}

pub open spec fn ready_views(ts: Seq<ReadyTask>) -> Seq<(u64, usize, usize)> {
    ts.map_values(|t: ReadyTask| t@)
}

/// How a suspended task is shown when a replay diverges.
pub open spec fn ready_task_text(pool: Seq<Seq<char>>, t: (u64, usize, usize)) -> Seq<char> {
    "(TaskStableId("@ + decimal(t.0 as nat) + "), "@ + str_debug(pool_get(pool, t.1).unwrap()) + ", "@
        + str_debug(pool_get(pool, t.2).unwrap()) + ")"@
}

pub open spec fn ready_task_texts(pool: Seq<Seq<char>>, ts: Seq<(u64, usize, usize)>) -> Seq<Seq<char>> {
    Seq::new(ts.len(), |i: int| ready_task_text(pool, ts[i]))
}

/// How a list of suspended tasks is shown when a replay diverges.
pub open spec fn ready_list_text(pool: Seq<Seq<char>>, ts: Seq<(u64, usize, usize)>) -> Seq<char> {
    "["@ + joined(ready_task_texts(pool, ts), ", "@) + "]"@
}

/// The suspended tasks are those that the step expects: as many, and each
/// expected one is among them.
pub open spec fn ready_matches(expected: Seq<(u64, usize, usize)>, actual: Seq<(u64, usize, usize)>) -> bool {
    &&& expected.len() == actual.len()
    &&& forall|i: int| 0 <= i < expected.len() ==> actual.contains(#[trigger] expected[i])
}

/// What a step of the replay prescribes when `actual` are the suspended
/// tasks: the tasks to resume, or why the run diverged from the replay.
pub open spec fn step_outcome(
    steps: Seq<AttachedStepView>,
    step: int,
    actual: Seq<(u64, usize, usize)>,
    pool: Seq<Seq<char>>,
) -> Result<Seq<u64>, Seq<char>> {
    if step >= steps.len() {
        Err("no more steps"@)
    } else if ready_matches(steps[step].ready, actual) {
        Ok(steps[step].resumed)
    } else {
        Err(
            "replay diverged: ready tasks don't match: expected "@ + ready_list_text(
                pool,
                ready_sorted(pool, steps[step].ready),
            ) + ", got "@ + ready_list_text(pool, ready_sorted(pool, actual)),
        )
    }
}

/// A step of the replay is followed only when the suspended tasks are the
/// ones it lists: as many, and each listed task among them with the same
/// stable identity, name and point. Then the step gives the tasks it
/// resumed; otherwise the run has diverged from the replay, and the message
/// says so. Past the last step there is no step to follow.
pub proof fn lemma_step_followed_only_on_exact_match(
    steps: Seq<AttachedStepView>,
    step: int,
    actual: Seq<(u64, usize, usize)>,
    pool: Seq<Seq<char>>,
)
    requires
        0 <= step,
    ensures
        step >= steps.len() ==> step_outcome(steps, step, actual, pool) == Err::<Seq<u64>, Seq<char>>(
            "no more steps"@,
        ),
        step < steps.len() ==> (step_outcome(steps, step, actual, pool) is Ok <==> {
            &&& steps[step].ready.len() == actual.len()
            &&& forall|i: int|
                #![trigger steps[step].ready[i]]
                0 <= i < steps[step].ready.len() ==> exists|m: int|
                    #![trigger actual[m]]
                    0 <= m < actual.len() && actual[m].0 == steps[step].ready[i].0 && actual[m].1
                        == steps[step].ready[i].1 && actual[m].2 == steps[step].ready[i].2
        }),
        step_outcome(steps, step, actual, pool) matches Ok(r) ==> r == steps[step].resumed,
        step_outcome(steps, step, actual, pool) matches Err(e) ==> step < steps.len()
            ==> "replay diverged: ready tasks don't match: expected "@.is_prefix_of(e),
{
    if step < steps.len() {
        let ex = steps[step].ready;
        let exact = forall|i: int|
            #![trigger ex[i]]
            0 <= i < ex.len() ==> exists|m: int|
                #![trigger actual[m]]
                0 <= m < actual.len() && actual[m].0 == ex[i].0 && actual[m].1 == ex[i].1 && actual[m].2 == ex[i].2;
        if ready_matches(ex, actual) {
            assert forall|i: int| #![trigger ex[i]] 0 <= i < ex.len() implies exists|m: int|
                #![trigger actual[m]]
                0 <= m < actual.len() && actual[m].0 == ex[i].0 && actual[m].1 == ex[i].1 && actual[m].2
                    == ex[i].2 by {
                assert(actual.contains(ex[i]));
                let m = choose|m: int| 0 <= m < actual.len() && actual[m] == ex[i];
                assert(actual[m].0 == ex[i].0);
            }
        }
        if ex.len() == actual.len() && exact {
            assert forall|i: int| 0 <= i < ex.len() implies actual.contains(#[trigger] ex[i]) by {
                let m = choose|m: int|
                    #![trigger actual[m]]
                    0 <= m < actual.len() && actual[m].0 == ex[i].0 && actual[m].1 == ex[i].1 && actual[m].2 == ex[i].2;
                assert(actual[m] == ex[i]);
            }
        }
        let lit = "replay diverged: ready tasks don't match: expected "@;
        let rest = ready_list_text(pool, ready_sorted(pool, ex)) + ", got "@ + ready_list_text(
            pool,
            ready_sorted(pool, actual),
        );
        assert(lit + ready_list_text(pool, ready_sorted(pool, ex)) + ", got "@ + ready_list_text(
            pool,
            ready_sorted(pool, actual),
        ) =~= lit + rest);
        assert((lit + rest).subrange(0, lit.len() as int) =~= lit);
    }
}

pub open spec fn ready_in_pool(ts: Seq<(u64, usize, usize)>, pool: Seq<Seq<char>>) -> bool {
    forall|i: int|
        0 <= i < ts.len() ==> pool_get(pool, (#[trigger] ts[i]).1) is Some && pool_get(pool, ts[i].2) is Some
}

fn push_pool_debug(out: &mut String, pool: &StringPool, idx: StringIdx)
    requires
        pool_get(pool@, idx@) is Some,
    ensures
        final(out)@ == old(out)@ + str_debug(pool_get(pool@, idx@).unwrap()),
{
    match pool.get(idx) {
        Some(s) => {
            let d = debug_str(s.as_str());
            push_str(out, d.as_str());
        },
        None => {},
    }
}

/// Task `a` comes before task `b` in a listing: by stable identity, then
/// by name, then by point.
pub open spec fn ready_before(pool: Seq<Seq<char>>, a: (u64, usize, usize), b: (u64, usize, usize)) -> bool {
    ||| a.0 < b.0
    ||| a.0 == b.0 && text_lt(pool[a.1 - 1], pool[b.1 - 1])
    ||| a.0 == b.0 && pool[a.1 - 1] == pool[b.1 - 1] && text_lt(pool[a.2 - 1], pool[b.2 - 1])
}

/// `x` placed into `r` just before the first task it comes before.
pub open spec fn ready_insert(pool: Seq<Seq<char>>, r: Seq<(u64, usize, usize)>, x: (u64, usize, usize)) -> Seq<
    (u64, usize, usize),
>
    decreases r.len(),
{
    if r.len() == 0 {
        seq![x]
    } else if ready_before(pool, x, r[0]) {
        seq![x] + r
    } else {
        seq![r[0]] + ready_insert(pool, r.drop_first(), x)
    }
}

/// The tasks in listing order, tasks that none comes before keeping their
/// relative order.
pub open spec fn ready_sorted(pool: Seq<Seq<char>>, s: Seq<(u64, usize, usize)>) -> Seq<(u64, usize, usize)>
    decreases s.len(),
{
    if s.len() == 0 {
        Seq::empty()
    } else {
        ready_insert(pool, ready_sorted(pool, s.drop_last()), s.last())
    }
}

proof fn lemma_ready_insert_at(
    pool: Seq<Seq<char>>,
    r: Seq<(u64, usize, usize)>,
    x: (u64, usize, usize),
    k: int,
)
    requires
        0 <= k <= r.len(),
        forall|j: int| 0 <= j < k ==> !ready_before(pool, x, #[trigger] r[j]),
        k < r.len() ==> ready_before(pool, x, r[k]),
    ensures
        ready_insert(pool, r, x) == r.take(k).push(x) + r.skip(k),
    decreases r.len(),
{
    if r.len() == 0 {
        assert(r.take(k).push(x) + r.skip(k) =~= seq![x]);
    } else if k == 0 {
        assert(r.take(k).push(x) + r.skip(k) =~= seq![x] + r);
    } else {
        let t = r.drop_first();
        assert forall|j: int| 0 <= j < k - 1 implies !ready_before(pool, x, #[trigger] t[j]) by {
            assert(t[j] == r[j + 1]);
        }
        assert(!ready_before(pool, x, r[0]));
        lemma_ready_insert_at(pool, t, x, k - 1);
        assert(seq![r[0]] + (t.take(k - 1).push(x) + t.skip(k - 1)) =~= r.take(k).push(x) + r.skip(k));
    }
}

/// The strings of both tasks, compared: whether `a` comes before `b`.
fn ready_less(a: &ReadyTask, b: &ReadyTask, pool: &StringPool) -> (r: bool)
    requires
        pool_get(pool@, a@.1) is Some,
        pool_get(pool@, a@.2) is Some,
        pool_get(pool@, b@.1) is Some,
        pool_get(pool@, b@.2) is Some,
    ensures
        r == ready_before(pool@, a@, b@),
{
    let ai = a.id.get();
    let bi = b.id.get();
    if ai != bi {
        return ai < bi;
    }
    let an = match pool.get(a.name) {
        Some(x) => chars_of(x.as_str()),
        None => Vec::new(),
    };
    let bn = match pool.get(b.name) {
        Some(x) => chars_of(x.as_str()),
        None => Vec::new(),
    };
    if text_less(&an, &bn) {
        return true;
    }
    if !text_eq(&an, &bn) {
        return false;
    }
    let ap = match pool.get(a.position) {
        Some(x) => chars_of(x.as_str()),
        None => Vec::new(),
    };
    let bp = match pool.get(b.position) {
        Some(x) => chars_of(x.as_str()),
        None => Vec::new(),
    };
    text_less(&ap, &bp)
}

/// The tasks in listing order.
fn sorted_ready(ts: &Vec<ReadyTask>, pool: &StringPool) -> (r: Vec<ReadyTask>)
    requires
        ready_in_pool(ready_views(ts@), pool@),
    ensures
        ready_views(r@) == ready_sorted(pool@, ready_views(ts@)),
        ready_in_pool(ready_views(r@), pool@),
{
    let ghost v = ready_views(ts@);
    let mut r: Vec<ReadyTask> = Vec::new();
    let mut i: usize = 0;
    proof {
        assert(v.take(0) =~= Seq::<(u64, usize, usize)>::empty());
        assert(ready_views(r@) =~= Seq::<(u64, usize, usize)>::empty());
    }
    while i < ts.len()
        invariant
            i <= ts@.len(),
            v == ready_views(ts@),
            ready_in_pool(v, pool@),
            ready_in_pool(ready_views(r@), pool@),
            ready_views(r@) == ready_sorted(pool@, v.take(i as int)),
        decreases ts@.len() - i,
    {
        let x = ts[i];
        proof {
            assert(v[i as int] == x@);
        }
        let mut k: usize = 0;
        proof {
            assert forall|j: int| 0 <= j < r@.len() implies pool_get(pool@, (#[trigger] r@[j])@.1) is Some
                && pool_get(pool@, r@[j]@.2) is Some by {
                assert(ready_views(r@)[j] == r@[j]@);
            }
        }
        while k < r.len() && !ready_less(&x, &r[k], pool)
            invariant
                k <= r@.len(),
                x@ == v[i as int],
                0 <= i < v.len(),
                ready_in_pool(v, pool@),
                ready_in_pool(ready_views(r@), pool@),
                forall|j: int|
                    0 <= j < r@.len() ==> pool_get(pool@, (#[trigger] r@[j])@.1) is Some && pool_get(pool@, r@[j]@.2)
                        is Some,
                pool_get(pool@, x@.1) is Some && pool_get(pool@, x@.2) is Some,
                forall|j: int| 0 <= j < k ==> !ready_before(pool@, x@, #[trigger] ready_views(r@)[j]),
            decreases r@.len() - k,
        {
            proof {
                assert(ready_views(r@)[k as int] == r@[k as int]@);
            }
            k = k + 1;
        }
        let ghost before = ready_views(r@);
        proof {
            if k < r@.len() {
                assert(before[k as int] == r@[k as int]@);
            }
            lemma_ready_insert_at(pool@, before, x@, k as int);
            assert(v.take(i + 1).drop_last() =~= v.take(i as int));
        }
        r.insert(k, x);
        proof {
            assert(ready_views(r@) =~= before.take(k as int).push(x@) + before.skip(k as int));
            assert(ready_views(r@) == ready_sorted(pool@, v.take(i + 1)));
            assert forall|j: int| 0 <= j < ready_views(r@).len() implies pool_get(pool@, (#[trigger] ready_views(r@)[j]).1) is Some
                && pool_get(pool@, ready_views(r@)[j].2) is Some by {
                if j < k {
                    assert(ready_views(r@)[j] == before[j]);
                } else if j > k {
                    assert(ready_views(r@)[j] == before[j - 1]);
                }
            }
        }
        i = i + 1;
    }
    proof {
        assert(v.take(i as int) =~= v);
    }
    r
}

fn push_ready_task(out: &mut String, t: &ReadyTask, pool: &StringPool)
    requires
        pool_get(pool@, t@.1) is Some,
        pool_get(pool@, t@.2) is Some,
    ensures
        final(out)@ == old(out)@ + ready_task_text(pool@, t@),
{
    push_str(out, "(TaskStableId(");
    push_decimal(out, t.id.get());
    push_str(out, "), ");
    push_pool_debug(out, pool, t.name);
    push_str(out, ", ");
    push_pool_debug(out, pool, t.position);
    push_str(out, ")");
    proof {
        assert(final(out)@ =~= old(out)@ + ready_task_text(pool@, t@));
    }
}

fn push_ready_list(out: &mut String, ts: &Vec<ReadyTask>, pool: &StringPool)
    requires
        ready_in_pool(ready_views(ts@), pool@),
    ensures
        final(out)@ == old(out)@ + ready_list_text(pool@, ready_views(ts@)),
{
    push_str(out, "[");
    let ghost start = out@;
    let ghost texts = ready_task_texts(pool@, ready_views(ts@));
    proof {
        assert(start + joined(texts.take(0), ", "@) =~= start);
    }
    let mut i: usize = 0;
    while i < ts.len()
        invariant
            i <= ts@.len(),
            texts == ready_task_texts(pool@, ready_views(ts@)),
            ready_in_pool(ready_views(ts@), pool@),
            out@ == start + joined(texts.take(i as int), ", "@),
        decreases ts@.len() - i,
    {
        let ghost before = out@;
        if i > 0 {
            push_str(out, ", ");
        }
        proof {
            assert(ready_views(ts@)[i as int] == ts@[i as int]@);
        }
        push_ready_task(out, &ts[i], pool);
        proof {
            lemma_joined_step(texts, ", "@, i as int);
            if i == 0 {
                assert(out@ =~= start + joined(texts.take(i + 1), ", "@));
            } else {
                assert(out@ =~= start + joined(texts.take(i + 1), ", "@));
            }
        }
        i = i + 1;
    }
    proof {
        assert(texts.take(i as int) =~= texts);
    }
    push_str(out, "]");
    proof {
        assert(out@ =~= old(out)@ + ready_list_text(pool@, ready_views(ts@)));
    }
}

/// Growing the pool of a textual trace keeps it matching the attached one.
proof fn lemma_keeps_matching(
    attached: Seq<AttachedStepView>,
    pool: Seq<Seq<char>>,
    a: Seq<Seq<char>>,
    b: Seq<Seq<char>>,
    steps: Seq<ReplayStepView>,
)
    requires
        attached_matches(attached, pool, ReplayTraceView { strings: a, steps }),
        indices_in_range(ReplayTraceView { strings: a, steps }),
        pool_extends(b, a),
    ensures
        attached_matches(attached, pool, ReplayTraceView { strings: b, steps }),
        indices_in_range(ReplayTraceView { strings: b, steps }),
{
    assert forall|i: int, j: int| 0 <= i < steps.len() && 0 <= j < steps[i].suspended.len() implies {
        let task = #[trigger] steps[i].suspended[j];
        &&& b[task.1 - 1] == a[task.1 - 1]
        &&& b[task.2 - 1] == a[task.2 - 1]
    } by {
        let task = steps[i].suspended[j];
        lemma_pool_get_extends(b, a, task.1 as usize);
        lemma_pool_get_extends(b, a, task.2 as usize);
    }
}

fn clone_strings(v: &Vec<String>) -> (r: Vec<String>)
    ensures
        r@.map_values(|s: String| s@) == v@.map_values(|s: String| s@),
{
    let mut r: Vec<String> = Vec::new();
    let mut i: usize = 0;
    while i < v.len()
        invariant
            i <= v@.len(),
            r@.map_values(|s: String| s@) == v@.map_values(|s: String| s@).take(i as int),
        decreases v@.len() - i,
    {
        let ghost before = r@.map_values(|s: String| s@);
        r.push(v[i].clone());
        proof {
            assert(r@.map_values(|s: String| s@) =~= before.push(v@[i as int]@));
        }
        i = i + 1;
    }
    proof {
        assert(v@.map_values(|s: String| s@).take(i as int) =~= v@.map_values(|s: String| s@));
    }
    r
}

proof fn lemma_step_of_decision_mono(
    step: AttachedStepView,
    a: Seq<Seq<char>>,
    b: Seq<Seq<char>>,
    v: TraceViewItemView,
)
    requires
        step_of_decision(step, a, v),
        pool_extends(b, a),
    ensures
        step_of_decision(step, b, v),
{
    if let TraceViewItemView::ScheduleDecision { resumed, suspended, .. } = v {
        assert forall|j: int| 0 <= j < suspended.len() implies {
            let e = snapshot_entry(suspended[j]).unwrap();
            &&& pool_get(b, (#[trigger] step.ready[j]).1) == Some(e.1)
            &&& pool_get(b, step.ready[j].2) == Some(e.2)
        } by {
            lemma_pool_get_extends(b, a, step.ready[j].1);
            lemma_pool_get_extends(b, a, step.ready[j].2);
        }
    }
}

/// Interns a string when the pool has room for one more.
fn intern_if_room(pool: &mut StringPool, value: &str) -> (r: Option<StringIdx>)
    ensures
        pool_extends(final(pool)@, old(pool)@),
        final(pool)@.len() <= old(pool)@.len() + 1,
        old(pool)@.len() < usize::MAX ==> r is Some,
        r matches Some(i) ==> pool_get(final(pool)@, i@) == Some(value@),
        forall|x: Seq<char>| #[trigger] final(pool)@.contains(x) ==> old(pool)@.contains(x) || x == value@,
        old(pool)@.contains(value@) ==> final(pool)@ == old(pool)@,
{
    let n = pool.len();
    if n < usize::MAX {
        Some(pool.intern(value))
    } else {
        proof {
            assert(pool@.take(pool@.len() as int) =~= pool@);
        }
        None
    }
}

/// Each decision is an item of the trace.
pub(crate) proof fn lemma_decision_origin(items: Seq<TraceViewItemView>, i: int)
    requires
        0 <= i < decisions(items).len(),
    ensures
        exists|j: int| 0 <= j < items.len() && #[trigger] items[j] == decisions(items)[i],
        decisions(items)[i] is ScheduleDecision,
    decreases items.len(),
{
    let rest = decisions(items.drop_last());
    if items.last() is ScheduleDecision && i == rest.len() {
        assert(items[items.len() - 1] == decisions(items)[i]);
    } else {
        lemma_decision_origin(items.drop_last(), i);
        let j = choose|j: int| 0 <= j < items.drop_last().len() && #[trigger] items.drop_last()[j]
            == decisions(items.drop_last())[i];
        assert(items[j] == decisions(items)[i]);
    }
}

/// A trace with a decision has a step.
pub(crate) proof fn lemma_decisions_nonempty(items: Seq<TraceViewItemView>, j: int)
    requires
        0 <= j < items.len(),
        items[j] is ScheduleDecision,
    ensures
        decisions(items).len() >= 1,
    decreases items.len(),
{
    if j < items.len() - 1 {
        assert(items.drop_last()[j] == items[j]);
        lemma_decisions_nonempty(items.drop_last(), j);
    }
}

/// A trace without an error has none in any item.
pub(crate) proof fn lemma_trace_error_at(items: Seq<TraceViewItemView>, j: int)
    requires
        trace_error(items) is None,
        0 <= j < items.len(),
    ensures
        item_error(items[j]) is None,
    decreases items.len(),
{
    if j > 0 {
        assert(items.drop_first()[j - 1] == items[j]);
        lemma_trace_error_at(items.drop_first(), j - 1);
    }
}

/// Snapshots that each have a stable identity and a point have no error.
pub(crate) proof fn lemma_snapshots_no_error(s: Seq<TaskSnapshotView>)
    requires
        forall|k: int| 0 <= k < s.len() ==> (#[trigger] s[k]).id is Stable && s[k].position is Some,
    ensures
        first_snapshot_error(s) is None,
    decreases s.len(),
{
    if s.len() > 0 {
        assert forall|k: int| 0 <= k < s.drop_first().len() implies (#[trigger] s.drop_first()[k]).id is Stable
            && s.drop_first()[k].position is Some by {
            assert(s.drop_first()[k] == s[k + 1]);
        }
        lemma_snapshots_no_error(s.drop_first());
    }
}

/// A trace none of whose items has an error has none.
pub(crate) proof fn lemma_trace_no_error(items: Seq<TraceViewItemView>)
    requires
        forall|j: int| 0 <= j < items.len() ==> item_error(#[trigger] items[j]) is None,
    ensures
        trace_error(items) is None,
    decreases items.len(),
{
    if items.len() > 0 {
        assert(item_error(items[0]) is None);
        assert forall|j: int| 0 <= j < items.drop_first().len() implies item_error(
            #[trigger] items.drop_first()[j],
        ) is None by {
            assert(items.drop_first()[j] == items[j + 1]);
        }
        lemma_trace_no_error(items.drop_first());
    }
}

/// Snapshots without an error each have a stable identity and a point.
pub(crate) proof fn lemma_snapshots_listed(s: Seq<TaskSnapshotView>, k: int)
    requires
        first_snapshot_error(s) is None,
        0 <= k < s.len(),
    ensures
        s[k].id is Stable,
        s[k].position is Some,
    decreases s.len(),
{
    if k > 0 {
        assert(s.drop_first()[k - 1] == s[k]);
        lemma_snapshots_listed(s.drop_first(), k - 1);
    }
}

proof fn lemma_decision_string_count_prefix(items: Seq<TraceViewItemView>, i: int)
    requires
        0 <= i <= items.len(),
    ensures
        decision_string_count(items.take(i)) <= decision_string_count(items),
    decreases items.len() - i,
{
    if i < items.len() {
        lemma_decision_string_count_prefix(items, i + 1);
        assert(items.take(i + 1).drop_last() =~= items.take(i));
    } else {
        assert(items.take(i) =~= items);
    }
}

fn intern_all(pool: &mut StringPool, strings: &Vec<String>) -> (r: Vec<StringIdx>)
    requires
        old(pool)@.len() + strings@.len() < usize::MAX,
    ensures
        pool_extends(final(pool)@, old(pool)@),
        final(pool)@.len() <= old(pool)@.len() + strings@.len(),
        r@.len() == strings@.len(),
        forall|i: int| 0 <= i < strings@.len() ==> pool_get(final(pool)@, #[trigger] r@[i]@) == Some(strings@[i]@),
{
    let ghost start = pool@;
    proof {
        assert(start.take(start.len() as int) =~= start);
    }
    let mut ids: Vec<StringIdx> = Vec::new();
    let mut i: usize = 0;
    while i < strings.len()
        invariant
            i <= strings@.len(),
            start.len() + strings@.len() < usize::MAX,
            pool_extends(pool@, start),
            pool@.len() <= start.len() + i,
            ids@.len() == i,
            forall|k: int| 0 <= k < i ==> pool_get(pool@, #[trigger] ids@[k]@) == Some(strings@[k]@),
        decreases strings@.len() - i,
    {
        let ghost before = pool@;
        let idx = pool.intern(strings[i].as_str());
        proof {
            if pool@ != before {
                assert(pool@.take(before.len() as int) =~= before);
            } else {
                assert(pool@.take(before.len() as int) =~= before);
            }
            assert(pool@.take(start.len() as int) =~= start) by {
                assert(before.take(start.len() as int) == start);
                assert(pool@.take(start.len() as int) =~= before.take(start.len() as int));
            }
            assert forall|k: int| 0 <= k < i implies pool_get(pool@, #[trigger] ids@[k]@) == Some(strings@[k]@) by {
                lemma_pool_get_extends(pool@, before, ids@[k]@);
            }
        }
        ids.push(idx);
        i = i + 1;
    }
    ids
}

impl AttachedReplayTrace {
    /// The tasks that the step of the replay resumes, when the suspended
    /// tasks are those it expects.
    pub fn get_resumed_tasks(
        &self,
        step_idx: usize,
        ready_tasks: &Vec<ReadyTask>,
        pool: &StringPool,
    ) -> (r: Result<Vec<TaskStableId>, String>)
        requires
            attached_in_pool(self@, pool@),
            ready_in_pool(ready_views(ready_tasks@), pool@),
        ensures
            match (r, step_outcome(self@, step_idx as int, ready_views(ready_tasks@), pool@)) {
                (Ok(v), Ok(s)) => v@.map_values(|t: TaskStableId| t@) == s,
                (Err(m), Err(e)) => m@ == e,
                _ => false,
            },
    {
        if step_idx >= self.steps.len() {
            return Err("no more steps".to_string());
        }
        let step = &self.steps[step_idx];
        let ghost sv = self@[step_idx as int];
        let ghost actual = ready_views(ready_tasks@);
        proof {
            assert(sv == step@);
        }
        let mut matches = step.ready_tasks.len() == ready_tasks.len();
        let mut j: usize = 0;
        while matches && j < step.ready_tasks.len()
            invariant
                j <= step.ready_tasks@.len(),
                sv == step@,
                actual == ready_views(ready_tasks@),
                matches ==> sv.ready.len() == actual.len(),
                matches ==> forall|k: int| 0 <= k < j ==> actual.contains(#[trigger] sv.ready[k]),
                !matches ==> !ready_matches(sv.ready, actual),
            decreases step.ready_tasks@.len() - j,
        {
            let e = step.ready_tasks[j];
            proof {
                assert(sv.ready[j as int] == e@);
            }
            let mut found = false;
            let mut k: usize = 0;
            while k < ready_tasks.len()
                invariant
                    k <= ready_tasks@.len(),
                    actual == ready_views(ready_tasks@),
                    found == exists|m: int| 0 <= m < k && actual[m] == e@,
                decreases ready_tasks@.len() - k,
            {
                let a = ready_tasks[k];
                proof {
                    assert(actual[k as int] == a@);
                }
                if a.id.get() == e.id.get() && a.name.as_usize() == e.name.as_usize()
                    && a.position.as_usize() == e.position.as_usize() {
                    found = true;
                }
                k = k + 1;
            }
            if !found {
                matches = false;
                proof {
                    assert(!actual.contains(sv.ready[j as int]));
                }
            } else {
                proof {
                    let m = choose|m: int| 0 <= m < k && actual[m] == e@;
                    assert(actual.contains(sv.ready[j as int]));
                }
            }
            j = j + 1;
        }
        if matches {
            Ok(step.resumed_tasks.clone())
        } else {
            let mut m = "replay diverged: ready tasks don't match: expected ".to_string();
            proof {
                assert forall|i: int| 0 <= i < sv.ready.len() implies pool_get(pool@, (#[trigger] sv.ready[i]).1) is Some
                    && pool_get(pool@, sv.ready[i].2) is Some by {
                    assert(self@[step_idx as int].ready[i] == sv.ready[i]);
                }
                assert(ready_views(step.ready_tasks@) == sv.ready);
            }
            let expected = sorted_ready(&step.ready_tasks, pool);
            let got = sorted_ready(ready_tasks, pool);
            push_ready_list(&mut m, &expected, pool);
            push_str(&mut m, ", got ");
            push_ready_list(&mut m, &got, pool);
            Err(m)
        }
    }

    /// The replay step of an item of the full trace: nothing for an item
    /// that is not a decision; for a decision, its suspended tasks (stable
    /// identity, name, point) and the stable identities of the tasks it
    /// resumed, names and points interned in the pool.
    pub fn step_from_item(item: &TraceViewItem, pool: &mut StringPool) -> (r: Result<
        Option<AttachedStep>,
        String,
    >)
        ensures
            pool_extends(final(pool)@, old(pool)@),
            final(pool)@.len() <= old(pool)@.len() + match item@ {
                TraceViewItemView::ScheduleDecision { suspended, .. } => 2 * suspended.len(),
                _ => 0,
            },
            !(item@ is ScheduleDecision) ==> r matches Ok(None),
            item@ is ScheduleDecision ==> !(r matches Ok(None)),
            item_error(item@) is Some ==> r is Err,
            (item_error(item@) is None && match item@ {
                TraceViewItemView::ScheduleDecision { suspended, .. } => old(pool)@.len() + 2
                    * suspended.len() < usize::MAX,
                _ => true,
            }) ==> r is Ok,
            r matches Ok(Some(step)) ==> step_of_decision(step@, final(pool)@, item@),
            r matches Err(m) ==> item_error(item@) == Some(m@) || m@ == "string pool is full"@,
            forall|x: Seq<char>| #[trigger] final(pool)@.contains(x) ==> old(pool)@.contains(x)
                || item_strings(item@).contains(x),
            strings_in(item_strings(item@), old(pool)@) ==> final(pool)@ == old(pool)@,
            (item_error(item@) is None && old(pool)@.len() < usize::MAX && strings_in(item_strings(item@), old(pool)@))
                ==> r is Ok,
    {
        let ghost start = pool@;
        proof {
            assert(start.take(start.len() as int) =~= start);
        }
        match item {
            TraceViewItem::ScheduleDecision { resumed_tasks, suspended_tasks, .. } => {
                let ghost sus = views_of(suspended_tasks@);
                let ghost res = views_of(resumed_tasks@);
                let mut ready: Vec<ReadyTask> = Vec::new();
                let mut j: usize = 0;
                proof {
                    assert(sus.skip(0) =~= sus);
                }
                while j < suspended_tasks.len()
                    invariant
                        j <= sus.len(),
                        sus == views_of(suspended_tasks@),
                        res == views_of(resumed_tasks@),
                        item@ == (TraceViewItemView::ScheduleDecision {
                            resumed: res,
                            running: match item@ {
                                TraceViewItemView::ScheduleDecision { running, .. } => running,
                                _ => Seq::empty(),
                            },
                            suspended: sus,
                            options: match item@ {
                                TraceViewItemView::ScheduleDecision { options, .. } => options,
                                _ => Seq::empty(),
                            },
                        }),
                        start == old(pool)@,
                        pool_extends(pool@, start),
                        pool@.len() <= start.len() + 2 * j,
                        forall|x: Seq<char>| #[trigger] pool@.contains(x) ==> start.contains(x)
                            || snapshot_strings(sus).contains(x),
                        strings_in(snapshot_strings(sus), start) ==> pool@ == start,
                        first_snapshot_error(sus) == first_snapshot_error(sus.skip(j as int)),
                        ready@.len() == j,
                        forall|k: int|
                            #![trigger ready@[k]]
                            0 <= k < j ==> {
                                let e = snapshot_entry(sus[k]).unwrap();
                                &&& snapshot_entry(sus[k]) is Some
                                &&& ready@[k]@.0 == e.0
                                &&& pool_get(pool@, ready@[k]@.1) == Some(e.1)
                                &&& pool_get(pool@, ready@[k]@.2) == Some(e.2)
                            },
                    decreases sus.len() - j,
                {
                    let snap = &suspended_tasks[j];
                    proof {
                        assert(sus[j as int] == snap@);
                        assert(sus.skip(j as int)[0] == snap@);
                        assert(sus.skip(j as int).drop_first() =~= sus.skip(j + 1));
                    }
                    let id = match snap.id {
                        FullTraceTaskId::Stable(id) => id,
                        FullTraceTaskId::Unstable(_) => {
                            let m = "ready tasks have stable id".to_string();
                            proof {
                                reveal_strlit("ready tasks have stable id");
                            }
                            return Err(m);
                        },
                    };
                    let position = match &snap.position {
                        Some(p) => p,
                        None => {
                            let m = "ready tasks have position".to_string();
                            proof {
                                reveal_strlit("ready tasks have position");
                            }
                            return Err(m);
                        },
                    };
                    let ghost p0 = pool@;
                    proof {
                        assert(sus[j as int].name == snap.name@ && sus[j as int].position == Some(position@));
                        assert(snapshot_strings(sus).contains(snap.name@));
                        assert(snapshot_strings(sus).contains(position@));
                    }
                    let name_idx = match intern_if_room(pool, snap.name.as_str()) {
                        Some(i) => i,
                        None => {
                            let m = "string pool is full".to_string();
                            proof {
                                reveal_strlit("string pool is full");
                                lemma_pool_extends_trans(pool@, p0, start);
                            }
                            return Err(m);
                        },
                    };
                    let ghost p1 = pool@;
                    let pos_idx = match intern_if_room(pool, position.as_str()) {
                        Some(i) => i,
                        None => {
                            let m = "string pool is full".to_string();
                            proof {
                                reveal_strlit("string pool is full");
                                lemma_pool_extends_trans(pool@, p1, p0);
                                lemma_pool_extends_trans(pool@, p0, start);
                            }
                            return Err(m);
                        },
                    };
                    proof {
                        lemma_pool_extends_trans(pool@, p1, p0);
                        lemma_pool_extends_trans(pool@, p0, start);
                        lemma_pool_get_extends(pool@, p1, name_idx@);
                        assert forall|x: Seq<char>| #[trigger] pool@.contains(x) implies start.contains(x)
                            || snapshot_strings(sus).contains(x) by {
                            if x == snap.name@ || x == position@ {
                                assert(sus[j as int].name == x || sus[j as int].position == Some(x));
                            }
                        }
                        assert forall|k: int| 0 <= k < j implies {
                            let e = snapshot_entry(sus[k]).unwrap();
                            &&& pool_get(pool@, (#[trigger] ready@[k])@.1) == Some(e.1)
                            &&& pool_get(pool@, ready@[k]@.2) == Some(e.2)
                        } by {
                            lemma_pool_get_extends(pool@, p0, ready@[k]@.1);
                            lemma_pool_get_extends(pool@, p0, ready@[k]@.2);
                        }
                    }
                    ready.push(ReadyTask { id, name: name_idx, position: pos_idx });
                    j = j + 1;
                }
                proof {
                    assert(sus.skip(j as int) =~= Seq::<TaskSnapshotView>::empty());
                }
                let mut resumed: Vec<TaskStableId> = Vec::new();
                let mut k: usize = 0;
                while k < resumed_tasks.len()
                    invariant
                        k <= res.len(),
                        res == views_of(resumed_tasks@),
                        sus == views_of(suspended_tasks@),
                        start == old(pool)@,
                        pool_extends(pool@, start),
                        pool@.len() <= start.len() + 2 * sus.len(),
                        forall|x: Seq<char>| #[trigger] pool@.contains(x) ==> start.contains(x)
                            || snapshot_strings(sus).contains(x),
                        strings_in(snapshot_strings(sus), start) ==> pool@ == start,
                        first_snapshot_error(sus) is None,
                        item@ == (TraceViewItemView::ScheduleDecision {
                            resumed: res,
                            running: match item@ {
                                TraceViewItemView::ScheduleDecision { running, .. } => running,
                                _ => Seq::empty(),
                            },
                            suspended: sus,
                            options: match item@ {
                                TraceViewItemView::ScheduleDecision { options, .. } => options,
                                _ => Seq::empty(),
                            },
                        }),
                        resumed@.len() == k,
                        forall|i: int| 0 <= i < k ==> (#[trigger] res[i]).id is Stable,
                        forall|i: int| 0 <= i < k ==> (#[trigger] resumed@[i])@ == ref_stable_id(res[i]),
                    decreases res.len() - k,
                {
                    let rf = &resumed_tasks[k];
                    proof {
                        assert(res[k as int] == rf@);
                    }
                    match rf.id {
                        FullTraceTaskId::Stable(id) => {
                            resumed.push(id);
                        },
                        FullTraceTaskId::Unstable(_) => {
                            let m = "resumed tasks have stable id".to_string();
                            proof {
                                reveal_strlit("resumed tasks have stable id");
                                assert(!(res[k as int].id is Stable));
                                assert(!(forall|i: int| 0 <= i < res.len() ==> (#[trigger] res[i]).id is Stable));
                                assert(item_error(item@) == Some("resumed tasks have stable id"@));
                            }
                            return Err(m);
                        },
                    }
                    k = k + 1;
                }
                let step = AttachedStep { ready_tasks: ready, resumed_tasks: resumed };
                proof {
                    assert(step@.resumed =~= res.map_values(|r: TaskRefView| ref_stable_id(r)));
                    assert forall|jj: int| 0 <= jj < sus.len() implies {
                        let e = snapshot_entry(sus[jj]).unwrap();
                        &&& (#[trigger] step@.ready[jj]).0 == e.0
                        &&& pool_get(pool@, step@.ready[jj].1) == Some(e.1)
                        &&& pool_get(pool@, step@.ready[jj].2) == Some(e.2)
                    } by {
                        assert(step@.ready[jj] == ready@[jj]@);
                    }
                }
                Ok(Some(step))
            },
            _ => Ok(None),
        }
    }

    /// The replay trace of a full trace: one step for each decision, names
    /// and points interned in the pool.
    pub fn from_trace(pool: &mut StringPool, trace: &TraceView) -> (r: Result<Self, String>)
        ensures
            pool_extends(final(pool)@, old(pool)@),
            trace_error(trace@) is Some ==> r is Err,
            (trace_error(trace@) is None && old(pool)@.len() + decision_string_count(trace@)
                < usize::MAX) ==> r is Ok,
            r matches Ok(t) ==> t@.len() == decisions(trace@).len() && forall|i: int|
                0 <= i < t@.len() ==> step_of_decision(
                    #[trigger] t@[i],
                    final(pool)@,
                    decisions(trace@)[i],
                ),
            r matches Err(m) ==> trace_error(trace@) == Some(m@) || m@ == "string pool is full"@,
            forall|x: Seq<char>| #[trigger] final(pool)@.contains(x) ==> old(pool)@.contains(x)
                || exists|k: int| 0 <= k < trace@.len() && (#[trigger] item_strings(trace@[k])).contains(x),
            trace_strings_in(trace@, old(pool)@) ==> final(pool)@ == old(pool)@,
            (trace_error(trace@) is None && old(pool)@.len() < usize::MAX && trace_strings_in(trace@, old(pool)@))
                ==> r is Ok,
    {
        let ghost start = pool@;
        let ghost items = trace@;
        proof {
            assert(start.take(start.len() as int) =~= start);
            assert(items.skip(0) =~= items);
        }
        let mut steps: Vec<AttachedStep> = Vec::new();
        let mut i: usize = 0;
        while i < trace.trace.len()
            invariant
                i <= items.len(),
                items == trace@,
                start == old(pool)@,
                pool_extends(pool@, start),
                pool@.len() <= start.len() + decision_string_count(items.take(i as int)),
                forall|x: Seq<char>| #[trigger] pool@.contains(x) ==> start.contains(x)
                    || exists|k: int| 0 <= k < items.len() && (#[trigger] item_strings(items[k])).contains(x),
                trace_strings_in(items, start) ==> pool@ == start,
                trace_error(items) == trace_error(items.skip(i as int)),
                steps@.len() == decisions(items.take(i as int)).len(),
                forall|k: int|
                    0 <= k < steps@.len() ==> step_of_decision(
                        #[trigger] steps@[k]@,
                        pool@,
                        decisions(items.take(i as int))[k],
                    ),
            decreases items.len() - i,
        {
            let item = &trace.trace[i];
            proof {
                assert(items[i as int] == item@);
                assert(items.skip(i as int)[0] == item@);
                assert(items.skip(i as int).drop_first() =~= items.skip(i + 1));
                assert(items.take(i + 1).drop_last() =~= items.take(i as int));
                assert(items.take(i + 1).last() == item@);
                assert(decision_string_count(items.take(i as int)) <= decision_string_count(items)) by {
                    lemma_decision_string_count_prefix(items, i as int);
                }
            }
            let ghost p0 = pool@;
            let ghost before = steps@;
            let r = Self::step_from_item(item, pool);
            proof {
                if trace_strings_in(items, start) {
                    assert(strings_in(item_strings(items[i as int]), start));
                }
                assert forall|x: Seq<char>| #[trigger] pool@.contains(x) implies start.contains(x)
                    || exists|k: int| 0 <= k < items.len() && (#[trigger] item_strings(items[k])).contains(x) by {
                    if !p0.contains(x) {
                        assert(item_strings(items[i as int]).contains(x));
                    }
                }
            }
            match r {
                Ok(Some(step)) => {
                    steps.push(step);
                    proof {
                        lemma_pool_extends_trans(pool@, p0, start);
                        assert forall|k: int| 0 <= k < steps@.len() implies step_of_decision(
                            #[trigger] steps@[k]@,
                            pool@,
                            decisions(items.take(i + 1))[k],
                        ) by {
                            if k < before.len() {
                                assert(steps@[k] == before[k]);
                                lemma_step_of_decision_mono(before[k]@, p0, pool@, decisions(items.take(i as int))[k]);
                            }
                        }
                    }
                },
                Ok(None) => {
                    proof {
                        lemma_pool_extends_trans(pool@, p0, start);
                        assert forall|k: int| 0 <= k < steps@.len() implies step_of_decision(
                            #[trigger] steps@[k]@,
                            pool@,
                            decisions(items.take(i + 1))[k],
                        ) by {
                            lemma_step_of_decision_mono(before[k]@, p0, pool@, decisions(items.take(i as int))[k]);
                        }
                    }
                },
                Err(m) => {
                    proof {
                        lemma_pool_extends_trans(pool@, p0, start);
                        if trace_error(items) is None && trace_strings_in(items, start) && start.len() < usize::MAX {
                            assert(item_error(item@) is None);
                            assert(strings_in(item_strings(items[i as int]), start));
                            assert(false);
                        }
                        if trace_error(items) is None && start.len() + decision_string_count(items)
                            < usize::MAX {
                            assert(item_error(item@) is None);
                            lemma_decision_string_count_prefix(items, i + 1);
                            assert(false);
                        }
                    }
                    return Err(m);
                },
            }
            i = i + 1;
        }
        proof {
            assert(items.take(i as int) =~= items);
        }
        Ok(AttachedReplayTrace { steps })
    }

    /// The trace in its textual form, with its own strings: the names and
    /// points, each once, in the order they first occur.
    pub fn to_parsed(&self, pool: &StringPool) -> (r: ReplayTrace)
        requires
            attached_in_pool(self@, pool@),
            pool@.len() < u32::MAX,
        ensures
            attached_matches(self@, pool@, r@),
            indices_in_range(r@),
            r@.strings.no_duplicates(),
            forall|x: Seq<char>| #[trigger] r@.strings.contains(x) ==> pool@.contains(x),
            r@.strings == first_uses(trace_uses(self@, pool@)),
    {
        let ghost old_pool = pool@;
        let mut new_pool = StringPool::new();
        let mut steps: Vec<ReplayStep> = Vec::new();
        let mut i: usize = 0;
        while i < self.steps.len()
            invariant
                i <= self@.len(),
                attached_in_pool(self@, pool@),
                pool@.len() < u32::MAX,
                forall|x: Seq<char>| new_pool@.contains(x) ==> pool@.contains(x),
                new_pool@ == first_uses(trace_uses(self@.take(i as int), pool@)),
                steps@.len() == i,
                attached_matches(
                    self@.take(i as int),
                    pool@,
                    ReplayTraceView {
                        strings: new_pool@,
                        steps: steps@.map_values(|s: ReplayStep| s@),
                    },
                ),
                indices_in_range(
                    ReplayTraceView {
                        strings: new_pool@,
                        steps: steps@.map_values(|s: ReplayStep| s@),
                    },
                ),
            decreases self@.len() - i,
        {
            let step = &self.steps[i];
            let ghost sv = self@[i as int];
            proof {
                assert(sv == step@);
            }
            let mut suspended: Vec<SuspendedTask> = Vec::new();
            let mut j: usize = 0;
            proof {
                assert(sv.ready.take(0) =~= Seq::<(u64, usize, usize)>::empty());
                assert(trace_uses(self@.take(i as int), pool@) + ready_uses(sv.ready.take(0), pool@)
                    =~= trace_uses(self@.take(i as int), pool@));
            }
            while j < step.ready_tasks.len()
                invariant
                    j <= step.ready_tasks@.len(),
                    i < self@.len(),
                    sv == self@[i as int],
                    sv == step@,
                    attached_in_pool(self@, pool@),
                    pool@.len() < u32::MAX,
                    forall|x: Seq<char>| new_pool@.contains(x) ==> pool@.contains(x),
                    new_pool@ == first_uses(
                        trace_uses(self@.take(i as int), pool@) + ready_uses(sv.ready.take(j as int), pool@),
                    ),
                    suspended@.len() == j,
                    forall|k: int|
                        #![trigger suspended@[k]]
                        0 <= k < j ==> {
                            let p = suspended@[k]@;
                            let a = sv.ready[k];
                            &&& a.0 == p.0
                            &&& 1 <= p.1 <= new_pool@.len()
                            &&& 1 <= p.2 <= new_pool@.len()
                            &&& pool_get(pool@, a.1) == Some(new_pool@[p.1 - 1])
                            &&& pool_get(pool@, a.2) == Some(new_pool@[p.2 - 1])
                        },
                    attached_matches(
                        self@.take(i as int),
                        pool@,
                        ReplayTraceView {
                            strings: new_pool@,
                            steps: steps@.map_values(|s: ReplayStep| s@),
                        },
                    ),
                    indices_in_range(
                        ReplayTraceView {
                            strings: new_pool@,
                            steps: steps@.map_values(|s: ReplayStep| s@),
                        },
                    ),
                decreases step.ready_tasks@.len() - j,
            {
                let t = step.ready_tasks[j];
                proof {
                    assert(sv.ready[j as int] == t@);
                    assert(pool_get(pool@, t@.1) is Some && pool_get(pool@, t@.2) is Some);
                }
                let name_text = match pool.get(t.name) {
                    Some(x) => x,
                    None => String::new(),
                };
                let pos_text = match pool.get(t.position) {
                    Some(x) => x,
                    None => String::new(),
                };
                let ghost p0 = new_pool@;
                let _ = new_pool.len();
                proof {
                    lemma_sub_pool_len(new_pool@, pool@);
                }
                let name = new_pool.intern(name_text.as_str());
                let ghost p1 = new_pool@;
                let _ = new_pool.len();
                proof {
                    assert forall|x: Seq<char>| new_pool@.contains(x) implies pool@.contains(x) by {
                        if !p0.contains(x) {
                            assert(x == name_text@);
                            assert(pool@[t@.1 - 1] == x);
                        }
                    }
                    lemma_sub_pool_len(new_pool@, pool@);
                }
                let position = new_pool.intern(pos_text.as_str());
                proof {
                    assert forall|x: Seq<char>| new_pool@.contains(x) implies pool@.contains(x) by {
                        if !p1.contains(x) {
                            assert(x == pos_text@);
                            assert(pool@[t@.2 - 1] == x);
                        }
                    }
                    lemma_pool_get_extends(new_pool@, p1, name@);
                    assert forall|k: int| 0 <= k < j implies {
                        let p = #[trigger] suspended@[k]@;
                        &&& 1 <= p.1 <= new_pool@.len()
                        &&& 1 <= p.2 <= new_pool@.len()
                        &&& new_pool@[p.1 - 1] == p0[p.1 - 1]
                        &&& new_pool@[p.2 - 1] == p0[p.2 - 1]
                    } by {
                        let p = suspended@[k]@;
                        lemma_pool_get_extends(p1, p0, p.1 as usize);
                        lemma_pool_get_extends(new_pool@, p1, p.1 as usize);
                        lemma_pool_get_extends(p1, p0, p.2 as usize);
                        lemma_pool_get_extends(new_pool@, p1, p.2 as usize);
                    }
                }
                let n = new_pool.len();
                suspended.push(
                    SuspendedTask {
                        id: t.id,
                        name: name.as_usize() as u32,
                        position: position.as_usize() as u32,
                    },
                );
                proof {
                    let u = trace_uses(self@.take(i as int), pool@);
                    let a = u + ready_uses(sv.ready.take(j as int), pool@);
                    assert(sv.ready.take(j + 1).drop_last() =~= sv.ready.take(j as int));
                    assert(sv.ready.take(j + 1).last() == t@);
                    assert(u + ready_uses(sv.ready.take(j + 1), pool@) =~= a.push(name_text@).push(pos_text@));
                    assert(a.push(name_text@).push(pos_text@).drop_last() =~= a.push(name_text@));
                    assert(a.push(name_text@).drop_last() =~= a);
                    assert(name_text@ == pool@[t@.1 - 1] && pos_text@ == pool@[t@.2 - 1]);
                    assert(p0 == first_uses(a));
                    assert(p1 == first_uses(a.push(name_text@)));
                    assert(new_pool@ == first_uses(a.push(name_text@).push(pos_text@)));
                    lemma_pool_extends_trans(new_pool@, p1, p0);
                    lemma_keeps_matching(self@.take(i as int), pool@, p0, new_pool@, steps@.map_values(|s: ReplayStep| s@));
                }
                j = j + 1;
            }
            let ghost before = steps@.map_values(|s: ReplayStep| s@);
            steps.push(ReplayStep { suspended_tasks: suspended, resumed_tasks: step.resumed_tasks.clone() });
            proof {
                let now = steps@.map_values(|s: ReplayStep| s@);
                assert(now =~= before.push(now[i as int]));
                assert(self@.take(i + 1) =~= self@.take(i as int).push(sv));
                assert(self@.take(i + 1).drop_last() =~= self@.take(i as int));
                assert(sv.ready.take(sv.ready.len() as int) =~= sv.ready);
                assert(now[i as int].resumed =~= sv.resumed);
                assert forall|k: int| 0 <= k < now[i as int].suspended.len() implies #[trigger] now[i as int].suspended[k]
                    == suspended@[k]@ by {
                }
            }
            i = i + 1;
        }
        proof {
            assert(self@.take(i as int) =~= self@);
        }
        let _ = new_pool.len();
        let strings = clone_strings(new_pool.strings());
        ReplayTrace { strings, steps }
    }

    pub open spec fn well_formed_in(&self, pool: Seq<Seq<char>>) -> bool {
        attached_in_pool(self@, pool)
    }

    /// Attaches a textual trace to the pool, interning its strings.
    pub fn from_parsed(string_pool: &mut StringPool, trace: &ReplayTrace) -> (r: Self)
        requires
            indices_in_range(trace@),
            old(string_pool)@.len() + trace@.strings.len() < usize::MAX,
        ensures
            pool_extends(final(string_pool)@, old(string_pool)@),
            attached_matches(r@, final(string_pool)@, trace@),
            attached_in_pool(r@, final(string_pool)@),
    {
        let string_ids = intern_all(string_pool, &trace.strings);
        proof {
            assert(forall|k: int| 0 <= k < trace.strings@.len() ==> trace@.strings[k] == trace.strings@[k]@);
        }
        let ghost pool = string_pool@;
        let mut steps: Vec<AttachedStep> = Vec::new();
        let mut i: usize = 0;
        while i < trace.steps.len()
            invariant
                i <= trace.steps@.len(),
                indices_in_range(trace@),
                string_ids@.len() == trace@.strings.len(),
                forall|k: int|
                    0 <= k < trace@.strings.len() ==> pool_get(pool, #[trigger] string_ids@[k]@) == Some(
                        trace@.strings[k],
                    ),
                steps@.len() == i,
                attached_matches(
                    steps@.map_values(|s: AttachedStep| s@),
                    pool,
                    ReplayTraceView { strings: trace@.strings, steps: trace@.steps.take(i as int) },
                ),
            decreases trace.steps@.len() - i,
        {
            let step = &trace.steps[i];
            let ghost sv = trace@.steps[i as int];
            proof {
                assert(sv == step@);
            }
            let mut ready: Vec<ReadyTask> = Vec::new();
            let mut j: usize = 0;
            while j < step.suspended_tasks.len()
                invariant
                    j <= step.suspended_tasks@.len(),
                    i < trace@.steps.len(),
                    sv == trace@.steps[i as int],
                    sv == step@,
                    indices_in_range(trace@),
                    string_ids@.len() == trace@.strings.len(),
                    forall|k: int|
                        0 <= k < trace@.strings.len() ==> pool_get(pool, #[trigger] string_ids@[k]@)
                            == Some(trace@.strings[k]),
                    ready@.len() == j,
                    forall|k: int|
                        #![trigger ready@[k]]
                        0 <= k < j ==> {
                            let a = ready@[k]@;
                            let p = sv.suspended[k];
                            &&& a.0 == p.0
                            &&& pool_get(pool, a.1) == Some(trace@.strings[p.1 - 1])
                            &&& pool_get(pool, a.2) == Some(trace@.strings[p.2 - 1])
                        },
                decreases step.suspended_tasks@.len() - j,
            {
                let t = step.suspended_tasks[j];
                proof {
                    assert(sv.suspended[j as int] == t@);
                    let x = trace@.steps[i as int].suspended[j as int];
                    assert(1 <= x.1 <= trace@.strings.len());
                }
                let name = string_ids[(t.name - 1) as usize];
                let position = string_ids[(t.position - 1) as usize];
                ready.push(ReadyTask { id: t.id, name, position });
                j = j + 1;
            }
            let ghost before = steps@.map_values(|s: AttachedStep| s@);
            steps.push(AttachedStep { ready_tasks: ready, resumed_tasks: step.resumed_tasks.clone() });
            proof {
                let now = steps@.map_values(|s: AttachedStep| s@);
                assert(now =~= before.push(now[i as int]));
                assert(trace@.steps.take(i + 1) =~= trace@.steps.take(i as int).push(sv));
                assert(now[i as int].resumed =~= sv.resumed);
                assert(now[i as int].ready.len() == sv.suspended.len());
            }
            i = i + 1;
        }
        proof {
            assert(trace@.steps.take(i as int) =~= trace@.steps);
        }
        let r = AttachedReplayTrace { steps };
        proof {
            assert forall|a: int, b: int|
                0 <= a < r@.len() && 0 <= b < r@[a].ready.len() implies {
                    let x = #[trigger] r@[a].ready[b];
                    &&& pool_get(pool, x.1) is Some
                    &&& pool_get(pool, x.2) is Some
                } by {
                let p = trace@.steps[a].suspended[b];
                assert(r@[a].ready[b] == r@[a].ready[b]);
            }
        }
        r
    }
}

} // verus!
