//! The full trace of a run, as it is shown to a person: which tasks started,
//! finished and were suspended, and every scheduling decision with the
//! tasks that were running and suspended at that moment.

use crate::task::{TaskId, TaskStableId};
use crate::text::{decimal, joined, lemma_joined_step, push_decimal, push_str};
use vstd::prelude::*;

verus! {

broadcast use vstd::seq_lib::group_seq_properties;

/// How a task is named in a trace: by its stable identity once it has one.
#[derive(Debug, Clone, Copy, PartialEq, Eq, Structural, PartialOrd, Ord)]
pub enum FullTraceTaskId {
    Stable(TaskStableId),
    Unstable(TaskId),
}

pub enum FullTraceTaskIdView {
    Stable(u64),
    Unstable(u64),
}

impl View for FullTraceTaskId {
    type V = FullTraceTaskIdView;

    open spec fn view(&self) -> FullTraceTaskIdView {
        match self {
            FullTraceTaskId::Stable(id) => FullTraceTaskIdView::Stable(id@),
            FullTraceTaskId::Unstable(id) => FullTraceTaskIdView::Unstable(id@),
        }
    }
}

/// The order of identities in a trace: stable ones first, each kind by
/// number.
pub open spec fn task_id_rank(id: FullTraceTaskIdView) -> int {
    match id {
        FullTraceTaskIdView::Stable(n) => n as int,
        FullTraceTaskIdView::Unstable(n) => 0x1_0000_0000_0000_0000int + n,
    }
}

impl FullTraceTaskId {
    pub fn stable_id(&self) -> (r: Option<TaskStableId>)
        ensures
            match self {
                FullTraceTaskId::Stable(id) => r == Some(*id),
                FullTraceTaskId::Unstable(_) => r is None,
            },
    {
        match self {
            FullTraceTaskId::Stable(id) => Some(*id),
            FullTraceTaskId::Unstable(_) => None,
        }
    }

    pub fn rank(&self) -> (r: u128)
        ensures
            r == task_id_rank(self@),
    {
        match self {
            FullTraceTaskId::Stable(id) => id.get() as u128,
            FullTraceTaskId::Unstable(id) => 0x1_0000_0000_0000_0000u128 + id.get() as u128,
        }
    }
}

/// A task named in a trace.
#[derive(Debug, Clone, PartialEq, Eq)]
pub struct TaskRef {
    pub id: FullTraceTaskId,
    pub name: String,
}

/// A task in a trace with the point where it is suspended, or where it was
/// last suspended if it runs (`None` for a task that never was).
#[derive(Debug, Clone, PartialEq, Eq)]
pub struct TaskSnapshot {
    pub id: FullTraceTaskId,
    pub name: String,
    pub position: Option<String>,
}

pub struct TaskRefView {
    pub id: FullTraceTaskIdView,
    pub name: Seq<char>,
}

pub struct TaskSnapshotView {
    pub id: FullTraceTaskIdView,
    pub name: Seq<char>,
    pub position: Option<Seq<char>>,
}

impl View for TaskRef {
    type V = TaskRefView;

    open spec fn view(&self) -> TaskRefView {
        TaskRefView { id: self.id@, name: self.name@ }
    }
}

impl View for TaskSnapshot {
    type V = TaskSnapshotView;

    open spec fn view(&self) -> TaskSnapshotView {
        TaskSnapshotView {
            id: self.id@,
            name: self.name@,
            position: match self.position {
                Some(p) => Some(p@),
                None => None,
            },
        }
    }
}

/// A value that a trace lists in the order of a rank.
pub trait Ranked: View + Sized {
    spec fn rank_of(v: Self::V) -> int;

    fn rank_key(&self) -> (r: u128)
        ensures
            r == Self::rank_of(self@),
    ;
}

impl Ranked for TaskRef {
    open spec fn rank_of(v: TaskRefView) -> int {
        task_id_rank(v.id)
    }

    fn rank_key(&self) -> (r: u128) {
        self.id.rank()
    }
}

impl Ranked for TaskSnapshot {
    open spec fn rank_of(v: TaskSnapshotView) -> int {
        task_id_rank(v.id)
    }

    fn rank_key(&self) -> (r: u128) {
        self.id.rank()
    }
}

pub open spec fn views_of<T: View>(s: Seq<T>) -> Seq<T::V> {
    s.map_values(|t: T| t@)
}

/// The ranks never decrease along the sequence.
pub open spec fn is_ranked<T: Ranked>(s: Seq<T::V>) -> bool {
    forall|i: int, j: int| 0 <= i < j < s.len() ==> T::rank_of(s[i]) <= T::rank_of(s[j])
}

/// Sorts the values by rank.
pub fn sort_by_rank<T: Ranked>(v: Vec<T>) -> (r: Vec<T>)
    ensures
        views_of(r@).to_multiset() == views_of(v@).to_multiset(),
        is_ranked::<T>(views_of(r@)),
{
    broadcast use vstd::seq::Seq::to_multiset_ensures;

    let mut rest = v;
    let mut r: Vec<T> = Vec::new();
    let ghost all = views_of(rest@).to_multiset();
    proof {
        assert(views_of(r@) =~= Seq::<T::V>::empty());
    }
    while rest.len() > 0
        invariant
            views_of(r@).to_multiset().add(views_of(rest@).to_multiset()) == all,
            is_ranked::<T>(views_of(r@)),
            forall|i: int, j: int|
                0 <= i < r@.len() && 0 <= j < rest@.len() ==> T::rank_of(views_of(r@)[i]) <= T::rank_of(
                    views_of(rest@)[j],
                ),
        decreases rest@.len(),
    {
        let mut min_idx: usize = 0;
        let mut min_key = rest[0].rank_key();
        let mut k: usize = 1;
        while k < rest.len()
            invariant
                1 <= k <= rest@.len(),
                min_idx < rest@.len(),
                min_key == T::rank_of(views_of(rest@)[min_idx as int]),
                forall|j: int| 0 <= j < k ==> min_key <= T::rank_of(#[trigger] views_of(rest@)[j]),
            decreases rest@.len() - k,
        {
            let key = rest[k].rank_key();
            if key < min_key {
                min_key = key;
                min_idx = k;
            }
            k = k + 1;
        }
        let ghost rv = views_of(rest@);
        let ghost old_r = views_of(r@);
        let item = rest.remove(min_idx);
        r.push(item);
        proof {
            assert(views_of(rest@) =~= rv.remove(min_idx as int));
            assert(views_of(r@) =~= old_r.push(rv[min_idx as int]));
            assert(views_of(r@).to_multiset() == old_r.to_multiset().insert(rv[min_idx as int]));
            assert(views_of(rest@).to_multiset() == rv.to_multiset().remove(rv[min_idx as int]));
            assert(rv.to_multiset().count(rv[min_idx as int]) > 0) by {
                assert(rv.contains(rv[min_idx as int]));
            }
            assert(views_of(r@).to_multiset().add(views_of(rest@).to_multiset()) =~= old_r.to_multiset().add(
                rv.to_multiset(),
            ));
            assert forall|i: int, j: int| 0 <= i < j < views_of(r@).len() implies T::rank_of(
                views_of(r@)[i],
            ) <= T::rank_of(views_of(r@)[j]) by {
                if j == old_r.len() {
                    assert(T::rank_of(old_r[i]) <= T::rank_of(rv[min_idx as int]));
                }
            }
            assert forall|i: int, j: int|
                0 <= i < r@.len() && 0 <= j < rest@.len() implies T::rank_of(views_of(r@)[i]) <= T::rank_of(
                views_of(rest@)[j],
            ) by {
                let jj = if j < min_idx { j } else { j + 1 };
                assert(views_of(rest@)[j] == rv[jj]);
                if i < old_r.len() {
                    assert(T::rank_of(old_r[i]) <= T::rank_of(rv[jj]));
                } else {
                    assert(min_key <= T::rank_of(rv[jj]));
                }
            }
        }
    }
    proof {
        assert(views_of(rest@) =~= Seq::<T::V>::empty());
        assert(views_of(r@).to_multiset().add(vstd::multiset::Multiset::empty()) =~= views_of(r@).to_multiset());
    }
    r
}

/// One entry of a trace.
#[derive(Debug, Clone)]
pub enum TraceViewItem {
    TaskStarted(TaskRef),
    TaskFinished(TaskRef),
    TaskSuspended { task: TaskRef, suspend_point: String },
    /// Tasks were resumed because running tasks needed them; nothing was
    /// chosen.
    AutoResumedTasks {
        resumed_tasks: Vec<TaskRef>,
        running_tasks: Vec<TaskSnapshot>,
        suspended_tasks: Vec<TaskSnapshot>,
    },
    /// A decision among several options.
    ScheduleDecision {
        resumed_tasks: Vec<TaskRef>,
        running_tasks: Vec<TaskSnapshot>,
        suspended_tasks: Vec<TaskSnapshot>,
        options: Vec<Vec<TaskRef>>,
    },
}

pub enum TraceViewItemView {
    TaskStarted(TaskRefView),
    TaskFinished(TaskRefView),
    TaskSuspended(TaskRefView, Seq<char>),
    AutoResumedTasks {
        resumed: Seq<TaskRefView>,
        running: Seq<TaskSnapshotView>,
        suspended: Seq<TaskSnapshotView>,
    },
    ScheduleDecision {
        resumed: Seq<TaskRefView>,
        running: Seq<TaskSnapshotView>,
        suspended: Seq<TaskSnapshotView>,
        options: Seq<Seq<TaskRefView>>,
    },
}

impl View for TraceViewItem {
    type V = TraceViewItemView;

    open spec fn view(&self) -> TraceViewItemView {
        match self {
            TraceViewItem::TaskStarted(t) => TraceViewItemView::TaskStarted(t@),
            TraceViewItem::TaskFinished(t) => TraceViewItemView::TaskFinished(t@),
            TraceViewItem::TaskSuspended { task, suspend_point } => TraceViewItemView::TaskSuspended(
                task@,
                suspend_point@,
            ),
            TraceViewItem::AutoResumedTasks { resumed_tasks, running_tasks, suspended_tasks } =>
                TraceViewItemView::AutoResumedTasks {
                resumed: views_of(resumed_tasks@),
                running: views_of(running_tasks@),
                suspended: views_of(suspended_tasks@),
            },
            TraceViewItem::ScheduleDecision {
                resumed_tasks,
                running_tasks,
                suspended_tasks,
                options,
            } => TraceViewItemView::ScheduleDecision {
                resumed: views_of(resumed_tasks@),
                running: views_of(running_tasks@),
                suspended: views_of(suspended_tasks@),
                options: options@.map_values(|o: Vec<TaskRef>| views_of(o@)),
            },
        }
    }
}

/// `r` lists the values of `input` in the order of their ranks.
pub open spec fn sorted_as<T: Ranked>(r: Seq<T::V>, input: Seq<T::V>) -> bool {
    is_ranked::<T>(r) && r.to_multiset() == input.to_multiset()
}

/// The full trace of a run.
#[derive(Debug, Clone)]
pub struct TraceView {
    pub trace: Vec<TraceViewItem>,
}

impl View for TraceView {
    type V = Seq<TraceViewItemView>;

    open spec fn view(&self) -> Seq<TraceViewItemView> {
        views_of(self.trace@)
    }
}

/// A value of the trace that has a text.
pub trait Render: View + Sized {
    spec fn text_of(v: Self::V) -> Seq<char>;

    fn push_text(&self, out: &mut String)
        ensures
            final(out)@ == old(out)@ + Self::text_of(self@),
    ;
}

/// The texts of the values, separated by `, `.
pub open spec fn list_text<T: Render>(vs: Seq<T::V>) -> Seq<char> {
    joined(Seq::new(vs.len(), |i: int| T::text_of(vs[i])), ", "@)
}

fn push_list<T: Render>(out: &mut String, items: &Vec<T>)
    ensures
        final(out)@ == old(out)@ + list_text::<T>(views_of(items@)),
{
    let ghost start = out@;
    let ghost texts = Seq::new(views_of(items@).len(), |i: int| T::text_of(views_of(items@)[i]));
    proof {
        assert(start + joined(texts.take(0), ", "@) =~= start);
    }
    let mut i: usize = 0;
    while i < items.len()
        invariant
            i <= items@.len(),
            texts == Seq::new(views_of(items@).len(), |i: int| T::text_of(views_of(items@)[i])),
            out@ == start + joined(texts.take(i as int), ", "@),
        decreases items@.len() - i,
    {
        if i > 0 {
            push_str(out, ", ");
        }
        items[i].push_text(out);
        proof {
            assert(views_of(items@)[i as int] == items@[i as int]@);
            lemma_joined_step(texts, ", "@, i as int);
            assert(out@ =~= start + joined(texts.take(i + 1), ", "@));
        }
        i = i + 1;
    }
    proof {
        assert(texts.take(i as int) =~= texts);
    }
}

/// How a trace shows an identity: a stable one as its number, another as
/// `#` and its number.
pub open spec fn id_text(id: FullTraceTaskIdView) -> Seq<char> {
    match id {
        FullTraceTaskIdView::Stable(n) => decimal(n as nat),
        FullTraceTaskIdView::Unstable(n) => "#"@ + decimal(n as nat),
    }
}

fn push_id(out: &mut String, id: &FullTraceTaskId)
    ensures
        final(out)@ == old(out)@ + id_text(id@),
{
    match id {
        FullTraceTaskId::Stable(n) => {
            push_decimal(out, n.get());
        },
        FullTraceTaskId::Unstable(n) => {
            push_str(out, "#");
            push_decimal(out, n.get());
            proof {
                assert(final(out)@ =~= old(out)@ + id_text(id@));
            }
        },
    }
}

impl Render for TaskRef {
    /// The identity and the name.
    open spec fn text_of(v: TaskRefView) -> Seq<char> {
        id_text(v.id) + " "@ + v.name
    }

    fn push_text(&self, out: &mut String) {
        push_id(out, &self.id);
        push_str(out, " ");
        push_str(out, self.name.as_str());
        proof {
            assert(final(out)@ =~= old(out)@ + Self::text_of(self@));
        }
    }
}

impl Render for TaskSnapshot {
    /// The identity, the name, and the point (`(spawned)` for a task that
    /// was never suspended).
    open spec fn text_of(v: TaskSnapshotView) -> Seq<char> {
        id_text(v.id) + " "@ + v.name + " at "@ + match v.position {
            Some(p) => p,
            None => "(spawned)"@,
        }
    }

    fn push_text(&self, out: &mut String) {
        push_id(out, &self.id);
        push_str(out, " ");
        push_str(out, self.name.as_str());
        push_str(out, " at ");
        match &self.position {
            Some(p) => push_str(out, p.as_str()),
            None => push_str(out, "(spawned)"),
        }
        proof {
            assert(final(out)@ =~= old(out)@ + Self::text_of(self@));
        }
    }
}

impl Render for Vec<TaskRef> {
    /// The tasks in brackets.
    open spec fn text_of(v: Seq<TaskRef>) -> Seq<char> {
        "["@ + list_text::<TaskRef>(views_of(v)) + "]"@
    }

    fn push_text(&self, out: &mut String) {
        push_str(out, "[");
        push_list(out, self);
        push_str(out, "]");
        proof {
            assert(final(out)@ =~= old(out)@ + Self::text_of(self@));
        }
    }
}

impl Render for TraceViewItem {
    open spec fn text_of(v: TraceViewItemView) -> Seq<char> {
        match v {
            TraceViewItemView::TaskStarted(t) => "start "@ + TaskRef::text_of(t),
            TraceViewItemView::TaskFinished(t) => "finish "@ + TaskRef::text_of(t),
            TraceViewItemView::TaskSuspended(t, p) => "suspend "@ + TaskRef::text_of(t) + " "@ + p,
            TraceViewItemView::AutoResumedTasks { resumed, running, suspended } => "auto-resumed ["@
                + list_text::<TaskRef>(resumed) + "] (run: ["@ + list_text::<TaskSnapshot>(running)
                + "], suspended: ["@ + list_text::<TaskSnapshot>(suspended) + "])"@,
            TraceViewItemView::ScheduleDecision { resumed, running, suspended, options } =>
                "resumed ["@ + list_text::<TaskRef>(resumed) + "] (run: ["@ + list_text::<TaskSnapshot>(
                running,
            ) + "], suspended: ["@ + list_text::<TaskSnapshot>(suspended) + "], options: ["@
                + joined(
                Seq::new(options.len(), |i: int| "["@ + list_text::<TaskRef>(options[i]) + "]"@),
                ", "@,
            ) + "])"@,
        }
    }

    fn push_text(&self, out: &mut String) {
        match self {
            TraceViewItem::TaskStarted(t) => {
                push_str(out, "start ");
                t.push_text(out);
            },
            TraceViewItem::TaskFinished(t) => {
                push_str(out, "finish ");
                t.push_text(out);
            },
            TraceViewItem::TaskSuspended { task, suspend_point } => {
                push_str(out, "suspend ");
                task.push_text(out);
                push_str(out, " ");
                push_str(out, suspend_point.as_str());
            },
            TraceViewItem::AutoResumedTasks { resumed_tasks, running_tasks, suspended_tasks } => {
                push_str(out, "auto-resumed [");
                push_list(out, resumed_tasks);
                push_str(out, "] (run: [");
                push_list(out, running_tasks);
                push_str(out, "], suspended: [");
                push_list(out, suspended_tasks);
                push_str(out, "])");
            },
            TraceViewItem::ScheduleDecision {
                resumed_tasks,
                running_tasks,
                suspended_tasks,
                options,
            } => {
                push_str(out, "resumed [");
                push_list(out, resumed_tasks);
                push_str(out, "] (run: [");
                push_list(out, running_tasks);
                push_str(out, "], suspended: [");
                push_list(out, suspended_tasks);
                push_str(out, "], options: [");
                push_list(out, options);
                push_str(out, "])");
                proof {
                    let ov = options@.map_values(|o: Vec<TaskRef>| views_of(o@));
                    assert(Seq::new(views_of(options@).len(), |i: int| Vec::<TaskRef>::text_of(views_of(options@)[i]))
                        =~= Seq::new(ov.len(), |i: int| "["@ + list_text::<TaskRef>(ov[i]) + "]"@));
                }
            },
        }
        proof {
            assert(final(out)@ =~= old(out)@ + Self::text_of(self@));
        }
    }
}

/// The lines of a trace: each entry numbered from 0.
pub open spec fn lines_text(items: Seq<TraceViewItemView>) -> Seq<char>
    decreases items.len(),
{
    if items.len() == 0 {
        Seq::empty()
    } else {
        lines_text(items.drop_last()) + decimal((items.len() - 1) as nat) + ". "@
            + TraceViewItem::text_of(items.last()) + "\n"@
    }
}

impl TraceView {
    /// The trace as text: one numbered line per entry.
    pub fn render(&self) -> (r: String)
        ensures
            r@ == lines_text(self@),
    {
        let mut out = String::new();
        let mut i: usize = 0;
        while i < self.trace.len()
            invariant
                i <= self@.len(),
                out@ == lines_text(self@.take(i as int)),
            decreases self@.len() - i,
        {
            push_decimal(&mut out, i as u64);
            push_str(&mut out, ". ");
            self.trace[i].push_text(&mut out);
            push_str(&mut out, "\n");
            proof {
                assert(self@.take(i + 1).drop_last() =~= self@.take(i as int));
                assert(self@.take(i + 1).last() == self.trace@[i as int]@);
                assert(out@ =~= lines_text(self@.take(i + 1)));
            }
            i = i + 1;
        }
        proof {
            assert(self@.take(i as int) =~= self@);
        }
        out
    }
}

} // verus!
