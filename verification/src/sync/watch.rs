//! Watch channels: a task that waits for an update of a watch is blocked
//! until the watch is notified.

use crate::keyed::{Key, VecMap, VecSet, add_to_entry, entry_with, value_views};
use crate::sync_model::{
    BadSyncError, DynSyncModel, NotificationOutcome, ProcessSyncEvent, SyncEvent, SyncModel,
    TaskProgressDependencies, unrestricted,
};
use crate::task::{TaskId, TaskSet};
use vstd::prelude::*;

verus! {

broadcast use vstd::seq_lib::group_seq_properties;

/// The identity of a watch channel: the address of its value.
#[derive(Debug, Clone, Copy, PartialEq, Eq, Structural, Hash)]
pub struct WatchId(pub(crate) usize);

impl View for WatchId {
    type V = usize;

    closed spec fn view(&self) -> usize {
        self.0
    }
}

impl WatchId {
    pub fn from_address(address: usize) -> (r: Self)
        ensures
            r@ == address,
    {
        WatchId(address)
    }
}

impl Key for WatchId {
    fn same_key(&self, other: &Self) -> (r: bool) {
        self.0 == other.0
    }

    fn copy_key(&self) -> (r: Self) {
        *self
    }
}

/// The watch that each waiting task waits for, and the waiters of each
/// watch.
#[derive(Debug)]
pub struct WatchModel {
    pub(crate) tasks: VecMap<TaskId, WatchId>,
    pub(crate) waiters: VecMap<WatchId, TaskSet>,
}

pub struct WatchModelView {
    pub tasks: Map<u64, usize>,
    pub waiters: Map<usize, Set<u64>>,
}

impl View for WatchModel {
    type V = WatchModelView;

    closed spec fn view(&self) -> WatchModelView {
        WatchModelView { tasks: value_views(self.tasks@), waiters: value_views(self.waiters@) }
    }
}

impl WatchModel {
    pub fn new() -> (r: Self)
        ensures
            r@.tasks == Map::<u64, usize>::empty(),
            r@.waiters == Map::<usize, Set<u64>>::empty(),
    {
        let r = WatchModel { tasks: VecMap::new(), waiters: VecMap::new() };
        proof {
            assert(r@.tasks =~= Map::<u64, usize>::empty());
            assert(r@.waiters =~= Map::<usize, Set<u64>>::empty());
        }
        r
    }
}

impl Default for WatchModel {
    fn default() -> (r: Self)
        ensures
            r@.tasks == Map::<u64, usize>::empty(),
            r@.waiters == Map::<usize, Set<u64>>::empty(),
    {
        WatchModel::new()
    }
}

impl SyncModel for WatchModel {
}

impl DynSyncModel for WatchModel {
    open spec fn progress(&self, task: u64) -> Option<Set<u64>> {
        if self@.tasks.contains_key(task) {
            None
        } else {
            unrestricted()
        }
    }

    fn task_progress_dependencies(&self, task_id: TaskId) -> (r: TaskProgressDependencies) {
        if self.tasks.contains_key(&task_id) {
            TaskProgressDependencies::Blocked
        } else {
            TaskProgressDependencies::ready()
        }
    }
}

/// The task waits for an update of the watch.
pub struct WaitingForWatchUpdate(pub WatchId);

impl SyncEvent for WaitingForWatchUpdate {
    type Model = WatchModel;
}

/// The watch was updated.
pub struct WatchNotified(pub WatchId);

impl SyncEvent for WatchNotified {
    type Model = WatchModel;
}

impl ProcessSyncEvent<WaitingForWatchUpdate> for WatchModel {
    /// The task becomes blocked without reaching a suspension point, so a
    /// new scheduling decision is asked for.
    open spec fn handles(
        &self,
        task: u64,
        event: WaitingForWatchUpdate,
        after: Self,
        r: Result<NotificationOutcome, BadSyncError>,
    ) -> bool {
        &&& r == Ok::<NotificationOutcome, BadSyncError>(NotificationOutcome::ScheduleRequired)
        &&& after@.tasks == self@.tasks.insert(task, event.0@)
        &&& after@.waiters == entry_with(self@.waiters, event.0@, task)
    }

    fn on_event(&mut self, task_id: TaskId, event: WaitingForWatchUpdate) -> (r: Result<
        NotificationOutcome,
        BadSyncError,
    >)
    {
        let ghost t = self@.tasks;
        self.tasks.insert(task_id, event.0);
        proof {
            assert(self@.tasks =~= t.insert(task_id@, event.0@));
        }
        add_to_entry(&mut self.waiters, event.0, task_id);
        Ok(NotificationOutcome::ScheduleRequired)
    }
}

impl ProcessSyncEvent<WatchNotified> for WatchModel {
    /// All the waiters of the watch stop waiting.
    open spec fn handles(
        &self,
        task: u64,
        event: WatchNotified,
        after: Self,
        r: Result<NotificationOutcome, BadSyncError>,
    ) -> bool {
        &&& r == Ok::<NotificationOutcome, BadSyncError>(NotificationOutcome::Acknowledged)
        &&& self@.waiters.contains_key(event.0@) ==> {
            &&& after@.waiters == self@.waiters.remove(event.0@)
            &&& after@.tasks == self@.tasks.remove_keys(
                self@.waiters[event.0@],
            )
        }
        &&& !self@.waiters.contains_key(event.0@) ==> after@ == self@
    }

    fn on_event(&mut self, task_id: TaskId, event: WatchNotified) -> (r: Result<
        NotificationOutcome,
        BadSyncError,
    >)
    {
        let ghost w = self@.waiters;
        let ghost t0 = self@.tasks;
        if let Some(waiters) = self.waiters.remove(&event.0) {
            proof {
                waiters.lemma_view();
                assert(waiters.seq().take(0).to_set() =~= Set::<u64>::empty());
                assert(self@.tasks =~= t0.remove_keys(waiters.seq().take(0).to_set()));
            }
            let n = waiters.len();
            let mut i: usize = 0;
            while i < n
                invariant
                    n == waiters.seq().len(),
                    i <= n,
                    waiters@ == waiters.seq().to_set(),
                    self@.tasks == t0.remove_keys(waiters.seq().take(i as int).to_set()),
                    self@.waiters == w.remove(event.0@),
                decreases n - i,
            {
                let ghost before = self@.tasks;
                self.tasks.remove(waiters.get(i));
                proof {
                    assert(self@.tasks =~= before.remove(waiters.seq()[i as int]));
                    assert(waiters.seq().take(i + 1) =~= waiters.seq().take(i as int).push(waiters.seq()[i as int]));
                    assert(waiters.seq().take(i + 1).to_set() =~= waiters.seq().take(i as int).to_set().insert(waiters.seq()[i as int]));
                    assert(self@.tasks =~= t0.remove_keys(waiters.seq().take(i + 1).to_set()));
                }
                i = i + 1;
            }
            proof {
                assert(waiters.seq().take(n as int) =~= waiters.seq());
            }
        } else {
            proof {
                assert(self@.waiters =~= w);
            }
        }
        Ok(NotificationOutcome::Acknowledged)
    }
}

/// Each waiting task is among the waiters of the watch it waits for.
pub open spec fn watch_consistent(v: WatchModelView) -> bool {
    forall|t: u64| #[trigger] v.tasks.contains_key(t) ==> v.waiters.contains_key(v.tasks[t]) && v.waiters[v.tasks[t]].contains(t)
}

/// A new model is consistent.
pub proof fn lemma_watch_new_consistent(m: WatchModel)
    requires
        m@.tasks == Map::<u64, usize>::empty(),
        m@.waiters == Map::<usize, Set<u64>>::empty(),
    ensures
        watch_consistent(m@),
{
}

/// A task that starts waiting for a watch is blocked, and the model stays
/// consistent.
pub proof fn lemma_watch_wait(
    m: WatchModel,
    task: u64,
    event: WaitingForWatchUpdate,
    after: WatchModel,
    r: Result<NotificationOutcome, BadSyncError>,
)
    requires
        watch_consistent(m@),
        m.handles(task, event, after, r),
    ensures
        watch_consistent(after@),
        after.progress(task) is None,
{
    assert forall|t: u64| #[trigger] after@.tasks.contains_key(t) implies after@.waiters.contains_key(
        after@.tasks[t],
    ) && after@.waiters[after@.tasks[t]].contains(t) by {
        if t != task {
            assert(m@.tasks.contains_key(t));
        }
    }
}

/// When a watch is notified, every task that waited for it can progress,
/// every task that waited for another watch and was not among its waiters
/// stays blocked, and the model stays consistent.
pub proof fn lemma_watch_notified(
    m: WatchModel,
    task: u64,
    event: WatchNotified,
    after: WatchModel,
    r: Result<NotificationOutcome, BadSyncError>,
)
    requires
        watch_consistent(m@),
        m.handles(task, event, after, r),
    ensures
        watch_consistent(after@),
        forall|t: u64|
            #![trigger after.progress(t)]
            m@.tasks.contains_key(t) && m@.tasks[t] == event.0@ ==> after.progress(t) == unrestricted(),
        forall|t: u64|
            #![trigger after.progress(t)]
            m@.tasks.contains_key(t) && !(m@.waiters.contains_key(event.0@) && m@.waiters[event.0@].contains(t))
                ==> after.progress(t) is None,
{
    assert forall|t: u64| #[trigger] after@.tasks.contains_key(t) implies after@.waiters.contains_key(
        after@.tasks[t],
    ) && after@.waiters[after@.tasks[t]].contains(t) by {
        assert(m@.tasks.contains_key(t));
    }
}


/// A task that waits for a watch update is blocked; any other task needs
/// nothing.
pub proof fn lemma_watch_blocks(m: WatchModel, task: u64)
    ensures
        m@.tasks.contains_key(task) ==> m.progress(task) is None,
        !m@.tasks.contains_key(task) ==> m.progress(task) == Some(Set::<u64>::empty()),
{
}

} // verus!
