//! Tasks that wait for something the library has no model of are blocked
//! until they report that the wait is over.

use crate::keyed::VecSet;
use crate::sync_model::{
    BadSyncError, DynSyncModel, NotificationOutcome, ProcessSyncEvent, SyncEvent, SyncModel,
    TaskProgressDependencies, unrestricted,
};
use crate::task::{TaskId, TaskSet};
use vstd::prelude::*;

verus! {

/// The tasks that wait for something unknown.
#[derive(Debug)]
pub struct UnknownWaitModel {
    pub(crate) blocked_tasks: TaskSet,
}

impl View for UnknownWaitModel {
    type V = Set<u64>;

    closed spec fn view(&self) -> Set<u64> {
        self.blocked_tasks@
    }
}

impl UnknownWaitModel {
    pub fn new() -> (r: Self)
        ensures
            r@ == Set::<u64>::empty(),
    {
        UnknownWaitModel { blocked_tasks: VecSet::new() }
    }
}

impl Default for UnknownWaitModel {
    fn default() -> (r: Self)
        ensures
            r@ == Set::<u64>::empty(),
    {
        UnknownWaitModel::new()
    }
}

impl SyncModel for UnknownWaitModel {
}

impl DynSyncModel for UnknownWaitModel {
    open spec fn progress(&self, task: u64) -> Option<Set<u64>> {
        if self@.contains(task) {
            None
        } else {
            unrestricted()
        }
    }

    fn task_progress_dependencies(&self, task_id: TaskId) -> (r: TaskProgressDependencies) {
        if self.blocked_tasks.contains(&task_id) {
            TaskProgressDependencies::Blocked
        } else {
            TaskProgressDependencies::ready()
        }
    }
}

/// The task starts waiting for something unknown.
pub struct TaskWaitForUnknownStarted;

/// The task no longer waits for something unknown.
pub struct TaskWaitForUnknownCompleted;

impl SyncEvent for TaskWaitForUnknownStarted {
    type Model = UnknownWaitModel;
}

impl SyncEvent for TaskWaitForUnknownCompleted {
    type Model = UnknownWaitModel;
}

impl ProcessSyncEvent<TaskWaitForUnknownStarted> for UnknownWaitModel {
    open spec fn handles(
        &self,
        task: u64,
        event: TaskWaitForUnknownStarted,
        after: Self,
        r: Result<NotificationOutcome, BadSyncError>,
    ) -> bool {
        &&& r == Ok::<NotificationOutcome, BadSyncError>(NotificationOutcome::Acknowledged)
        &&& after@ == self@.insert(task)
    }

    fn on_event(&mut self, task_id: TaskId, event: TaskWaitForUnknownStarted) -> (r: Result<
        NotificationOutcome,
        BadSyncError,
    >)
    {
        self.blocked_tasks.insert(task_id);
        Ok(NotificationOutcome::Acknowledged)
    }
}

impl ProcessSyncEvent<TaskWaitForUnknownCompleted> for UnknownWaitModel {
    open spec fn handles(
        &self,
        task: u64,
        event: TaskWaitForUnknownCompleted,
        after: Self,
        r: Result<NotificationOutcome, BadSyncError>,
    ) -> bool {
        &&& r == Ok::<NotificationOutcome, BadSyncError>(NotificationOutcome::Acknowledged)
        &&& after@ == self@.remove(task)
    }

    fn on_event(&mut self, task_id: TaskId, event: TaskWaitForUnknownCompleted) -> (r: Result<
        NotificationOutcome,
        BadSyncError,
    >)
    {
        self.blocked_tasks.remove(&task_id);
        Ok(NotificationOutcome::Acknowledged)
    }
}


/// A task that waits for something unknown is blocked; any other task needs
/// nothing.
pub proof fn lemma_unknown_wait_blocks(m: UnknownWaitModel, task: u64)
    ensures
        m@.contains(task) ==> m.progress(task) is None,
        !m@.contains(task) ==> m.progress(task) == Some(Set::<u64>::empty()),
{
}


/// Starting to wait for something unknown blocks the task, and ending the
/// wait frees it; other tasks are unaffected.
pub proof fn lemma_unknown_wait_events(
    m: UnknownWaitModel,
    task: u64,
    start: TaskWaitForUnknownStarted,
    complete: TaskWaitForUnknownCompleted,
    after_start: UnknownWaitModel,
    after_complete: UnknownWaitModel,
    r1: Result<NotificationOutcome, BadSyncError>,
    r2: Result<NotificationOutcome, BadSyncError>,
)
    requires
        m.handles(task, start, after_start, r1),
        m.handles(task, complete, after_complete, r2),
    ensures
        r1 is Ok && r2 is Ok,
        after_start.progress(task) is None,
        after_complete.progress(task) == Some(Set::<u64>::empty()),
        forall|t: u64|
            t != task ==> #[trigger] after_start.progress(t) == m.progress(t) && after_complete.progress(t)
                == m.progress(t),
{
}

} // verus!
