//! Tasks that are joining other tasks (`tokio::join` and the like) are driven
//! by those tasks and cannot progress on their own.

use crate::keyed::VecSet;
use crate::sync_model::{
    BadSyncError, DynSyncModel, NotificationOutcome, ProcessSyncEvent, SyncEvent, SyncModel,
    TaskProgressDependencies, unrestricted,
};
use crate::task::{TaskId, TaskSet};
use vstd::prelude::*;

verus! {

/// The tasks that are performing a join. These tasks are blocked.
#[derive(Debug)]
pub struct TaskJoinModel {
    pub(crate) is_in_join: TaskSet,
}

impl View for TaskJoinModel {
    type V = Set<u64>;

    closed spec fn view(&self) -> Set<u64> {
        self.is_in_join@
    }
}

impl TaskJoinModel {
    pub fn new() -> (r: Self)
        ensures
            r@ == Set::<u64>::empty(),
    {
        TaskJoinModel { is_in_join: VecSet::new() }
    }
}

impl Default for TaskJoinModel {
    fn default() -> (r: Self)
        ensures
            r@ == Set::<u64>::empty(),
    {
        TaskJoinModel::new()
    }
}

/// The task starts joining.
pub struct StartingJoin;

impl SyncEvent for StartingJoin {
    type Model = TaskJoinModel;
}

/// The task finished joining.
pub struct CompletedJoin;

impl SyncEvent for CompletedJoin {
    type Model = TaskJoinModel;
}

impl SyncModel for TaskJoinModel {
}

impl DynSyncModel for TaskJoinModel {
    open spec fn progress(&self, task: u64) -> Option<Set<u64>> {
        if self@.contains(task) {
            None
        } else {
            unrestricted()
        }
    }

    fn task_progress_dependencies(&self, task_id: TaskId) -> (r: TaskProgressDependencies) {
        if self.is_in_join.contains(&task_id) {
            TaskProgressDependencies::Blocked
        } else {
            TaskProgressDependencies::ready()
        }
    }
}

impl ProcessSyncEvent<StartingJoin> for TaskJoinModel {
    open spec fn handles(
        &self,
        task: u64,
        event: StartingJoin,
        after: Self,
        r: Result<NotificationOutcome, BadSyncError>,
    ) -> bool {
        &&& self@.contains(task) ==> {
            &&& r matches Err(e) && e.0@ == "task is already in join"@
            &&& after@ == self@
        }
        &&& !self@.contains(task) ==> {
            &&& r == Ok::<NotificationOutcome, BadSyncError>(NotificationOutcome::Acknowledged)
            &&& after@ == self@.insert(task)
        }
    }

    fn on_event(&mut self, task_id: TaskId, _event: StartingJoin) -> (r: Result<
        NotificationOutcome,
        BadSyncError,
    >)
    {
        if !self.is_in_join.insert(task_id) {
            proof {
                assert(self@ =~= old(self)@);
            }
            return Err(BadSyncError::new("task is already in join"));
        }
        Ok(NotificationOutcome::Acknowledged)
    }
}

impl ProcessSyncEvent<CompletedJoin> for TaskJoinModel {
    open spec fn handles(
        &self,
        task: u64,
        event: CompletedJoin,
        after: Self,
        r: Result<NotificationOutcome, BadSyncError>,
    ) -> bool {
        &&& !self@.contains(task) ==> {
            &&& r matches Err(e) && e.0@ == "task is not in a join"@
            &&& after@ == self@
        }
        &&& self@.contains(task) ==> {
            &&& r == Ok::<NotificationOutcome, BadSyncError>(NotificationOutcome::Acknowledged)
            &&& after@ == self@.remove(task)
        }
    }

    fn on_event(&mut self, task_id: TaskId, _event: CompletedJoin) -> (r: Result<
        NotificationOutcome,
        BadSyncError,
    >)
    {
        if !self.is_in_join.remove(&task_id) {
            proof {
                assert(self@ =~= old(self)@);
            }
            return Err(BadSyncError::new("task is not in a join"));
        }
        Ok(NotificationOutcome::Acknowledged)
    }
}


/// A task inside a join is blocked; any other task needs nothing.
pub proof fn lemma_join_blocks(m: TaskJoinModel, task: u64)
    ensures
        m@.contains(task) ==> m.progress(task) is None,
        !m@.contains(task) ==> m.progress(task) == Some(Set::<u64>::empty()),
{
}


/// Entering a join blocks the task (a task already in one is refused);
/// leaving it frees the task (a task in none is refused). Other tasks are
/// unaffected.
pub proof fn lemma_join_events(
    m: TaskJoinModel,
    task: u64,
    start: StartingJoin,
    complete: CompletedJoin,
    after_start: TaskJoinModel,
    after_complete: TaskJoinModel,
    r1: Result<NotificationOutcome, BadSyncError>,
    r2: Result<NotificationOutcome, BadSyncError>,
)
    requires
        m.handles(task, start, after_start, r1),
        m.handles(task, complete, after_complete, r2),
    ensures
        r1 is Ok <==> m.progress(task) != None::<Set<u64>>,
        after_start.progress(task) is None,
        r2 is Ok <==> m.progress(task) is None,
        after_complete.progress(task) == Some(Set::<u64>::empty()),
        forall|t: u64|
            t != task ==> #[trigger] after_start.progress(t) == m.progress(t) && after_complete.progress(t)
                == m.progress(t),
{
}

} // verus!
