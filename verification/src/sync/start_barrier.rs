//! Start barriers: the tasks that wait at a barrier are blocked until as
//! many tasks as its capacity have arrived; from then on each waiter needs
//! all the waiters to run.

use crate::keyed::{Key, VecMap, VecSet, value_views};
use crate::sync_model::{
    BadSyncError, DynSyncModel, NotificationOutcome, ProcessSyncEvent, ProcessSyncInitEvent,
    SyncEvent, SyncInitEvent, SyncModel, TaskProgressDependencies, unrestricted,
};
use crate::task::{TaskId, TaskSet};
use vstd::prelude::*;

verus! {

/// The identity of a barrier: the address of the barrier it stands for.
#[derive(Debug, Clone, Copy, PartialEq, Eq, Structural, Hash)]
pub struct BarrierId(pub(crate) usize);

impl View for BarrierId {
    type V = usize;

    closed spec fn view(&self) -> usize {
        self.0
    }
}

impl BarrierId {
    pub fn from_address(address: usize) -> (r: Self)
        ensures
            r@ == address,
    {
        BarrierId(address)
    }
}

impl Key for BarrierId {
    fn same_key(&self, other: &Self) -> (r: bool) {
        self.0 == other.0
    }

    fn copy_key(&self) -> (r: Self) {
        *self
    }
}

/// A barrier: how many tasks it waits for, whether that many arrived, and
/// the tasks that wait at it.
#[derive(Debug)]
pub struct BarrierState {
    pub(crate) capacity: usize,
    pub(crate) reached: bool,
    pub(crate) tasks: TaskSet,
}

pub struct BarrierStateView {
    pub capacity: usize,
    pub reached: bool,
    pub tasks: Set<u64>,
}

impl View for BarrierState {
    type V = BarrierStateView;

    closed spec fn view(&self) -> BarrierStateView {
        BarrierStateView { capacity: self.capacity, reached: self.reached, tasks: self.tasks@ }
    }
}

/// The state of all barriers and of the tasks that wait at them.
#[derive(Debug)]
pub struct BarrierModel {
    pub(crate) task_waiting: VecMap<TaskId, BarrierId>,
    pub(crate) barriers: VecMap<BarrierId, BarrierState>,
}

pub struct BarrierModelView {
    pub task_waiting: Map<u64, usize>,
    pub barriers: Map<usize, BarrierStateView>,
}

impl View for BarrierModel {
    type V = BarrierModelView;

    closed spec fn view(&self) -> BarrierModelView {
        BarrierModelView {
            task_waiting: value_views(self.task_waiting@),
            barriers: value_views(self.barriers@),
        }
    }
}

/// The barriers once the task leaves the barrier; a barrier that nobody
/// waits at any more is forgotten.
pub open spec fn barriers_without(
    barriers: Map<usize, BarrierStateView>,
    barrier: usize,
    task: u64,
) -> Map<usize, BarrierStateView> {
    let b = barriers[barrier];
    if b.tasks.remove(task).is_empty() {
        barriers.remove(barrier)
    } else {
        barriers.insert(
            barrier,
            BarrierStateView { capacity: b.capacity, reached: b.reached, tasks: b.tasks.remove(task) },
        )
    }
}

impl BarrierModel {
    pub fn new() -> (r: Self)
        ensures
            r@.task_waiting == Map::<u64, usize>::empty(),
            r@.barriers == Map::<usize, BarrierStateView>::empty(),
    {
        let r = BarrierModel { task_waiting: VecMap::new(), barriers: VecMap::new() };
        proof {
            assert(r@.task_waiting =~= Map::<u64, usize>::empty());
            assert(r@.barriers =~= Map::<usize, BarrierStateView>::empty());
        }
        r
    }

    /// The task leaves the barrier, whether it gave up or passed it.
    fn leave(&mut self, task_id: TaskId, barrier_id: BarrierId) -> (r: Result<
        NotificationOutcome,
        BadSyncError,
    >)
        ensures
            !old(self)@.barriers.contains_key(barrier_id@) ==> {
                &&& r matches Err(e) && e.0@ == "barrier not exists"@
                &&& final(self)@ == old(self)@
            },
            old(self)@.barriers.contains_key(barrier_id@) ==> {
                &&& r == Ok::<NotificationOutcome, BadSyncError>(NotificationOutcome::Acknowledged)
                &&& final(self)@.barriers == barriers_without(
                    old(self)@.barriers,
                    barrier_id@,
                    task_id@,
                )
                &&& final(self)@.task_waiting == old(self)@.task_waiting.remove(task_id@)
            },
    {
        let ghost bs = self@.barriers;
        let ghost tw = self@.task_waiting;
        match self.barriers.remove(&barrier_id) {
            None => {
                proof {
                    assert(self@.barriers =~= bs);
                }
                Err(BadSyncError::new("barrier not exists"))
            },
            Some(mut barrier) => {
                barrier.tasks.remove(&task_id);
                if !barrier.tasks.is_empty() {
                    self.barriers.insert(barrier_id, barrier);
                }
                self.task_waiting.remove(&task_id);
                proof {
                    assert(self@.barriers =~= barriers_without(bs, barrier_id@, task_id@));
                    assert(self@.task_waiting =~= tw.remove(task_id@));
                }
                Ok(NotificationOutcome::Acknowledged)
            },
        }
    }
}

impl Default for BarrierModel {
    fn default() -> (r: Self)
        ensures
            r@.task_waiting == Map::<u64, usize>::empty(),
            r@.barriers == Map::<usize, BarrierStateView>::empty(),
    {
        BarrierModel::new()
    }
}

impl SyncModel for BarrierModel {
}

impl DynSyncModel for BarrierModel {
    /// A task at a barrier that has not been reached is blocked; at a reached
    /// barrier it needs all the waiters.
    open spec fn progress(&self, task: u64) -> Option<Set<u64>> {
        if !self@.task_waiting.contains_key(task) {
            unrestricted()
        } else if !self@.barriers.contains_key(self@.task_waiting[task]) {
            unrestricted()
        } else if self@.barriers[self@.task_waiting[task]].reached {
            Some(self@.barriers[self@.task_waiting[task]].tasks)
        } else {
            None
        }
    }

    fn task_progress_dependencies(&self, task_id: TaskId) -> (r: TaskProgressDependencies) {
        let barrier_id = match self.task_waiting.get(&task_id) {
            None => return TaskProgressDependencies::ready(),
            Some(barrier_id) => barrier_id,
        };
        let barrier = match self.barriers.get(barrier_id) {
            None => return TaskProgressDependencies::ready(),
            Some(barrier) => barrier,
        };
        if barrier.reached {
            TaskProgressDependencies::Ready { need_to_run: barrier.tasks.duplicate() }
        } else {
            TaskProgressDependencies::Blocked
        }
    }
}

/// A barrier for the given number of tasks was created.
pub struct NewBarrier {
    pub barrier: BarrierId,
    pub capacity: usize,
}

impl SyncInitEvent for NewBarrier {
    type Model = BarrierModel;
}

/// The task waits at the barrier.
pub struct WaitingForBarrier(pub BarrierId);

impl SyncEvent for WaitingForBarrier {
    type Model = BarrierModel;
}

/// The task gave up waiting at the barrier.
pub struct AbortedWaitingForBarrier(pub BarrierId);

impl SyncEvent for AbortedWaitingForBarrier {
    type Model = BarrierModel;
}

/// The task passed the barrier.
pub struct CompletedBarrierWait(pub BarrierId);

impl SyncEvent for CompletedBarrierWait {
    type Model = BarrierModel;
}

impl ProcessSyncInitEvent<NewBarrier> for BarrierModel {
    open spec fn handles_init(&self, event: NewBarrier, after: Self, r: Result<NotificationOutcome, BadSyncError>) -> bool {
        &&& r == Ok::<NotificationOutcome, BadSyncError>(NotificationOutcome::Acknowledged)
        &&& after@.task_waiting == self@.task_waiting
        &&& after@.barriers == self@.barriers.insert(
            event.barrier@,
            BarrierStateView { capacity: event.capacity, reached: false, tasks: Set::empty() },
        )
    }

    fn on_init_event(&mut self, event: NewBarrier) -> (r: Result<NotificationOutcome, BadSyncError>)
    {
        let ghost bs = self@.barriers;
        self.barriers.insert(
            event.barrier,
            BarrierState { capacity: event.capacity, reached: false, tasks: VecSet::new() },
        );
        proof {
            assert(self@.barriers =~= bs.insert(
                event.barrier@,
                BarrierStateView { capacity: event.capacity, reached: false, tasks: Set::empty() },
            ));
        }
        Ok(NotificationOutcome::Acknowledged)
    }
}

impl ProcessSyncEvent<WaitingForBarrier> for BarrierModel {
    open spec fn handles(
        &self,
        task: u64,
        event: WaitingForBarrier,
        after: Self,
        r: Result<NotificationOutcome, BadSyncError>,
    ) -> bool {
        &&& ({
            let v = self@;
            let b = event.0@;
            let t = task;
            if !v.barriers.contains_key(b) {
                &&& r matches Err(e) && e.0@ == "barrier not exists"@
                &&& after@ == v
            } else if v.task_waiting.contains_key(t) {
                &&& r matches Err(e) && e.0@ == "task is already waiting on a barrier"@
                &&& after@.task_waiting == v.task_waiting.insert(t, b)
                &&& after@.barriers == v.barriers
            } else {
                let tasks = v.barriers[b].tasks.insert(t);
                &&& r == Ok::<NotificationOutcome, BadSyncError>(NotificationOutcome::Acknowledged)
                &&& after@.task_waiting == v.task_waiting.insert(t, b)
                &&& after@.barriers == v.barriers.insert(
                    b,
                    BarrierStateView {
                        capacity: v.barriers[b].capacity,
                        reached: v.barriers[b].reached || tasks.len() >= v.barriers[b].capacity,
                        tasks,
                    },
                )
            }
        })
    }

    fn on_event(&mut self, task_id: TaskId, event: WaitingForBarrier) -> (r: Result<
        NotificationOutcome,
        BadSyncError,
    >)
    {
        let WaitingForBarrier(barrier_id) = event;
        let ghost bs = self@.barriers;
        let ghost tw = self@.task_waiting;
        let mut barrier = match self.barriers.remove(&barrier_id) {
            None => {
                proof {
                    assert(self@.barriers =~= bs);
                }
                return Err(BadSyncError::new("barrier not exists"));
            },
            Some(barrier) => barrier,
        };
        if self.task_waiting.insert(task_id, barrier_id).is_some() {
            self.barriers.insert(barrier_id, barrier);
            proof {
                assert(self@.barriers =~= bs);
                assert(self@.task_waiting =~= tw.insert(task_id@, barrier_id@));
            }
            return Err(BadSyncError::new("task is already waiting on a barrier"));
        }
        barrier.tasks.insert(task_id);
        if !barrier.reached && barrier.tasks.len() >= barrier.capacity {
            barrier.reached = true;
        }
        self.barriers.insert(barrier_id, barrier);
        proof {
            assert(self@.task_waiting =~= tw.insert(task_id@, barrier_id@));
            let tasks = bs[barrier_id@].tasks.insert(task_id@);
            assert(self@.barriers =~= bs.insert(
                barrier_id@,
                BarrierStateView {
                    capacity: bs[barrier_id@].capacity,
                    reached: bs[barrier_id@].reached || tasks.len() >= bs[barrier_id@].capacity,
                    tasks,
                },
            ));
        }
        Ok(NotificationOutcome::Acknowledged)
    }
}

impl ProcessSyncEvent<AbortedWaitingForBarrier> for BarrierModel {
    open spec fn handles(
        &self,
        task: u64,
        event: AbortedWaitingForBarrier,
        after: Self,
        r: Result<NotificationOutcome, BadSyncError>,
    ) -> bool {
        &&& !self@.barriers.contains_key(event.0@) ==> {
            &&& r matches Err(e) && e.0@ == "barrier not exists"@
            &&& after@ == self@
        }
        &&& self@.barriers.contains_key(event.0@) ==> {
            &&& r == Ok::<NotificationOutcome, BadSyncError>(NotificationOutcome::Acknowledged)
            &&& after@.barriers == barriers_without(
                self@.barriers,
                event.0@,
                task,
            )
            &&& after@.task_waiting == self@.task_waiting.remove(task)
        }
    }

    fn on_event(&mut self, task_id: TaskId, event: AbortedWaitingForBarrier) -> (r: Result<
        NotificationOutcome,
        BadSyncError,
    >)
    {
        self.leave(task_id, event.0)
    }
}

impl ProcessSyncEvent<CompletedBarrierWait> for BarrierModel {
    open spec fn handles(
        &self,
        task: u64,
        event: CompletedBarrierWait,
        after: Self,
        r: Result<NotificationOutcome, BadSyncError>,
    ) -> bool {
        &&& !self@.barriers.contains_key(event.0@) ==> {
            &&& r matches Err(e) && e.0@ == "barrier not exists"@
            &&& after@ == self@
        }
        &&& self@.barriers.contains_key(event.0@) ==> {
            &&& r == Ok::<NotificationOutcome, BadSyncError>(NotificationOutcome::Acknowledged)
            &&& after@.barriers == barriers_without(
                self@.barriers,
                event.0@,
                task,
            )
            &&& after@.task_waiting == self@.task_waiting.remove(task)
        }
    }

    fn on_event(&mut self, task_id: TaskId, event: CompletedBarrierWait) -> (r: Result<
        NotificationOutcome,
        BadSyncError,
    >)
    {
        self.leave(task_id, event.0)
    }
}

/// A task's arriving at a barrier never makes a reached barrier unreached.
pub proof fn lemma_barrier_reached_stays_on_wait(
    m: BarrierModel,
    task: u64,
    event: WaitingForBarrier,
    after: BarrierModel,
    r: Result<NotificationOutcome, BadSyncError>,
    b: usize,
)
    requires
        m.handles(task, event, after, r),
        m@.barriers.contains_key(b) && m@.barriers[b].reached,
    ensures
        after@.barriers.contains_key(b) && after@.barriers[b].reached,
{
}

/// A task's leaving a barrier (giving up, or passing it) never makes a
/// reached barrier unreached; the barrier is forgotten once nobody waits
/// at it, and the task waits at no barrier any more.
pub proof fn lemma_barrier_reached_stays_on_leave(
    m: BarrierModel,
    task: u64,
    aborted: AbortedWaitingForBarrier,
    completed: CompletedBarrierWait,
    after_aborted: BarrierModel,
    after_completed: BarrierModel,
    r1: Result<NotificationOutcome, BadSyncError>,
    r2: Result<NotificationOutcome, BadSyncError>,
    b: usize,
)
    requires
        m.handles(task, aborted, after_aborted, r1),
        m.handles(task, completed, after_completed, r2),
        m@.barriers.contains_key(b) && m@.barriers[b].reached,
    ensures
        after_aborted@.barriers.contains_key(b) ==> after_aborted@.barriers[b].reached,
        after_completed@.barriers.contains_key(b) ==> after_completed@.barriers[b].reached,
        m@.barriers.contains_key(completed.0@) ==> {
            &&& r2 is Ok
            &&& !after_completed@.task_waiting.contains_key(task)
            &&& (after_completed@.barriers.contains_key(completed.0@) <==> !m@.barriers[completed.0@].tasks.remove(task).is_empty())
        },
        !m@.barriers.contains_key(completed.0@) ==> r2 is Err && after_completed@ == m@,
        !m@.barriers.contains_key(aborted.0@) ==> r1 is Err && after_aborted@ == m@,
{
}


/// A task at a known barrier is blocked until the barrier is reached; from
/// then on it needs the tasks that wait at the barrier. A task at no known
/// barrier needs nothing.
pub proof fn lemma_barrier_blocks_until_reached(m: BarrierModel, task: u64)
    ensures
        m@.task_waiting.contains_key(task) && m@.barriers.contains_key(m@.task_waiting[task])
            && !m@.barriers[m@.task_waiting[task]].reached ==> m.progress(task) is None,
        m@.task_waiting.contains_key(task) && m@.barriers.contains_key(m@.task_waiting[task])
            && m@.barriers[m@.task_waiting[task]].reached ==> m.progress(task) == Some(
            m@.barriers[m@.task_waiting[task]].tasks,
        ),
        !(m@.task_waiting.contains_key(task) && m@.barriers.contains_key(m@.task_waiting[task]))
            ==> m.progress(task) == Some(Set::<u64>::empty()),
{
}


/// A task that arrives at a known barrier, waiting at none yet, is
/// accepted and waits there; the barrier is reached once as many tasks as
/// its capacity have arrived (and stays reached). The arriving task is then
/// blocked until the barrier is reached, and needs the waiters after.
pub proof fn lemma_barrier_arrival(
    m: BarrierModel,
    task: u64,
    event: WaitingForBarrier,
    after: BarrierModel,
    r: Result<NotificationOutcome, BadSyncError>,
)
    requires
        m.handles(task, event, after, r),
    ensures
        r is Ok <==> m@.barriers.contains_key(event.0@) && !m@.task_waiting.contains_key(task),
        r is Ok ==> {
            let b = after@.barriers[event.0@];
            &&& after@.task_waiting.contains_key(task) && after@.task_waiting[task] == event.0@
            &&& after@.barriers.contains_key(event.0@)
            &&& b.tasks == m@.barriers[event.0@].tasks.insert(task)
            &&& b.capacity == m@.barriers[event.0@].capacity
            &&& b.reached <==> (m@.barriers[event.0@].reached || b.tasks.len() >= b.capacity)
            &&& !b.reached ==> after.progress(task) is None
            &&& b.reached ==> after.progress(task) == Some(b.tasks)
        },
{
}

} // verus!
