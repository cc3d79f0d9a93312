//! Mutexes: a task that waits for a mutex is blocked while another task
//! holds it.

use crate::keyed::{Key, VecMap, VecSet, add_to_entry, entry_without, remove_from_entry, value_views};
use crate::sync_model::{
    BadSyncError, DynSyncModel, NotificationOutcome, ProcessSyncEvent, SyncEvent, SyncModel,
    TaskProgressDependencies, unrestricted,
};
use crate::task::TaskId;
use vstd::prelude::*;

verus! {

/// The identity of a mutex, by name.
#[derive(Debug, Clone, PartialEq, Eq, Hash)]
pub struct MutexId(pub(crate) String);

impl View for MutexId {
    type V = Seq<char>;

    closed spec fn view(&self) -> Seq<char> {
        self.0@
    }
}

impl MutexId {
    pub fn new(id: String) -> (r: Self)
        ensures
            r@ == id@,
    {
        MutexId(id)
    }
}

impl Key for MutexId {
    fn same_key(&self, other: &Self) -> (r: bool) {
        self.0 == other.0
    }

    fn copy_key(&self) -> (r: Self) {
        MutexId(self.0.clone())
    }
}

/// The state of all mutexes: which task holds each held mutex, and which
/// mutexes each task waits for.
pub struct MutexModel {
    pub(crate) held_by: VecMap<MutexId, TaskId>,
    pub(crate) waiting: VecMap<TaskId, VecSet<MutexId>>,
}

/// The mathematical state of the mutexes.
pub struct MutexModelView {
    pub held_by: Map<Seq<char>, u64>,
    pub waiting: Map<u64, Set<Seq<char>>>,
}

impl View for MutexModel {
    type V = MutexModelView;

    closed spec fn view(&self) -> MutexModelView {
        MutexModelView {
            held_by: value_views(self.held_by@),
            waiting: value_views(self.waiting@),
        }
    }
}

/// Whether the task waits for the mutex.
pub open spec fn mutex_is_awaited(v: MutexModelView, task: u64, mutex: Seq<char>) -> bool {
    v.waiting.contains_key(task) && v.waiting[task].contains(mutex)
}

/// The waiting relation once the task stops waiting for the mutex; a task
/// that waits for no mutex has no entry.
pub open spec fn mutex_waiting_without(
    waiting: Map<u64, Set<Seq<char>>>,
    task: u64,
    mutex: Seq<char>,
) -> Map<u64, Set<Seq<char>>> {
    entry_without(waiting, task, mutex)
}

/// The mutexes once the task starts locking the mutex.
pub open spec fn mutex_locking(v: MutexModelView, task: u64, mutex: Seq<char>) -> MutexModelView {
    MutexModelView {
        held_by: v.held_by,
        waiting: v.waiting.insert(
            task,
            if v.waiting.contains_key(task) {
                v.waiting[task]
            } else {
                Set::empty()
            }.insert(mutex),
        ),
    }
}

/// The mutexes once the task that waited for the mutex holds it.
pub open spec fn mutex_locked(v: MutexModelView, task: u64, mutex: Seq<char>) -> MutexModelView {
    MutexModelView {
        held_by: v.held_by.insert(mutex, task),
        waiting: mutex_waiting_without(v.waiting, task, mutex),
    }
}

/// The mutexes once the mutex is released.
pub open spec fn mutex_released(v: MutexModelView, mutex: Seq<char>) -> MutexModelView {
    MutexModelView { held_by: v.held_by.remove(mutex), waiting: v.waiting }
}

/// A task that waits for no mutex locks a mutex that nobody holds, takes it
/// and releases it: each event is accepted, and the mutexes end as they
/// were.
pub proof fn lemma_mutex_cycle(v: MutexModelView, task: u64, mutex: Seq<char>)
    requires
        !v.held_by.contains_key(mutex),
        !v.waiting.contains_key(task),
    ensures
        !(v.held_by.contains_key(mutex) && v.held_by[mutex] == task),
        !mutex_is_awaited(v, task, mutex),
        mutex_is_awaited(mutex_locking(v, task, mutex), task, mutex),
        mutex_locked(mutex_locking(v, task, mutex), task, mutex).held_by.contains_key(mutex),
        mutex_locked(mutex_locking(v, task, mutex), task, mutex).held_by[mutex] == task,
        mutex_released(mutex_locked(mutex_locking(v, task, mutex), task, mutex), mutex) == v,
{
    let l1 = mutex_locking(v, task, mutex);
    let l2 = mutex_locked(l1, task, mutex);
    assert(l1.waiting[task] =~= Set::empty().insert(mutex));
    assert(l1.waiting[task].remove(mutex) =~= Set::<Seq<char>>::empty());
    assert(l2.waiting =~= v.waiting);
    assert(l2.held_by.remove(mutex) =~= v.held_by);
}

impl MutexModel {
    pub fn new() -> (r: Self)
        ensures
            r@.held_by == Map::<Seq<char>, u64>::empty(),
            r@.waiting == Map::<u64, Set<Seq<char>>>::empty(),
    {
        let r = MutexModel { held_by: VecMap::new(), waiting: VecMap::new() };
        proof {
            assert(r@.held_by =~= Map::<Seq<char>, u64>::empty());
            assert(r@.waiting =~= Map::<u64, Set<Seq<char>>>::empty());
        }
        r
    }

    /// Removes the mutex from the mutexes that the task waits for.
    fn stop_waiting(&mut self, task_id: TaskId, lock_id: &MutexId) -> (r: Result<
        NotificationOutcome,
        BadSyncError,
    >)
        ensures
            final(self)@.held_by == old(self)@.held_by,
            !mutex_is_awaited(old(self)@, task_id@, lock_id@) ==> {
                &&& r matches Err(e) && e.0@ == "the task is not waiting for the mutex"@
                &&& final(self)@.waiting == old(self)@.waiting
            },
            mutex_is_awaited(old(self)@, task_id@, lock_id@) ==> {
                &&& r == Ok::<NotificationOutcome, BadSyncError>(NotificationOutcome::Acknowledged)
                &&& final(self)@.waiting == mutex_waiting_without(
                    old(self)@.waiting,
                    task_id@,
                    lock_id@,
                )
            },
    {
        if remove_from_entry(&mut self.waiting, &task_id, lock_id) {
            Ok(NotificationOutcome::Acknowledged)
        } else {
            Err(BadSyncError::new("the task is not waiting for the mutex"))
        }
    }
}

impl Default for MutexModel {
    fn default() -> (r: Self)
        ensures
            r@.held_by == Map::<Seq<char>, u64>::empty(),
            r@.waiting == Map::<u64, Set<Seq<char>>>::empty(),
    {
        MutexModel::new()
    }
}

impl SyncModel for MutexModel {
}

impl DynSyncModel for MutexModel {
    /// A task is blocked while some mutex that it waits for is held.
    open spec fn progress(&self, task: u64) -> Option<Set<u64>> {
        if self@.waiting.contains_key(task) && exists|m: Seq<char>|
            #![trigger self@.waiting[task].contains(m)]
            self@.waiting[task].contains(m) && self@.held_by.contains_key(m) {
            None
        } else {
            unrestricted()
        }
    }

    fn task_progress_dependencies(&self, task_id: TaskId) -> (r: TaskProgressDependencies) {
        if let Some(waiting) = self.waiting.get(&task_id) {
            proof {
                waiting.lemma_view();
            }
            let n = waiting.len();
            let mut i: usize = 0;
            while i < n
                invariant
                    n == waiting.seq().len(),
                    i <= n,
                    self@.waiting.contains_key(task_id@),
                    self@.waiting[task_id@] == waiting@,
                    waiting@ == waiting.seq().to_set(),
                    forall|j: int| 0 <= j < i ==> !self@.held_by.contains_key(#[trigger] waiting.seq()[j]),
                decreases n - i,
            {
                if self.held_by.contains_key(waiting.get(i)) {
                    proof {
                        assert(waiting@.contains(waiting.seq()[i as int]));
                    }
                    return TaskProgressDependencies::Blocked;
                }
                i = i + 1;
            }
            proof {
                assert forall|m: Seq<char>| #[trigger] waiting@.contains(m) implies !self@.held_by.contains_key(m) by {
                    let j = choose|j: int| 0 <= j < waiting.seq().len() && waiting.seq()[j] == m;
                }
            }
        }
        TaskProgressDependencies::ready()
    }
}

/// The task starts locking the mutex.
pub struct LockingMutex(pub MutexId);

impl SyncEvent for LockingMutex {
    type Model = MutexModel;
}

/// The task gave up locking the mutex.
pub struct AbortedLockingMutex(pub MutexId);

impl SyncEvent for AbortedLockingMutex {
    type Model = MutexModel;
}

/// The task now holds the mutex.
pub struct LockedMutex(pub MutexId);

impl SyncEvent for LockedMutex {
    type Model = MutexModel;
}

/// The task released the mutex.
pub struct ReleasedMutex(pub MutexId);

impl SyncEvent for ReleasedMutex {
    type Model = MutexModel;
}

impl ProcessSyncEvent<LockingMutex> for MutexModel {
    open spec fn handles(
        &self,
        task: u64,
        event: LockingMutex,
        after: Self,
        r: Result<NotificationOutcome, BadSyncError>,
    ) -> bool {
        &&& ({
            let v = self@;
            let l = event.0@;
            let t = task;
            if v.held_by.contains_key(l) && v.held_by[l] == t {
                &&& r matches Err(e) && e.0@ == "the task already holds the mutex"@
                &&& after@ == v
            } else if mutex_is_awaited(v, t, l) {
                &&& r matches Err(e) && e.0@ == "the task is already waiting for the mutex"@
                &&& after@ == v
            } else {
                &&& r == Ok::<NotificationOutcome, BadSyncError>(NotificationOutcome::Acknowledged)
                &&& after@.held_by == mutex_locking(v, t, l).held_by
                &&& after@.waiting == mutex_locking(v, t, l).waiting
            }
        })
    }

    fn on_event(&mut self, task_id: TaskId, event: LockingMutex) -> (r: Result<
        NotificationOutcome,
        BadSyncError,
    >)
    {
        let LockingMutex(lock_id) = event;
        if let Some(holder) = self.held_by.get(&lock_id) {
            if holder.same_key(&task_id) {
                return Err(BadSyncError::new("the task already holds the mutex"));
            }
        }
        if let Some(set) = self.waiting.get(&task_id) {
            if set.contains(&lock_id) {
                return Err(BadSyncError::new("the task is already waiting for the mutex"));
            }
        }
        add_to_entry(&mut self.waiting, task_id, lock_id);
        Ok(NotificationOutcome::Acknowledged)
    }
}

impl ProcessSyncEvent<AbortedLockingMutex> for MutexModel {
    open spec fn handles(
        &self,
        task: u64,
        event: AbortedLockingMutex,
        after: Self,
        r: Result<NotificationOutcome, BadSyncError>,
    ) -> bool {
        &&& after@.held_by == self@.held_by
        &&& !mutex_is_awaited(self@, task, event.0@) ==> {
            &&& r matches Err(e) && e.0@ == "the task is not waiting for the mutex"@
            &&& after@.waiting == self@.waiting
        }
        &&& mutex_is_awaited(self@, task, event.0@) ==> {
            &&& r == Ok::<NotificationOutcome, BadSyncError>(NotificationOutcome::Acknowledged)
            &&& after@.waiting == mutex_waiting_without(
                self@.waiting,
                task,
                event.0@,
            )
        }
    }

    fn on_event(&mut self, task_id: TaskId, event: AbortedLockingMutex) -> (r: Result<
        NotificationOutcome,
        BadSyncError,
    >)
    {
        let AbortedLockingMutex(lock_id) = event;
        self.stop_waiting(task_id, &lock_id)
    }
}

impl ProcessSyncEvent<LockedMutex> for MutexModel {
    open spec fn handles(
        &self,
        task: u64,
        event: LockedMutex,
        after: Self,
        r: Result<NotificationOutcome, BadSyncError>,
    ) -> bool {
        &&& !mutex_is_awaited(self@, task, event.0@) ==> {
            &&& r matches Err(e) && e.0@ == "the task is not waiting for the mutex"@
            &&& after@ == self@
        }
        &&& mutex_is_awaited(self@, task, event.0@) ==> {
            &&& r == Ok::<NotificationOutcome, BadSyncError>(NotificationOutcome::Acknowledged)
            &&& after@.waiting == mutex_locked(self@, task, event.0@).waiting
            &&& after@.held_by == mutex_locked(self@, task, event.0@).held_by
        }
    }

    fn on_event(&mut self, task_id: TaskId, event: LockedMutex) -> (r: Result<
        NotificationOutcome,
        BadSyncError,
    >)
    {
        let LockedMutex(lock_id) = event;
        let r = self.stop_waiting(task_id, &lock_id);
        if r.is_err() {
            return r;
        }
        let ghost h = self@.held_by;
        self.held_by.insert(lock_id, task_id);
        proof {
            assert(self@.held_by =~= h.insert(event.0@, task_id@));
        }
        r
    }
}

impl ProcessSyncEvent<ReleasedMutex> for MutexModel {
    open spec fn handles(
        &self,
        task: u64,
        event: ReleasedMutex,
        after: Self,
        r: Result<NotificationOutcome, BadSyncError>,
    ) -> bool {
        &&& after@.waiting == mutex_released(self@, event.0@).waiting
        &&& after@.held_by == mutex_released(self@, event.0@).held_by
        &&& self@.held_by.contains_key(event.0@) && self@.held_by[event.0@] == task
            ==> r == Ok::<NotificationOutcome, BadSyncError>(NotificationOutcome::Acknowledged)
        &&& !(self@.held_by.contains_key(event.0@) && self@.held_by[event.0@] == task)
            ==> (r matches Err(e) && e.0@ == "the task was not holding the lock"@)
    }

    fn on_event(&mut self, task_id: TaskId, event: ReleasedMutex) -> (r: Result<
        NotificationOutcome,
        BadSyncError,
    >)
    {
        let ReleasedMutex(lock_id) = event;
        let ghost h = self@.held_by;
        let prev = self.held_by.remove(&lock_id);
        proof {
            assert(self@.held_by =~= h.remove(event.0@));
        }
        match prev {
            Some(holder) => {
                if holder.same_key(&task_id) {
                    Ok(NotificationOutcome::Acknowledged)
                } else {
                    Err(BadSyncError::new("the task was not holding the lock"))
                }
            },
            None => Err(BadSyncError::new("the task was not holding the lock")),
        }
    }
}


/// A task that waits for a mutex that is held is blocked; a task none of
/// whose awaited mutexes is held (or that waits for none) needs nothing.
pub proof fn lemma_mutex_waiter_blocked_while_held(m: MutexModel, task: u64, mutex: Seq<char>)
    ensures
        m@.waiting.contains_key(task) && m@.waiting[task].contains(mutex) && m@.held_by.contains_key(mutex)
            ==> m.progress(task) is None,
        (forall|x: Seq<char>|
            m@.waiting.contains_key(task) && #[trigger] m@.waiting[task].contains(x) ==> !m@.held_by.contains_key(x))
            ==> m.progress(task) == Some(Set::<u64>::empty()),
{
}

/// A task that starts locking a mutex it neither holds nor already waits
/// for then waits for it, and nobody's holding changes; otherwise the event
/// is refused and nothing changes.
pub proof fn lemma_mutex_locking(
    m: MutexModel,
    task: u64,
    event: LockingMutex,
    after: MutexModel,
    r: Result<NotificationOutcome, BadSyncError>,
)
    requires
        m.handles(task, event, after, r),
    ensures
        after@.held_by == m@.held_by,
        r is Ok <==> !(m@.held_by.contains_key(event.0@) && m@.held_by[event.0@] == task) && !(m@.waiting.contains_key(task)
            && m@.waiting[task].contains(event.0@)),
        r is Ok ==> after@.waiting.contains_key(task) && after@.waiting[task].contains(event.0@),
        r is Err ==> after@.waiting == m@.waiting,
{
}

/// A task that was waiting for a mutex and takes it holds it and no longer
/// waits for it; no other mutex changes hands. A task that was not waiting
/// for it is refused, and nothing changes.
pub proof fn lemma_mutex_locked(
    m: MutexModel,
    task: u64,
    event: LockedMutex,
    after: MutexModel,
    r: Result<NotificationOutcome, BadSyncError>,
)
    requires
        m.handles(task, event, after, r),
    ensures
        r is Ok <==> m@.waiting.contains_key(task) && m@.waiting[task].contains(event.0@),
        r is Ok ==> after@.held_by.contains_key(event.0@) && after@.held_by[event.0@] == task,
        r is Ok ==> !(after@.waiting.contains_key(task) && after@.waiting[task].contains(event.0@)),
        r is Ok ==> forall|l: Seq<char>|
            l != event.0@ ==> (#[trigger] after@.held_by.contains_key(l) == m@.held_by.contains_key(l)
                && after@.held_by[l] == m@.held_by[l]),
        r is Err ==> after@.held_by == m@.held_by && after@.waiting == m@.waiting,
{
}

/// Released, a mutex is held by nobody; the release is accepted exactly
/// when the task held it. No other mutex changes hands, and the waits stay.
pub proof fn lemma_mutex_released(
    m: MutexModel,
    task: u64,
    event: ReleasedMutex,
    after: MutexModel,
    r: Result<NotificationOutcome, BadSyncError>,
)
    requires
        m.handles(task, event, after, r),
    ensures
        !after@.held_by.contains_key(event.0@),
        r is Ok <==> m@.held_by.contains_key(event.0@) && m@.held_by[event.0@] == task,
        forall|l: Seq<char>|
            l != event.0@ ==> (#[trigger] after@.held_by.contains_key(l) == m@.held_by.contains_key(l)
                && after@.held_by[l] == m@.held_by[l]),
        after@.waiting == m@.waiting,
{
}

} // verus!
