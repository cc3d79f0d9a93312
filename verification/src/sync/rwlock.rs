//! Read-write locks: a task that waits for a lock needs the tasks that hold
//! it in a conflicting mode to run, so that they release it.

use crate::keyed::{
    Key, VecMap, VecSet, add_to_entry, entry_contains, entry_with, entry_without,
    remove_from_entry, value_views,
};
use crate::sync_model::{
    BadSyncError, DynSyncModel, NotificationOutcome, ProcessSyncEvent, SyncEvent, SyncModel,
    TaskProgressDependencies,
};
use crate::task::{TaskId, TaskSet};
use vstd::prelude::*;

verus! {

/// The identity of a read-write lock, by name.
#[derive(Debug, Clone, PartialEq, Eq, Hash)]
pub struct RwlockId(pub(crate) String);

impl View for RwlockId {
    type V = Seq<char>;

    closed spec fn view(&self) -> Seq<char> {
        self.0@
    }
}

impl RwlockId {
    pub fn new(id: String) -> (r: Self)
        ensures
            r@ == id@,
    {
        RwlockId(id)
    }
}

impl Key for RwlockId {
    fn same_key(&self, other: &Self) -> (r: bool) {
        self.0 == other.0
    }

    fn copy_key(&self) -> (r: Self) {
        RwlockId(self.0.clone())
    }
}

/// The mode in which a lock is taken.
#[derive(Debug, Clone, Copy, PartialEq, Eq, Structural, Hash)]
pub enum RwlockMode {
    Read,
    Write,
}

impl View for RwlockMode {
    type V = RwlockMode;

    open spec fn view(&self) -> RwlockMode {
        *self
    }
}

impl Key for RwlockMode {
    fn same_key(&self, other: &Self) -> (r: bool) {
        *self == *other
    }

    fn copy_key(&self) -> (r: Self) {
        *self
    }
}

/// Who holds a lock.
#[derive(Debug)]
pub enum HeldRwlock {
    Read(TaskSet),
    Write(TaskId),
}

/// Who holds a lock, mathematically.
pub enum HeldRwlockView {
    Read(Set<u64>),
    Write(u64),
}

impl View for HeldRwlock {
    type V = HeldRwlockView;

    open spec fn view(&self) -> HeldRwlockView {
        match self {
            HeldRwlock::Read(tasks) => HeldRwlockView::Read(tasks@),
            HeldRwlock::Write(task) => HeldRwlockView::Write(task@),
        }
    }
}

/// The state of all read-write locks: who holds each held lock, and which
/// locks (with their modes) each task waits for.
pub struct RwlockModel {
    pub(crate) held_by: VecMap<RwlockId, HeldRwlock>,
    pub(crate) waiting: VecMap<TaskId, VecSet<(RwlockId, RwlockMode)>>,
}

/// The mathematical state of the read-write locks.
pub struct RwlockModelView {
    pub held_by: Map<Seq<char>, HeldRwlockView>,
    pub waiting: Map<u64, Set<(Seq<char>, RwlockMode)>>,
}

impl View for RwlockModel {
    type V = RwlockModelView;

    closed spec fn view(&self) -> RwlockModelView {
        RwlockModelView {
            held_by: value_views(self.held_by@),
            waiting: value_views(self.waiting@),
        }
    }
}

/// The tasks that hold the lock in a mode that conflicts with `mode`.
pub open spec fn rwlock_blockers(
    held_by: Map<Seq<char>, HeldRwlockView>,
    lock: Seq<char>,
    mode: RwlockMode,
) -> Set<u64> {
    if !held_by.contains_key(lock) {
        Set::empty()
    } else {
        match (mode, held_by[lock]) {
            (RwlockMode::Read, HeldRwlockView::Read(_)) => Set::empty(),
            (_, HeldRwlockView::Write(holder)) => Set::empty().insert(holder),
            (RwlockMode::Write, HeldRwlockView::Read(holders)) => holders,
        }
    }
}

/// The tasks that hold, in a conflicting mode, some lock that the task waits
/// for.
pub open spec fn rwlock_waits_on(v: RwlockModelView, task: u64) -> Set<u64> {
    Set::new(
        |u: u64|
            exists|w: (Seq<char>, RwlockMode)|
                #![trigger v.waiting[task].contains(w)]
                v.waiting[task].contains(w) && rwlock_blockers(v.held_by, w.0, w.1).contains(u),
    )
}

impl RwlockModel {
    pub fn new() -> (r: Self)
        ensures
            r@.held_by == Map::<Seq<char>, HeldRwlockView>::empty(),
            r@.waiting == Map::<u64, Set<(Seq<char>, RwlockMode)>>::empty(),
    {
        let r = RwlockModel { held_by: VecMap::new(), waiting: VecMap::new() };
        proof {
            assert(r@.held_by =~= Map::<Seq<char>, HeldRwlockView>::empty());
            assert(r@.waiting =~= Map::<u64, Set<(Seq<char>, RwlockMode)>>::empty());
        }
        r
    }

    fn blockers(&self, lock: &RwlockId, mode: RwlockMode) -> (r: TaskSet)
        ensures
            r@ == rwlock_blockers(self@.held_by, lock@, mode),
    {
        match self.held_by.get(lock) {
            None => VecSet::new(),
            Some(held) => match (mode, held) {
                (RwlockMode::Read, HeldRwlock::Read(_)) => VecSet::new(),
                (_, HeldRwlock::Write(holder)) => {
                    let mut r = VecSet::new();
                    r.insert(*holder);
                    r
                },
                (RwlockMode::Write, HeldRwlock::Read(holders)) => holders.duplicate(),
            },
        }
    }

    fn stop_waiting(&mut self, task_id: TaskId, lock: &(RwlockId, RwlockMode)) -> (r: Result<
        NotificationOutcome,
        BadSyncError,
    >)
        ensures
            final(self)@.held_by == old(self)@.held_by,
            !entry_contains(old(self)@.waiting, task_id@, lock@) ==> {
                &&& r matches Err(e) && e.0@ == "the task is not waiting for the mutex"@
                &&& final(self)@.waiting == old(self)@.waiting
            },
            entry_contains(old(self)@.waiting, task_id@, lock@) ==> {
                &&& r == Ok::<NotificationOutcome, BadSyncError>(NotificationOutcome::Acknowledged)
                &&& final(self)@.waiting == entry_without(old(self)@.waiting, task_id@, lock@)
            },
    {
        if remove_from_entry(&mut self.waiting, &task_id, lock) {
            Ok(NotificationOutcome::Acknowledged)
        } else {
            Err(BadSyncError::new("the task is not waiting for the mutex"))
        }
    }
}

impl Default for RwlockModel {
    fn default() -> (r: Self)
        ensures
            r@.held_by == Map::<Seq<char>, HeldRwlockView>::empty(),
            r@.waiting == Map::<u64, Set<(Seq<char>, RwlockMode)>>::empty(),
    {
        RwlockModel::new()
    }
}

impl SyncModel for RwlockModel {
}

impl DynSyncModel for RwlockModel {
    /// A waiting task is never blocked: it needs the tasks that hold the
    /// locks it waits for in a conflicting mode.
    open spec fn progress(&self, task: u64) -> Option<Set<u64>> {
        if !self@.waiting.contains_key(task) {
            Some(Set::empty())
        } else {
            Some(rwlock_waits_on(self@, task))
        }
    }

    fn task_progress_dependencies(&self, task_id: TaskId) -> (r: TaskProgressDependencies) {
        match self.waiting.get(&task_id) {
            None => TaskProgressDependencies::ready(),
            Some(waiting) => {
                proof {
                    waiting.lemma_view();
                }
                let ghost v = self@;
                let ghost t = task_id@;
                let mut acc: TaskSet = VecSet::new();
                let n = waiting.len();
                let mut i: usize = 0;
                while i < n
                    invariant
                        n == waiting.seq().len(),
                        i <= n,
                        v == self@,
                        v.waiting.contains_key(t),
                        v.waiting[t] == waiting@,
                        waiting@ == waiting.seq().to_set(),
                        acc@ == Set::new(
                            |u: u64|
                                exists|j: int|
                                    0 <= j < i && #[trigger] rwlock_blockers(
                                        v.held_by,
                                        waiting.seq()[j].0,
                                        waiting.seq()[j].1,
                                    ).contains(u),
                        ),
                    decreases n - i,
                {
                    let w = waiting.get(i);
                    let b = self.blockers(&w.0, w.1);
                    let ghost prev = acc@;
                    acc.union_with(&b);
                    proof {
                        assert(acc@ =~= Set::new(
                            |u: u64|
                                exists|j: int|
                                    0 <= j < i + 1 && #[trigger] rwlock_blockers(
                                        v.held_by,
                                        waiting.seq()[j].0,
                                        waiting.seq()[j].1,
                                    ).contains(u),
                        )) by {
                            assert forall|u: u64| acc@.contains(u) implies exists|j: int|
                                0 <= j < i + 1 && #[trigger] rwlock_blockers(
                                    v.held_by,
                                    waiting.seq()[j].0,
                                    waiting.seq()[j].1,
                                ).contains(u) by {
                                if !prev.contains(u) {
                                    assert(rwlock_blockers(
                                        v.held_by,
                                        waiting.seq()[i as int].0,
                                        waiting.seq()[i as int].1,
                                    ).contains(u));
                                }
                            }
                        }
                    }
                    i = i + 1;
                }
                proof {
                    assert(acc@ =~= rwlock_waits_on(v, t)) by {
                        assert forall|u: u64| acc@.contains(u) implies rwlock_waits_on(v, t).contains(u) by {
                            let j = choose|j: int|
                                0 <= j < n && #[trigger] rwlock_blockers(
                                    v.held_by,
                                    waiting.seq()[j].0,
                                    waiting.seq()[j].1,
                                ).contains(u);
                            assert(waiting@.contains(waiting.seq()[j]));
                        }
                        assert forall|u: u64| rwlock_waits_on(v, t).contains(u) implies acc@.contains(u) by {
                            let w = choose|w: (Seq<char>, RwlockMode)|
                                #![trigger v.waiting[t].contains(w)]
                                v.waiting[t].contains(w) && rwlock_blockers(v.held_by, w.0, w.1).contains(u);
                            let j = choose|j: int| 0 <= j < waiting.seq().len() && waiting.seq()[j] == w;
                            assert(rwlock_blockers(
                                v.held_by,
                                waiting.seq()[j].0,
                                waiting.seq()[j].1,
                            ).contains(u));
                        }
                    }
                }
                TaskProgressDependencies::Ready { need_to_run: acc }
            },
        }
    }
}

/// The task starts taking the lock in the mode.
pub struct LockingRwlock(pub RwlockId, pub RwlockMode);

impl SyncEvent for LockingRwlock {
    type Model = RwlockModel;
}

/// The task gave up taking the lock in the mode.
pub struct AbortedLockingRwlock(pub RwlockId, pub RwlockMode);

impl SyncEvent for AbortedLockingRwlock {
    type Model = RwlockModel;
}

/// The task now holds the lock in the mode.
pub struct LockedRwlock(pub RwlockId, pub RwlockMode);

impl SyncEvent for LockedRwlock {
    type Model = RwlockModel;
}

/// The task released the lock that it held in the mode.
pub struct ReleasedRwlock(pub RwlockId, pub RwlockMode);

impl SyncEvent for ReleasedRwlock {
    type Model = RwlockModel;
}

impl ProcessSyncEvent<LockingRwlock> for RwlockModel {
    open spec fn handles(
        &self,
        task: u64,
        event: LockingRwlock,
        after: Self,
        r: Result<NotificationOutcome, BadSyncError>,
    ) -> bool {
        &&& r == Ok::<NotificationOutcome, BadSyncError>(NotificationOutcome::Acknowledged)
        &&& after@.held_by == self@.held_by
        &&& after@.waiting == entry_with(self@.waiting, task, (event.0@, event.1))
    }

    fn on_event(&mut self, task_id: TaskId, event: LockingRwlock) -> (r: Result<
        NotificationOutcome,
        BadSyncError,
    >)
    {
        let LockingRwlock(lock_id, lock_mode) = event;
        add_to_entry(&mut self.waiting, task_id, (lock_id, lock_mode));
        Ok(NotificationOutcome::Acknowledged)
    }
}

impl ProcessSyncEvent<AbortedLockingRwlock> for RwlockModel {
    open spec fn handles(
        &self,
        task: u64,
        event: AbortedLockingRwlock,
        after: Self,
        r: Result<NotificationOutcome, BadSyncError>,
    ) -> bool {
        &&& after@.held_by == self@.held_by
        &&& !entry_contains(self@.waiting, task, (event.0@, event.1)) ==> {
            &&& r matches Err(e) && e.0@ == "the task is not waiting for the mutex"@
            &&& after@.waiting == self@.waiting
        }
        &&& entry_contains(self@.waiting, task, (event.0@, event.1)) ==> {
            &&& r == Ok::<NotificationOutcome, BadSyncError>(NotificationOutcome::Acknowledged)
            &&& after@.waiting == entry_without(
                self@.waiting,
                task,
                (event.0@, event.1),
            )
        }
    }

    fn on_event(&mut self, task_id: TaskId, event: AbortedLockingRwlock) -> (r: Result<
        NotificationOutcome,
        BadSyncError,
    >)
    {
        let AbortedLockingRwlock(lock_id, lock_mode) = event;
        self.stop_waiting(task_id, &(lock_id, lock_mode))
    }
}

/// The holders of a lock once the task takes it in the mode, or `None` when
/// a read is refused because a writer holds it.
pub open spec fn rwlock_after_locked(
    held_by: Map<Seq<char>, HeldRwlockView>,
    lock: Seq<char>,
    mode: RwlockMode,
    task: u64,
) -> Option<Map<Seq<char>, HeldRwlockView>> {
    match mode {
        RwlockMode::Write => Some(held_by.insert(lock, HeldRwlockView::Write(task))),
        RwlockMode::Read => if !held_by.contains_key(lock) {
            Some(held_by.insert(lock, HeldRwlockView::Read(Set::empty().insert(task))))
        } else {
            match held_by[lock] {
                HeldRwlockView::Read(holders) => Some(
                    held_by.insert(lock, HeldRwlockView::Read(holders.insert(task))),
                ),
                HeldRwlockView::Write(_) => None,
            }
        },
    }
}

impl ProcessSyncEvent<LockedRwlock> for RwlockModel {
    open spec fn handles(
        &self,
        task: u64,
        event: LockedRwlock,
        after: Self,
        r: Result<NotificationOutcome, BadSyncError>,
    ) -> bool {
        &&& !entry_contains(self@.waiting, task, (event.0@, event.1)) ==> {
            &&& r matches Err(e) && e.0@ == "the task is not waiting for the mutex"@
            &&& after@ == self@
        }
        &&& entry_contains(self@.waiting, task, (event.0@, event.1)) ==> {
            &&& after@.waiting == entry_without(
                self@.waiting,
                task,
                (event.0@, event.1),
            )
            &&& match rwlock_after_locked(self@.held_by, event.0@, event.1, task) {
                Some(h) => {
                    &&& r == Ok::<NotificationOutcome, BadSyncError>(NotificationOutcome::Acknowledged)
                    &&& after@.held_by == h
                },
                None => {
                    &&& r matches Err(e) && e.0@ == "the lock is already held"@
                    &&& after@.held_by == self@.held_by
                },
            }
        }
    }

    fn on_event(&mut self, task_id: TaskId, event: LockedRwlock) -> (r: Result<
        NotificationOutcome,
        BadSyncError,
    >)
    {
        let LockedRwlock(lock_id, lock_mode) = event;
        let key = (lock_id, lock_mode);
        let r = self.stop_waiting(task_id, &key);
        if r.is_err() {
            return r;
        }
        let (lock_id, lock_mode) = key;
        let ghost h = self@.held_by;
        let ghost l = lock_id@;
        match lock_mode {
            RwlockMode::Read => {
                match self.held_by.remove(&lock_id) {
                    None => {
                        let mut holders = VecSet::new();
                        holders.insert(task_id);
                        self.held_by.insert(lock_id, HeldRwlock::Read(holders));
                    },
                    Some(HeldRwlock::Read(mut holders)) => {
                        holders.insert(task_id);
                        self.held_by.insert(lock_id, HeldRwlock::Read(holders));
                    },
                    Some(HeldRwlock::Write(holder)) => {
                        self.held_by.insert(lock_id, HeldRwlock::Write(holder));
                        proof {
                            assert(self@.held_by =~= h);
                        }
                        return Err(BadSyncError::new("the lock is already held"));
                    },
                }
            },
            RwlockMode::Write => {
                self.held_by.insert(lock_id, HeldRwlock::Write(task_id));
            },
        }
        proof {
            assert(self@.held_by =~= rwlock_after_locked(h, l, event.1, task_id@)->Some_0);
        }
        r
    }
}

/// The holders of a lock once the task releases it in the mode, or the
/// message of the error when the release is refused.
pub open spec fn rwlock_after_released(
    held_by: Map<Seq<char>, HeldRwlockView>,
    lock: Seq<char>,
    mode: RwlockMode,
    task: u64,
) -> Result<Map<Seq<char>, HeldRwlockView>, Seq<char>> {
    match mode {
        RwlockMode::Write => Ok(held_by.remove(lock)),
        RwlockMode::Read => if !held_by.contains_key(lock) {
            Err("the task was not holding the lock"@)
        } else {
            match held_by[lock] {
                HeldRwlockView::Read(holders) => if holders.remove(task).is_empty() {
                    Ok(held_by.remove(lock))
                } else {
                    Ok(held_by.insert(lock, HeldRwlockView::Read(holders.remove(task))))
                },
                HeldRwlockView::Write(_) => Err("the lock is held as write lock"@),
            }
        },
    }
}

impl ProcessSyncEvent<ReleasedRwlock> for RwlockModel {
    open spec fn handles(
        &self,
        task: u64,
        event: ReleasedRwlock,
        after: Self,
        r: Result<NotificationOutcome, BadSyncError>,
    ) -> bool {
        &&& after@.waiting == self@.waiting
        &&& match rwlock_after_released(self@.held_by, event.0@, event.1, task) {
            Ok(h) => {
                &&& r == Ok::<NotificationOutcome, BadSyncError>(NotificationOutcome::Acknowledged)
                &&& after@.held_by == h
            },
            Err(message) => {
                &&& r matches Err(e) && e.0@ == message
                &&& after@.held_by == self@.held_by
            },
        }
    }

    fn on_event(&mut self, task_id: TaskId, event: ReleasedRwlock) -> (r: Result<
        NotificationOutcome,
        BadSyncError,
    >)
    {
        let ReleasedRwlock(lock_id, lock_mode) = event;
        let ghost h = self@.held_by;
        let ghost l = lock_id@;
        match lock_mode {
            RwlockMode::Read => {
                match self.held_by.remove(&lock_id) {
                    None => {
                        proof {
                            assert(self@.held_by =~= h);
                        }
                        return Err(BadSyncError::new("the task was not holding the lock"));
                    },
                    Some(HeldRwlock::Read(mut holders)) => {
                        holders.remove(&task_id);
                        if !holders.is_empty() {
                            self.held_by.insert(lock_id, HeldRwlock::Read(holders));
                        }
                    },
                    Some(HeldRwlock::Write(holder)) => {
                        self.held_by.insert(lock_id, HeldRwlock::Write(holder));
                        proof {
                            assert(self@.held_by =~= h);
                        }
                        return Err(BadSyncError::new("the lock is held as write lock"));
                    },
                }
            },
            RwlockMode::Write => {
                self.held_by.remove(&lock_id);
            },
        }
        proof {
            assert(self@.held_by =~= rwlock_after_released(h, l, event.1, task_id@)->Ok_0);
        }
        Ok(NotificationOutcome::Acknowledged)
    }
}


/// A task that waits for a lock is never blocked by this model. When
/// another task holds the lock for writing, the waiter needs that writer to
/// run, whatever mode it waits in; when it waits to write a lock held for
/// reading, it needs every reader.
pub proof fn lemma_rwlock_waiter_needs_holders(m: RwlockModel, task: u64, lock: Seq<char>, mode: RwlockMode)
    requires
        m@.waiting.contains_key(task),
        m@.waiting[task].contains((lock, mode)),
        m@.held_by.contains_key(lock),
    ensures
        m.progress(task) is Some,
        forall|h: u64| m@.held_by[lock] == HeldRwlockView::Write(h) ==> #[trigger] m.progress(task).unwrap().contains(h),
        forall|hs: Set<u64>, u: u64|
            mode == RwlockMode::Write && m@.held_by[lock] == HeldRwlockView::Read(hs) && #[trigger] hs.contains(u)
                ==> m.progress(task).unwrap().contains(u),
{
    let w = (lock, mode);
    assert(m@.waiting[task].contains(w));
    if let HeldRwlockView::Write(h) = m@.held_by[lock] {
        assert(rwlock_blockers(m@.held_by, w.0, w.1).contains(h));
    }
    if mode == RwlockMode::Write {
        if let HeldRwlockView::Read(hs) = m@.held_by[lock] {
            assert forall|u: u64| #[trigger] hs.contains(u) implies m.progress(task).unwrap().contains(u) by {
                assert(rwlock_blockers(m@.held_by, w.0, w.1).contains(u));
            }
        }
    }
}

/// A task needs only tasks that hold, in a conflicting mode, a lock that it
/// waits for: the writer of a lock, or a reader of a lock it waits to write.
/// A task that waits for nothing needs nothing.
pub proof fn lemma_rwlock_needs_only_conflicting_holders(m: RwlockModel, task: u64, u: u64)
    requires
        m.progress(task) matches Some(s) && s.contains(u),
    ensures
        exists|lock: Seq<char>, mode: RwlockMode|
            #![trigger m@.waiting[task].contains((lock, mode))]
            m@.waiting.contains_key(task) && m@.waiting[task].contains((lock, mode)) && m@.held_by.contains_key(lock)
                && (m@.held_by[lock] == HeldRwlockView::Write(u) || (mode == RwlockMode::Write
                && m@.held_by[lock] is Read && m@.held_by[lock]->Read_0.contains(u))),
{
    let w = choose|w: (Seq<char>, RwlockMode)|
        #![trigger m@.waiting[task].contains(w)]
        m@.waiting[task].contains(w) && rwlock_blockers(m@.held_by, w.0, w.1).contains(u);
    assert(m@.waiting[task].contains((w.0, w.1)));
}

/// A task that starts locking waits for the lock in that mode; nobody's
/// holding changes.
pub proof fn lemma_rwlock_locking(
    m: RwlockModel,
    task: u64,
    event: LockingRwlock,
    after: RwlockModel,
    r: Result<NotificationOutcome, BadSyncError>,
)
    requires
        m.handles(task, event, after, r),
    ensures
        r is Ok,
        after@.waiting.contains_key(task) && after@.waiting[task].contains((event.0@, event.1)),
        after@.held_by == m@.held_by,
{
}

/// Once a task has taken a lock: taken for writing, the task is its only
/// holder; taken for reading, the task is among its readers and the earlier
/// readers stay. The task no longer waits for it, and no other lock changes
/// hands.
pub proof fn lemma_rwlock_locked(
    m: RwlockModel,
    task: u64,
    event: LockedRwlock,
    after: RwlockModel,
    r: Result<NotificationOutcome, BadSyncError>,
)
    requires
        m.handles(task, event, after, r),
        r is Ok,
    ensures
        after@.held_by.contains_key(event.0@),
        event.1 == RwlockMode::Write ==> after@.held_by[event.0@] == HeldRwlockView::Write(task),
        event.1 == RwlockMode::Read ==> after@.held_by[event.0@] is Read && after@.held_by[event.0@]->Read_0.contains(task),
        event.1 == RwlockMode::Read && m@.held_by.contains_key(event.0@) ==> m@.held_by[event.0@] is Read && forall|u: u64|
            #[trigger] m@.held_by[event.0@]->Read_0.contains(u) ==> after@.held_by[event.0@]->Read_0.contains(u),
        !(after@.waiting.contains_key(task) && after@.waiting[task].contains((event.0@, event.1))),
        forall|l: Seq<char>|
            l != event.0@ ==> (#[trigger] after@.held_by.contains_key(l) == m@.held_by.contains_key(l)
                && after@.held_by[l] == m@.held_by[l]),
{
    if !entry_contains(m@.waiting, task, (event.0@, event.1)) {
        assert(false);
    }
}

/// Once a task has released a lock: released from writing, nobody holds
/// it; released from reading, the task is no longer among its readers and
/// the other readers stay. No other lock changes hands, and the waits stay.
pub proof fn lemma_rwlock_released(
    m: RwlockModel,
    task: u64,
    event: ReleasedRwlock,
    after: RwlockModel,
    r: Result<NotificationOutcome, BadSyncError>,
)
    requires
        m.handles(task, event, after, r),
        r is Ok,
    ensures
        event.1 == RwlockMode::Write ==> !after@.held_by.contains_key(event.0@),
        event.1 == RwlockMode::Read ==> !(after@.held_by.contains_key(event.0@) && after@.held_by[event.0@] is Read
            && after@.held_by[event.0@]->Read_0.contains(task)),
        event.1 == RwlockMode::Read ==> m@.held_by.contains_key(event.0@) && m@.held_by[event.0@] is Read && forall|u: u64|
            u != task && #[trigger] m@.held_by[event.0@]->Read_0.contains(u) ==> after@.held_by.contains_key(event.0@)
                && after@.held_by[event.0@]->Read_0.contains(u),
        forall|l: Seq<char>|
            l != event.0@ ==> (#[trigger] after@.held_by.contains_key(l) == m@.held_by.contains_key(l)
                && after@.held_by[l] == m@.held_by[l]),
        after@.waiting == m@.waiting,
{
    if event.1 == RwlockMode::Read {
        let hs = m@.held_by[event.0@]->Read_0;
        assert forall|u: u64| u != task && #[trigger] hs.contains(u) implies after@.held_by.contains_key(event.0@)
            && after@.held_by[event.0@]->Read_0.contains(u) by {
            assert(hs.remove(task).contains(u));
        }
    }
}

} // verus!
