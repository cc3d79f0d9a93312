use racedet::locks::{ErasedLocks, LockOperation};
use racedet::lock_model::mutex::MutexOperation;
use racedet::lock_model::rwlock::RwlockOperation;
use racedet::sync::join::{CompletedJoin, StartingJoin};
use racedet::sync::mutex::{AbortedLockingMutex, LockedMutex, LockingMutex, MutexId, ReleasedMutex};
use racedet::sync::rwlock::{LockedRwlock, LockingRwlock, ReleasedRwlock, RwlockId, RwlockMode};
use racedet::sync_model::{DynSyncModel, NotificationOutcome, SyncModelRegistry, TaskProgressDependencies};
use racedet::task::{TaskId, TaskSet};

fn ready() -> TaskProgressDependencies {
    TaskProgressDependencies::Ready { need_to_run: TaskSet::new() }
}

#[test]
fn a_task_waiting_for_a_held_mutex_is_blocked() {
    let mut r = SyncModelRegistry::new();
    let (t1, t2) = (TaskId::new(1), TaskId::new(2));
    let m = || MutexId::new("m".to_string());
    assert_eq!(r.on_notified(t1, LockingMutex(m())).unwrap(), NotificationOutcome::Acknowledged);
    assert_eq!(r.on_notified(t1, LockedMutex(m())).unwrap(), NotificationOutcome::Acknowledged);
    r.on_notified(t2, LockingMutex(m())).unwrap();
    assert_eq!(r.task_progress_dependencies(t2), TaskProgressDependencies::Blocked);
    assert_eq!(r.task_progress_dependencies(t1), ready());
    r.on_notified(t1, ReleasedMutex(m())).unwrap();
    assert_eq!(r.task_progress_dependencies(t2), ready());
    r.on_notified(t2, AbortedLockingMutex(m())).unwrap();
    assert_eq!(r.task_progress_dependencies(t2), ready());
}

#[test]
fn each_mutex_misuse_has_its_error() {
    let mut r = SyncModelRegistry::new();
    let t1 = TaskId::new(1);
    let m = || MutexId::new("m".to_string());
    let err = r.on_notified(t1, LockedMutex(m())).unwrap_err();
    assert_eq!(err.0, "the task is not waiting for the mutex");
    r.on_notified(t1, LockingMutex(m())).unwrap();
    let err = r.on_notified(t1, LockingMutex(m())).unwrap_err();
    assert_eq!(err.0, "the task is already waiting for the mutex");
    r.on_notified(t1, LockedMutex(m())).unwrap();
    let err = r.on_notified(t1, LockingMutex(m())).unwrap_err();
    assert_eq!(err.0, "the task already holds the mutex");
    assert_eq!(err.describe(), "bad use of SyncModel: the task already holds the mutex");
    let err = r.on_notified(TaskId::new(2), ReleasedMutex(m())).unwrap_err();
    assert_eq!(err.0, "the task was not holding the lock");
}

#[test]
fn readers_share_a_rwlock_and_a_writer_waits() {
    let mut r = SyncModelRegistry::new();
    let (t1, t2, t3) = (TaskId::new(1), TaskId::new(2), TaskId::new(3));
    let l = || RwlockId::new("l".to_string());
    r.on_notified(t1, LockingRwlock(l(), RwlockMode::Read)).unwrap();
    r.on_notified(t1, LockedRwlock(l(), RwlockMode::Read)).unwrap();
    r.on_notified(t2, LockingRwlock(l(), RwlockMode::Read)).unwrap();
    assert_eq!(r.task_progress_dependencies(t2), ready());
    r.on_notified(t3, LockingRwlock(l(), RwlockMode::Write)).unwrap();
    // a writer waiting for the lock needs its holders to run
    let mut holders = TaskSet::new();
    holders.insert(t1);
    assert_eq!(
        r.task_progress_dependencies(t3),
        TaskProgressDependencies::Ready { need_to_run: holders }
    );
    r.on_notified(t1, ReleasedRwlock(l(), RwlockMode::Read)).unwrap();
    assert_eq!(r.task_progress_dependencies(t3), ready());
}

#[test]
fn a_task_in_a_join_is_tracked_until_it_completes() {
    let mut r = SyncModelRegistry::new();
    let t1 = TaskId::new(1);
    r.on_notified(t1, StartingJoin).unwrap();
    let err = r.on_notified(t1, StartingJoin).unwrap_err();
    assert_eq!(err.0, "task is already in join");
    r.on_notified(t1, CompletedJoin).unwrap();
    let err = r.on_notified(t1, CompletedJoin).unwrap_err();
    assert_eq!(err.0, "task is not in a join");
}

#[test]
fn exclusive_locks_are_held_by_one_task() {
    let mut locks = ErasedLocks::new();
    let (t1, t2) = (TaskId::new(1), TaskId::new(2));
    let acquire = LockOperation::Acquire("a".to_string());
    assert!(locks.is_task_runnable(t1, &acquire));
    assert!(locks.task_selected_for_running(t1, &acquire).is_ok());
    assert!(!locks.is_task_runnable(t2, &acquire));
    // the misuse is reported, and the lock is then recorded for the task
    let err = locks.task_selected_for_running(t2, &acquire).unwrap_err();
    assert_eq!(err.0, "lock is held by task 1");
    let release = LockOperation::Release("a".to_string());
    let err = locks.task_selected_for_running(t1, &release).unwrap_err();
    assert_eq!(err.0, "lock was not held by 1 but rather Some(TaskId(2))");
    assert_eq!(err.describe(), "bad use of SyncDomain: lock was not held by 1 but rather Some(TaskId(2))");
    let err = locks.task_selected_for_running(t2, &release).unwrap_err();
    assert_eq!(err.0, "lock was not held by 2 but rather None");
}

#[test]
fn mutex_operations_follow_the_same_rules() {
    let mut locks = ErasedLocks::new();
    let (t1, t2) = (TaskId::new(1), TaskId::new(2));
    let acquire = MutexOperation::Acquire("m".to_string());
    assert!(locks.task_selected_for_running(t1, &acquire).is_ok());
    assert!(!locks.is_task_runnable(t2, &acquire));
    assert!(locks.task_selected_for_running(t1, &MutexOperation::Release("m".to_string())).is_ok());
    assert!(locks.is_task_runnable(t2, &acquire));
}

#[test]
fn rwlock_operations_share_reads() {
    let mut locks = ErasedLocks::new();
    let (t1, t2, t3) = (TaskId::new(1), TaskId::new(2), TaskId::new(3));
    let read = RwlockOperation::AcquireRead("l".to_string());
    let write = RwlockOperation::AcquireWrite("l".to_string());
    assert!(locks.task_selected_for_running(t1, &read).is_ok());
    assert!(locks.is_task_runnable(t2, &read));
    assert!(!locks.is_task_runnable(t3, &write));
    assert!(locks.task_selected_for_running(t2, &read).is_ok());
    let err = locks.task_selected_for_running(t3, &write).unwrap_err();
    assert_eq!(err.0, "rwlock is held by Read([TaskId(1), TaskId(2)])");
    let release = RwlockOperation::Release("l".to_string());
    assert!(locks.task_selected_for_running(t1, &release).is_ok());
    assert!(locks.task_selected_for_running(t2, &release).is_ok());
    assert!(locks.is_task_runnable(t3, &write));
}

#[test]
fn merging_dependencies_unites_ready_sets_and_keeps_blocked() {
    let (t1, t2) = (TaskId::new(1), TaskId::new(2));
    let mut s1 = TaskSet::new();
    s1.insert(t1);
    let mut s2 = TaskSet::new();
    s2.insert(t2);
    let merged = TaskProgressDependencies::Ready { need_to_run: s1.duplicate() }
        .merge(TaskProgressDependencies::Ready { need_to_run: s2.duplicate() });
    let mut both = TaskSet::new();
    both.insert(t2);
    both.insert(t1);
    assert_eq!(merged, TaskProgressDependencies::Ready { need_to_run: both });
    let blocked = TaskProgressDependencies::Ready { need_to_run: s1 }.merge(TaskProgressDependencies::Blocked);
    assert_eq!(blocked, TaskProgressDependencies::Blocked);
    assert_eq!(TaskProgressDependencies::Blocked.merge(TaskProgressDependencies::ready()), TaskProgressDependencies::Blocked);
    assert_eq!(TaskProgressDependencies::ready().merge(TaskProgressDependencies::ready()), ready());
}

/// A domain of counting semaphores with one permit each, kept by the user.
#[derive(Default)]
struct PermitDomain {
    taken: std::collections::HashMap<String, TaskId>,
}

struct TakePermit(String);

impl vstd::view::View for PermitDomain {
    type V = ();

    fn view(&self) {}
}

impl vstd::view::View for TakePermit {
    type V = ();

    fn view(&self) {}
}

impl racedet::locks::SyncDomain for PermitDomain {
    type SyncOperation = TakePermit;

    fn is_task_runnable(&self, _task: TaskId, op: &TakePermit) -> bool {
        !self.taken.contains_key(&op.0)
    }

    fn task_selected_for_running(
        &mut self,
        task: TaskId,
        op: &TakePermit,
    ) -> Result<(), racedet::locks::BadSyncError> {
        match self.taken.insert(op.0.clone(), task) {
            Some(_) => Err(racedet::locks::BadSyncError("permit already taken".to_string())),
            None => Ok(()),
        }
    }
}

impl racedet::locks::SyncOperation for TakePermit {
    type Domain = PermitDomain;
}

impl racedet::locks::DomainSlot<PermitDomain> for PermitDomain {
    fn slot(locks: &ErasedLocks<PermitDomain>) -> &Self {
        &locks.extension
    }

    fn slot_mut(locks: &mut ErasedLocks<PermitDomain>) -> &mut Self {
        &mut locks.extension
    }
}

#[test]
fn a_user_domain_is_kept_beside_the_library_ones() {
    let mut locks = ErasedLocks::with_extension(PermitDomain::default());
    let (t1, t2) = (TaskId::new(1), TaskId::new(2));
    let take = TakePermit("p".to_string());
    let acquire = LockOperation::Acquire("p".to_string());
    assert!(locks.is_task_runnable(t1, &take));
    assert!(locks.task_selected_for_running(t1, &take).is_ok());
    assert!(!locks.is_task_runnable(t2, &take));
    // the in-memory lock of the same name is another domain's, still free
    assert!(locks.is_task_runnable(t2, &acquire));
    assert!(locks.task_selected_for_running(t2, &acquire).is_ok());
    let err = locks.task_selected_for_running(t2, &take).unwrap_err();
    assert_eq!(err.0, "permit already taken");
}
