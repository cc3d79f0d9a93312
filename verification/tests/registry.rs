use std::collections::HashMap;

use racedet::sync_model::{
    BadSyncError, DynSyncModel, NotificationOutcome, ProcessSyncEvent, RegistrySlot, SyncEvent,
    SyncModel, SyncModelRegistry, TaskProgressDependencies,
};
use racedet::task::{TaskId, TaskSet};

fn set(ids: &[TaskId]) -> TaskSet {
    let mut s = TaskSet::new();
    for id in ids {
        s.insert(*id);
    }
    s
}

#[derive(Debug, Clone, Copy, Hash, Eq, PartialEq)]
struct LockId(u32);

#[derive(Default)]
struct LockModel {
    locks_held_by: HashMap<LockId, TaskId>,
    locks_waiting: HashMap<TaskId, LockId>,
}

struct TakingLock(LockId);
impl SyncEvent for TakingLock {
    type Model = LockModel;
}
struct AbortTakingLock(LockId);
impl SyncEvent for AbortTakingLock {
    type Model = LockModel;
}
struct LockTaken(LockId);
impl SyncEvent for LockTaken {
    type Model = LockModel;
}
struct LockReleased(LockId);
impl SyncEvent for LockReleased {
    type Model = LockModel;
}

impl SyncModel for LockModel {}

impl DynSyncModel for LockModel {
    fn task_progress_dependencies(&self, task_id: TaskId) -> TaskProgressDependencies {
        let Some(lock_id) = self.locks_waiting.get(&task_id).cloned() else {
            return TaskProgressDependencies::Ready {
                need_to_run: TaskSet::new(),
            };
        };
        let Some(holding_task_id) = self.locks_held_by.get(&lock_id).cloned() else {
            return TaskProgressDependencies::Ready {
                need_to_run: TaskSet::new(),
            };
        };

        TaskProgressDependencies::Ready {
            need_to_run: set(&[holding_task_id]),
        }
    }
}

impl RegistrySlot<LockModel> for LockModel {
    fn slot(registry: &mut SyncModelRegistry<LockModel>) -> &mut Self {
        &mut registry.extension
    }
}

impl ProcessSyncEvent<TakingLock> for LockModel {
    fn on_event(
        &mut self,
        task_id: TaskId,
        TakingLock(lock_id): TakingLock,
    ) -> Result<NotificationOutcome, BadSyncError> {
        if self.locks_waiting.contains_key(&task_id) {
            return Err(BadSyncError("task already waiting for a lock".to_string()));
        }
        if self.locks_held_by.get(&lock_id) == Some(&task_id) {
            return Err(BadSyncError(
                "the task is already holding the lock".to_string(),
            ));
        }
        self.locks_waiting.insert(task_id, lock_id);
        Ok(NotificationOutcome::Acknowledged)
    }
}

impl ProcessSyncEvent<AbortTakingLock> for LockModel {
    fn on_event(
        &mut self,
        task_id: TaskId,
        AbortTakingLock(lock_id): AbortTakingLock,
    ) -> Result<NotificationOutcome, BadSyncError> {
        if self.locks_waiting.remove(&task_id) != Some(lock_id) {
            return Err(BadSyncError(
                "the task is not waiting for the lock".to_string(),
            ));
        }
        Ok(NotificationOutcome::Acknowledged)
    }
}

impl ProcessSyncEvent<LockTaken> for LockModel {
    fn on_event(
        &mut self,
        task_id: TaskId,
        LockTaken(lock_id): LockTaken,
    ) -> Result<NotificationOutcome, BadSyncError> {
        if self.locks_held_by.contains_key(&lock_id) {
            return Err(BadSyncError("lock is already taken".to_string()));
        }
        if self.locks_waiting.remove(&task_id) != Some(lock_id) {
            return Err(BadSyncError("task is not waiting for a lock".to_string()));
        }
        self.locks_held_by.insert(lock_id, task_id);
        Ok(NotificationOutcome::Acknowledged)
    }
}

impl ProcessSyncEvent<LockReleased> for LockModel {
    fn on_event(
        &mut self,
        task_id: TaskId,
        LockReleased(lock_id): LockReleased,
    ) -> Result<NotificationOutcome, BadSyncError> {
        if self.locks_held_by.remove(&lock_id) != Some(task_id) {
            return Err(BadSyncError(
                "the lock was not taken by the task".to_string(),
            ));
        }
        Ok(NotificationOutcome::Acknowledged)
    }
}

fn ready(ids: &[TaskId]) -> TaskProgressDependencies {
    TaskProgressDependencies::Ready {
        need_to_run: set(ids),
    }
}

#[test]
fn test_lock_model() {
    let mut registry = SyncModelRegistry::with_extension(LockModel::default());
    let task_1 = TaskId::new(1);
    let task_2 = TaskId::new(2);
    let lock_id = LockId(1);
    assert_eq!(registry.task_progress_dependencies(task_1), ready(&[]));
    assert_eq!(registry.task_progress_dependencies(task_2), ready(&[]));

    assert_eq!(
        registry.on_notified(task_1, TakingLock(lock_id)).unwrap(),
        NotificationOutcome::Acknowledged
    );
    registry
        .on_notified(task_1, TakingLock(LockId(2)))
        .unwrap_err();
    assert_eq!(registry.task_progress_dependencies(task_1), ready(&[]));
    assert_eq!(registry.task_progress_dependencies(task_2), ready(&[]));

    assert_eq!(
        registry.on_notified(task_1, LockTaken(lock_id)).unwrap(),
        NotificationOutcome::Acknowledged
    );
    assert_eq!(registry.task_progress_dependencies(task_1), ready(&[]));
    assert_eq!(registry.task_progress_dependencies(task_2), ready(&[]));

    assert_eq!(
        registry.on_notified(task_2, TakingLock(lock_id)).unwrap(),
        NotificationOutcome::Acknowledged
    );
    assert_eq!(registry.task_progress_dependencies(task_1), ready(&[]));
    assert_eq!(registry.task_progress_dependencies(task_2), ready(&[task_1]));

    let err = registry
        .on_notified(task_2, LockTaken(lock_id))
        .unwrap_err();
    assert!(err.0.contains("already taken"), "returned error: {err:?}");
    assert_eq!(registry.task_progress_dependencies(task_1), ready(&[]));
    assert_eq!(registry.task_progress_dependencies(task_2), ready(&[task_1]));

    assert_eq!(
        registry.on_notified(task_1, LockReleased(lock_id)).unwrap(),
        NotificationOutcome::Acknowledged
    );
    assert_eq!(registry.task_progress_dependencies(task_1), ready(&[]));
    assert_eq!(registry.task_progress_dependencies(task_2), ready(&[]));

    assert_eq!(
        registry.on_notified(task_2, LockTaken(lock_id)).unwrap(),
        NotificationOutcome::Acknowledged
    );
    assert_eq!(registry.task_progress_dependencies(task_1), ready(&[]));
    assert_eq!(registry.task_progress_dependencies(task_2), ready(&[]));

    assert_eq!(
        registry.on_notified(task_2, LockReleased(lock_id)).unwrap(),
        NotificationOutcome::Acknowledged
    );
    assert_eq!(registry.task_progress_dependencies(task_1), ready(&[]));
    assert_eq!(registry.task_progress_dependencies(task_2), ready(&[]));

    assert_eq!(
        registry.on_notified(task_2, TakingLock(lock_id)).unwrap(),
        NotificationOutcome::Acknowledged
    );
    assert_eq!(
        registry
            .on_notified(task_2, AbortTakingLock(lock_id))
            .unwrap(),
        NotificationOutcome::Acknowledged
    );
    assert_eq!(registry.task_progress_dependencies(task_1), ready(&[]));
    assert_eq!(registry.task_progress_dependencies(task_2), ready(&[]));

    assert_eq!(
        registry.on_notified(task_1, TakingLock(lock_id)).unwrap(),
        NotificationOutcome::Acknowledged
    );
    assert_eq!(registry.task_progress_dependencies(task_1), ready(&[]));
    assert_eq!(registry.task_progress_dependencies(task_2), ready(&[]));
}
