use std::collections::{BTreeSet, HashMap};

use racedet::scheduler::get_runnable_tasks::{
    NextSchedulerAction, TaskScheduleChoice, get_eligible_scheduler_choices,
};
use racedet::sync_model::{
    BadSyncError, DynSyncModel, NotificationOutcome, ProcessSyncEvent, RegistrySlot, SyncEvent,
    SyncModel, SyncModelRegistry, TaskProgressDependencies,
};
use racedet::task::{TaskId, TaskSet};

fn set(ids: &[TaskId]) -> TaskSet {
    let mut s = TaskSet::new();
    for id in ids {
        s.insert(*id);
    }
    s
}

fn copy_deps(deps: &TaskProgressDependencies) -> TaskProgressDependencies {
    match deps {
        TaskProgressDependencies::Ready { need_to_run } => TaskProgressDependencies::Ready {
            need_to_run: need_to_run.duplicate(),
        },
        TaskProgressDependencies::Blocked => TaskProgressDependencies::Blocked,
    }
}

#[derive(Debug, Default)]
struct TestSyncModel {
    task_deps: HashMap<TaskId, TaskProgressDependencies>,
}

impl SyncModel for TestSyncModel {}

impl DynSyncModel for TestSyncModel {
    fn task_progress_dependencies(&self, task_id: TaskId) -> TaskProgressDependencies {
        self.task_deps
            .get(&task_id)
            .map(copy_deps)
            .unwrap_or_else(|| TaskProgressDependencies::Ready {
                need_to_run: TaskSet::new(),
            })
    }
}

impl RegistrySlot<TestSyncModel> for TestSyncModel {
    fn slot(registry: &mut SyncModelRegistry<TestSyncModel>) -> &mut Self {
        &mut registry.extension
    }
}

struct ProvideDeps(TaskProgressDependencies);

impl SyncEvent for ProvideDeps {
    type Model = TestSyncModel;
}

impl ProcessSyncEvent<ProvideDeps> for TestSyncModel {
    fn on_event(
        &mut self,
        task_id: TaskId,
        ProvideDeps(deps): ProvideDeps,
    ) -> Result<NotificationOutcome, BadSyncError> {
        self.task_deps.insert(task_id, deps);
        Ok(NotificationOutcome::Acknowledged)
    }
}

fn new_registry() -> SyncModelRegistry<TestSyncModel> {
    SyncModelRegistry::with_extension(TestSyncModel::default())
}

fn task_ids(n: u64) -> Vec<TaskId> {
    (1..=n).map(TaskId::new).collect()
}

fn sorted_choices(choices: Vec<TaskScheduleChoice>) -> Vec<TaskScheduleChoice> {
    let mut choices = choices;
    choices.sort_by_cached_key(|item| {
        (
            item.chosen_task,
            item.to_run.to_vec().into_iter().collect::<BTreeSet<_>>(),
        )
    });
    choices
}

#[test]
fn ready_running() {
    let sync_registry = new_registry();
    let task_ids = task_ids(2);
    let choices = get_eligible_scheduler_choices(
        &set(&[task_ids[0]]),
        &set(&[task_ids[1]]),
        &sync_registry,
    );
    assert_eq!(choices, NextSchedulerAction::NoChoice(TaskSet::new()));
}

#[test]
fn deps_for_ready_running() {
    let mut sync_registry = new_registry();
    let task_ids = task_ids(4);
    sync_registry
        .on_notified(
            task_ids[0],
            ProvideDeps(TaskProgressDependencies::Ready {
                need_to_run: set(&[task_ids[1], task_ids[2]]),
            }),
        )
        .unwrap();
    sync_registry
        .on_notified(task_ids[1], ProvideDeps(TaskProgressDependencies::Blocked))
        .unwrap();
    let choices = get_eligible_scheduler_choices(
        &set(&[task_ids[0]]),
        &set(&[task_ids[1], task_ids[2], task_ids[3]]),
        &sync_registry,
    );
    assert_eq!(
        choices,
        NextSchedulerAction::NoChoice(set(&[task_ids[1], task_ids[2]]))
    );
}

#[test]
fn pick_new_ready_if_no_running() {
    let mut sync_registry = new_registry();
    let task_ids = task_ids(4);
    sync_registry
        .on_notified(
            task_ids[0],
            ProvideDeps(TaskProgressDependencies::Ready {
                need_to_run: set(&[task_ids[1], task_ids[2]]),
            }),
        )
        .unwrap();
    sync_registry
        .on_notified(task_ids[1], ProvideDeps(TaskProgressDependencies::Blocked))
        .unwrap();
    let choices = get_eligible_scheduler_choices(
        &set(&[]),
        &set(&[task_ids[0], task_ids[1], task_ids[2], task_ids[3]]),
        &sync_registry,
    );

    let NextSchedulerAction::Choices(choices) = choices else {
        panic!("unexpected action: {choices:?}");
    };
    let choices = sorted_choices(choices);
    println!("{choices:#?}");
    assert_eq!(choices.len(), 3);
    assert_eq!(
        choices[0],
        TaskScheduleChoice {
            chosen_task: task_ids[0],
            to_run: set(&[task_ids[0], task_ids[1], task_ids[2]]),
        }
    );
    assert_eq!(
        choices[1],
        TaskScheduleChoice {
            chosen_task: task_ids[2],
            to_run: set(&[task_ids[2]]),
        }
    );
    assert_eq!(
        choices[2],
        TaskScheduleChoice {
            chosen_task: task_ids[3],
            to_run: set(&[task_ids[3]]),
        }
    );
}

#[test]
fn complex_cases() {
    let mut sync_registry = new_registry();
    let task_ids = task_ids(7);

    // normal tasks:
    // 0: ready
    sync_registry
        .on_notified(
            task_ids[0],
            ProvideDeps(TaskProgressDependencies::Ready {
                need_to_run: TaskSet::new(),
            }),
        )
        .unwrap();
    // tokio::join
    // 1: ready, wait for 2
    // 2: blocked
    sync_registry
        .on_notified(
            task_ids[1],
            ProvideDeps(TaskProgressDependencies::Ready {
                need_to_run: set(&[task_ids[2]]),
            }),
        )
        .unwrap();
    sync_registry
        .on_notified(task_ids[2], ProvideDeps(TaskProgressDependencies::Blocked))
        .unwrap();
    // wait on mutex
    // 3: blocked
    sync_registry
        .on_notified(task_ids[3], ProvideDeps(TaskProgressDependencies::Blocked))
        .unwrap();
    // wait on barrier
    // 4: ready, wait for 5, 6
    // 5: ready, wait for 4, 6
    // 6: ready, wait for 4, 5
    sync_registry
        .on_notified(
            task_ids[4],
            ProvideDeps(TaskProgressDependencies::Ready {
                need_to_run: set(&[task_ids[5], task_ids[6]]),
            }),
        )
        .unwrap();
    sync_registry
        .on_notified(
            task_ids[5],
            ProvideDeps(TaskProgressDependencies::Ready {
                need_to_run: set(&[task_ids[4], task_ids[6]]),
            }),
        )
        .unwrap();
    sync_registry
        .on_notified(
            task_ids[6],
            ProvideDeps(TaskProgressDependencies::Ready {
                need_to_run: set(&[task_ids[4], task_ids[5]]),
            }),
        )
        .unwrap();

    let choices =
        get_eligible_scheduler_choices(&set(&[]), &set(&task_ids), &sync_registry);
    let NextSchedulerAction::Choices(choices) = choices else {
        panic!("unexpected action: {choices:?}");
    };
    let choices = sorted_choices(choices);

    println!("{choices:#?}");
    assert_eq!(choices.len(), 3);
    assert_eq!(
        choices[0],
        TaskScheduleChoice {
            chosen_task: task_ids[0],
            to_run: set(&[task_ids[0]]),
        }
    );
    assert_eq!(
        choices[1],
        TaskScheduleChoice {
            chosen_task: task_ids[1],
            to_run: set(&[task_ids[1], task_ids[2]]),
        }
    );
    assert!([task_ids[4], task_ids[5], task_ids[6]].contains(&choices[2].chosen_task));
    assert_eq!(
        choices[2].to_run,
        set(&[task_ids[4], task_ids[5], task_ids[6]])
    );
}
