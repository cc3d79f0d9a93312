//! The choices that the scheduler has at a scheduling opportunity.
//!
//! A task that is ready may need other tasks to run at the same time (the
//! holder of a lock it waits for, the other waiters of a barrier, ...), and
//! those in turn may need others: resuming a task means resuming everything
//! it transitively depends on.

use crate::keyed::{VecSet, key_views};
use crate::sync_model::{DynSyncModel, TaskProgressDependencies};
use crate::task::{TaskId, TaskSet};
use vstd::prelude::*;

verus! {

broadcast use {vstd::set_lib::group_set_lib_default, vstd::seq_lib::group_seq_properties};

/// One possible scheduling decision: resume `chosen_task` together with the
/// suspended tasks it depends on.
#[derive(Debug, PartialEq, Eq)]
pub struct TaskScheduleChoice {
    pub chosen_task: TaskId,
    pub to_run: TaskSet,
}

/// What the scheduler must do next.
#[derive(Debug, PartialEq, Eq)]
pub enum NextSchedulerAction {
    /// Some running task can progress: nothing is to be chosen, only the
    /// tasks that the running tasks depend on are to be resumed.
    NoChoice(TaskSet),
    /// No running task can progress: one of the choices is to be made.
    Choices(Vec<TaskScheduleChoice>),
}

/// Task `u` is ready and needs task `v` to run.
pub open spec fn depends_on<M: DynSyncModel>(m: &M, u: u64, v: u64) -> bool {
    match m.progress(u) {
        Some(need) => need.contains(v),
        None => false,
    }
}

/// A chain of dependencies, each task depending on the next.
pub open spec fn is_dependency_path<M: DynSyncModel>(m: &M, p: Seq<u64>) -> bool {
    &&& p.len() >= 1
    &&& forall|i: int| 0 <= i < p.len() - 1 ==> #[trigger] depends_on(m, p[i], p[i + 1])
}

/// `to` is reached from `from` by a chain of dependencies (every task reaches
/// itself).
pub open spec fn reaches<M: DynSyncModel>(m: &M, from: u64, to: u64) -> bool {
    exists|p: Seq<u64>| #[trigger] is_dependency_path(m, p) && p[0] == from && p.last() == to
}

/// What a task transitively depends on: blocked if the task is blocked,
/// otherwise ready with every task it reaches, itself included.
pub open spec fn transitive_deps<M: DynSyncModel>(m: &M, task: u64) -> Option<Set<u64>> {
    match m.progress(task) {
        None => None,
        Some(_) => Some(Set::new(|v: u64| reaches(m, task, v))),
    }
}

proof fn lemma_reaches_self<M: DynSyncModel>(m: &M, t: u64)
    ensures
        reaches(m, t, t),
{
    let p = seq![t];
    assert(is_dependency_path(m, p));
}

proof fn lemma_reaches_step<M: DynSyncModel>(m: &M, t: u64, u: u64, v: u64)
    requires
        reaches(m, t, u),
        depends_on(m, u, v),
    ensures
        reaches(m, t, v),
{
    let p = choose|p: Seq<u64>| #[trigger] is_dependency_path(m, p) && p[0] == t && p.last() == u;
    let q = p.push(v);
    assert forall|i: int| 0 <= i < q.len() - 1 implies #[trigger] depends_on(m, q[i], q[i + 1]) by {
        if i < p.len() - 1 {
            assert(depends_on(m, p[i], p[i + 1]));
        }
    }
    assert(is_dependency_path(m, q));
}

proof fn lemma_path_stays_in<M: DynSyncModel>(m: &M, p: Seq<u64>, s: Set<u64>, i: int)
    requires
        is_dependency_path(m, p),
        0 <= i < p.len(),
        s.contains(p[0]),
        forall|u: u64, v: u64| s.contains(u) && #[trigger] depends_on(m, u, v) ==> s.contains(v),
    ensures
        s.contains(p[i]),
    decreases i,
{
    if i > 0 {
        lemma_path_stays_in(m, p, s, i - 1);
        let j = i - 1;
        assert(depends_on(m, p[j], p[j + 1]));
    }
}

/// A set that holds `t` and everything its members depend on holds
/// everything `t` reaches.
proof fn lemma_closed_holds_reached<M: DynSyncModel>(m: &M, t: u64, s: Set<u64>)
    requires
        s.contains(t),
        forall|u: u64, v: u64| s.contains(u) && #[trigger] depends_on(m, u, v) ==> s.contains(v),
    ensures
        forall|v: u64| reaches(m, t, v) ==> s.contains(v),
{
    assert forall|v: u64| reaches(m, t, v) implies s.contains(v) by {
        let p = choose|p: Seq<u64>| #[trigger] is_dependency_path(m, p) && p[0] == t && p.last() == v;
        lemma_path_stays_in(m, p, s, p.len() - 1);
    }
}

/// What the task transitively depends on.
pub fn task_transitive_deps<M: DynSyncModel>(sync: &M, task_id: TaskId) -> (r: TaskProgressDependencies)
    ensures
        r@ == transitive_deps(sync, task_id@),
{
    match sync.task_progress_dependencies(task_id) {
        TaskProgressDependencies::Blocked => TaskProgressDependencies::Blocked,
        TaskProgressDependencies::Ready { .. } => {
            let ghost t = task_id@;
            let mut visited: TaskSet = VecSet::new();
            let mut stack: Vec<TaskId> = Vec::new();
            let ghost mut done: Set<u64> = Set::empty();
            stack.push(task_id);
            visited.insert(task_id);
            proof {
                lemma_reaches_self(sync, t);
                assert(key_views(stack@) =~= seq![t]);
                assert(key_views(stack@).to_set() =~= Set::empty().insert(t));
                assert(visited@ =~= done.union(key_views(stack@).to_set()));
            }
            while stack.len() > 0
                invariant
                    visited@.contains(t),
                    forall|v: u64| #[trigger] visited@.contains(v) ==> reaches(sync, t, v),
                    visited@ == done.union(key_views(stack@).to_set()),
                    forall|u: u64, v: u64| done.contains(u) && #[trigger] depends_on(sync, u, v) ==> visited@.contains(v),
                    visited@.subset_of(Set::<u64>::full()),
                decreases Set::<u64>::full().len() - visited@.len(), stack@.len(),
            {
                proof {
                    vstd::set_lib::lemma_len_subset(visited@, Set::<u64>::full());
                }
                let ghost len_before = visited@.len();
                let ghost stack_before = stack@;
                let cur = stack.pop().unwrap();
                let ghost popped = stack@;
                proof {
                    assert(stack_before =~= popped.push(cur));
                    assert(key_views(stack_before) =~= key_views(popped).push(cur@));
                    assert(key_views(stack_before).to_set() =~= key_views(popped).to_set().insert(cur@));
                    assert(visited@.contains(cur@));
                    assert(visited@ =~= done.union(key_views(stack@).to_set()).insert(cur@));
                }
                match sync.task_progress_dependencies(cur) {
                    TaskProgressDependencies::Ready { need_to_run } => {
                        proof {
                            need_to_run.lemma_view();
                        }
                        let n = need_to_run.len();
                        let mut j: usize = 0;
                        while j < n
                            invariant
                                n == need_to_run.seq().len(),
                                j <= n,
                                need_to_run@ == need_to_run.seq().to_set(),
                                sync.progress(cur@) == Some(need_to_run@),
                                visited@.contains(t),
                                visited@.contains(cur@),
                                reaches(sync, t, cur@),
                                forall|v: u64| #[trigger] visited@.contains(v) ==> reaches(sync, t, v),
                                visited@ == done.union(key_views(stack@).to_set()).insert(cur@),
                                forall|u: u64, v: u64| done.contains(u) && #[trigger] depends_on(sync, u, v) ==> visited@.contains(v),
                                forall|k: int| 0 <= k < j ==> visited@.contains(#[trigger] need_to_run.seq()[k]),
                                visited@.finite(),
                                visited@.len() - len_before == stack@.len() - popped.len(),
                                stack@.len() >= popped.len(),
                            decreases n - j,
                        {
                            let next = *need_to_run.get(j);
                            let ghost sbefore = stack@;
                            let ghost vbefore = visited@;
                            if visited.insert(next) {
                                stack.push(next);
                                proof {
                                    assert(depends_on(sync, cur@, next@));
                                    lemma_reaches_step(sync, t, cur@, next@);
                                    assert(key_views(stack@) =~= key_views(sbefore).push(next@));
                                    assert(key_views(stack@).to_set() =~= key_views(sbefore).to_set().insert(next@));
                                    assert(visited@ =~= done.union(key_views(stack@).to_set()).insert(cur@));
                                }
                            }
                            j = j + 1;
                        }
                        proof {
                            assert forall|v: u64| #[trigger] depends_on(sync, cur@, v) implies visited@.contains(v) by {
                                let k = choose|k: int| 0 <= k < n && need_to_run.seq()[k] == v;
                            }
                        }
                    },
                    TaskProgressDependencies::Blocked => {},
                }
                proof {
                    done = done.insert(cur@);
                    assert(visited@ =~= done.union(key_views(stack@).to_set()));
                    assert(visited@.subset_of(Set::<u64>::full()));
                    vstd::set_lib::lemma_len_subset(visited@, Set::<u64>::full());
                    assert(visited@.len() - len_before == stack@.len() - popped.len());
                    assert(stack_before.len() == popped.len() + 1);
                }
            }
            proof {
                assert(key_views(stack@).to_set() =~= Set::<u64>::empty());
                lemma_closed_holds_reached(sync, t, visited@);
                assert(visited@ =~= Set::new(|v: u64| reaches(sync, t, v)));
            }
            TaskProgressDependencies::Ready { need_to_run: visited }
        },
    }
}


/// The task is not blocked.
pub open spec fn is_ready_root<M: DynSyncModel>(m: &M, task: u64) -> bool {
    m.progress(task) is Some
}

/// Everything the task reaches, itself included.
pub open spec fn reached_from<M: DynSyncModel>(m: &M, task: u64) -> Set<u64> {
    Set::new(|v: u64| reaches(m, task, v))
}

/// Some running task can progress.
pub open spec fn some_running_ready<M: DynSyncModel>(m: &M, running: Set<u64>) -> bool {
    exists|t: u64| #[trigger] running.contains(t) && is_ready_root(m, t)
}

/// The tasks, not running yet, that running tasks which can progress reach.
pub open spec fn needed_by_running<M: DynSyncModel>(m: &M, running: Set<u64>) -> Set<u64> {
    Set::new(
        |v: u64|
            !running.contains(v) && exists|t: u64|
                #![trigger running.contains(t), reaches(m, t, v)]
                running.contains(t) && is_ready_root(m, t) && reaches(m, t, v),
    )
}

/// The tasks that resuming `task` resumes: what it reaches, less the tasks
/// that already run.
pub open spec fn choice_set<M: DynSyncModel>(m: &M, task: u64, running: Set<u64>) -> Set<u64> {
    reached_from(m, task).difference(running)
}

/// The choices are exactly the distinct ways of resuming a ready task that
/// can progress.
pub open spec fn are_the_choices<M: DynSyncModel>(
    m: &M,
    running: Set<u64>,
    ready: Set<u64>,
    choices: Seq<TaskScheduleChoice>,
) -> bool {
    &&& forall|i: int|
        #![trigger choices[i]]
        0 <= i < choices.len() ==> {
            &&& ready.contains(choices[i].chosen_task@)
            &&& is_ready_root(m, choices[i].chosen_task@)
            &&& choices[i].to_run@ == choice_set(m, choices[i].chosen_task@, running)
        }
    &&& forall|i: int, j: int|
        #![trigger choices[i], choices[j]]
        0 <= i < j < choices.len() ==> choices[i].to_run@ != choices[j].to_run@
    &&& forall|t: u64|
        #[trigger] ready.contains(t) && is_ready_root(m, t) ==> exists|i: int|
            #![trigger choices[i]]
            0 <= i < choices.len() && choices[i].to_run@ == choice_set(m, t, running)
}

/// The choices of the scheduler. When some running task can progress there is
/// nothing to choose: the tasks that running tasks depend on are resumed.
/// Otherwise each ready task that can progress gives a choice: resume it with
/// everything it depends on; choices that resume the same tasks count once.
pub fn get_eligible_scheduler_choices<M: DynSyncModel>(
    running_tasks: &TaskSet,
    ready_tasks: &TaskSet,
    sync: &M,
) -> (r: NextSchedulerAction)
    ensures
        some_running_ready(sync, running_tasks@) ==> (r matches NextSchedulerAction::NoChoice(s)
            && s@ == needed_by_running(sync, running_tasks@)),
        !some_running_ready(sync, running_tasks@) ==> (r matches NextSchedulerAction::Choices(cs)
            && are_the_choices(sync, running_tasks@, ready_tasks@, cs@)),
{
    let ghost running = running_tasks@;
    let ghost ready = ready_tasks@;
    proof {
        running_tasks.lemma_view();
        ready_tasks.lemma_view();
    }
    let mut has_ready = false;
    let mut need_to_run: TaskSet = VecSet::new();
    let n = running_tasks.len();
    let mut i: usize = 0;
    while i < n
        invariant
            n == running_tasks.seq().len(),
            i <= n,
            running == running_tasks@,
            running == running_tasks.seq().to_set(),
            has_ready == exists|k: int| 0 <= k < i && #[trigger] is_ready_root(sync, running_tasks.seq()[k]),
            need_to_run@ == Set::new(
                |v: u64|
                    !running.contains(v) && exists|k: int|
                        0 <= k < i && #[trigger] is_ready_root(sync, running_tasks.seq()[k]) && reaches(
                            sync,
                            running_tasks.seq()[k],
                            v,
                        ),
            ),
        decreases n - i,
    {
        let task_id = *running_tasks.get(i);
        let ghost prev = need_to_run@;
        match task_transitive_deps(sync, task_id) {
            TaskProgressDependencies::Ready { need_to_run: deps } => {
                proof {
                    assert(is_ready_root(sync, running_tasks.seq()[i as int]));
                }
                has_ready = true;
                let extra = deps.difference(running_tasks);
                need_to_run.union_with(&extra);
            },
            TaskProgressDependencies::Blocked => {
                proof {
                    assert(!is_ready_root(sync, running_tasks.seq()[i as int]));
                }
            },
        }
        proof {
            assert(need_to_run@ =~= Set::new(
                |v: u64|
                    !running.contains(v) && exists|k: int|
                        0 <= k < i + 1 && #[trigger] is_ready_root(sync, running_tasks.seq()[k])
                            && reaches(sync, running_tasks.seq()[k], v),
            )) by {
                assert forall|v: u64|
                    need_to_run@.contains(v) implies !running.contains(v) && exists|k: int|
                        0 <= k < i + 1 && #[trigger] is_ready_root(sync, running_tasks.seq()[k])
                            && reaches(sync, running_tasks.seq()[k], v) by {
                    if !prev.contains(v) {
                        assert(is_ready_root(sync, running_tasks.seq()[i as int]));
                    }
                }
            }
        }
        i = i + 1;
    }
    if has_ready {
        proof {
            let k = choose|k: int| 0 <= k < n && #[trigger] is_ready_root(sync, running_tasks.seq()[k]);
            assert(running.contains(running_tasks.seq()[k]));
            assert(need_to_run@ =~= needed_by_running(sync, running)) by {
                assert forall|v: u64| needed_by_running(sync, running).contains(v) implies need_to_run@.contains(v) by {
                    let t = choose|t: u64|
                        #![trigger running.contains(t), reaches(sync, t, v)]
                        running.contains(t) && is_ready_root(sync, t) && reaches(sync, t, v);
                    let k = choose|k: int| 0 <= k < n && running_tasks.seq()[k] == t;
                    assert(is_ready_root(sync, running_tasks.seq()[k]));
                }
                assert forall|v: u64| need_to_run@.contains(v) implies needed_by_running(sync, running).contains(v) by {
                    let k = choose|k: int|
                        0 <= k < n && #[trigger] is_ready_root(sync, running_tasks.seq()[k]) && reaches(
                            sync,
                            running_tasks.seq()[k],
                            v,
                        );
                    assert(running.contains(running_tasks.seq()[k]));
                }
            }
        }
        return NextSchedulerAction::NoChoice(need_to_run);
    }
    proof {
        assert forall|t: u64| #[trigger] running.contains(t) implies !is_ready_root(sync, t) by {
            let k = choose|k: int| 0 <= k < n && running_tasks.seq()[k] == t;
        }
    }
    let mut choices: Vec<TaskScheduleChoice> = Vec::new();
    let m = ready_tasks.len();
    let mut i: usize = 0;
    while i < m
        invariant
            m == ready_tasks.seq().len(),
            i <= m,
            running == running_tasks@,
            ready == ready_tasks@,
            ready == ready_tasks.seq().to_set(),
            forall|j: int|
                #![trigger choices@[j]]
                0 <= j < choices@.len() ==> {
                    &&& ready.contains(choices@[j].chosen_task@)
                    &&& is_ready_root(sync, choices@[j].chosen_task@)
                    &&& choices@[j].to_run@ == choice_set(sync, choices@[j].chosen_task@, running)
                },
            forall|a: int, b: int|
                #![trigger choices@[a], choices@[b]]
                0 <= a < b < choices@.len() ==> choices@[a].to_run@ != choices@[b].to_run@,
            forall|k: int|
                0 <= k < i && #[trigger] is_ready_root(sync, ready_tasks.seq()[k]) ==> exists|j: int|
                    #![trigger choices@[j]]
                    0 <= j < choices@.len() && choices@[j].to_run@ == choice_set(
                        sync,
                        ready_tasks.seq()[k],
                        running,
                    ),
        decreases m - i,
    {
        let task_id = *ready_tasks.get(i);
        match task_transitive_deps(sync, task_id) {
            TaskProgressDependencies::Ready { need_to_run: deps } => {
                let to_run = deps.difference(running_tasks);
                proof {
                    assert(deps@ == reached_from(sync, task_id@));
                    assert(to_run@ == choice_set(sync, task_id@, running));
                }
                let mut seen = false;
                let mut j: usize = 0;
                while j < choices.len() && !seen
                    invariant
                        j <= choices@.len(),
                        seen ==> j < choices@.len() && choices@[j as int].to_run@ == to_run@,
                        forall|l: int| 0 <= l < j ==> (#[trigger] choices@[l]).to_run@ != to_run@,
                    decreases choices@.len() - j, if seen { 0int } else { 1int },
                {
                    if choices[j].to_run.same_set(&to_run) {
                        seen = true;
                    } else {
                        j = j + 1;
                    }
                }
                if !seen {
                    let ghost before = choices@;
                    let ghost tr = to_run@;
                    choices.push(TaskScheduleChoice { chosen_task: task_id, to_run });
                    proof {
                        assert(choices@ == before.push(choices@[before.len() as int]));
                        assert(choices@[before.len() as int].to_run@ == tr);
                        assert forall|a: int, b: int| 0 <= a < b < choices@.len() implies
                            (#[trigger] choices@[a]).to_run@ != (#[trigger] choices@[b]).to_run@ by {
                            if b == before.len() {
                                assert(choices@[a] == before[a]);
                            } else {
                                assert(choices@[a] == before[a]);
                                assert(choices@[b] == before[b]);
                            }
                        }
                        assert forall|k: int|
                            0 <= k < i + 1 && #[trigger] is_ready_root(sync, ready_tasks.seq()[k]) implies exists|j: int|
                                #![trigger choices@[j]]
                                0 <= j < choices@.len() && choices@[j].to_run@ == choice_set(
                                    sync,
                                    ready_tasks.seq()[k],
                                    running,
                                ) by {
                            if k == i {
                                assert(choices@[before.len() as int].to_run@ == choice_set(sync, task_id@, running));
                            } else {
                                let j = choose|j: int|
                                    #![trigger before[j]]
                                    0 <= j < before.len() && before[j].to_run@ == choice_set(
                                        sync,
                                        ready_tasks.seq()[k],
                                        running,
                                    );
                                assert(choices@[j] == before[j]);
                            }
                        }
                    }
                } else {
                    proof {
                        assert(choices@[j as int].to_run@ == choice_set(sync, task_id@, running));
                    }
                }
            },
            TaskProgressDependencies::Blocked => {},
        }
        i = i + 1;
    }
    proof {
        assert forall|t: u64| #[trigger] ready.contains(t) && is_ready_root(sync, t) implies exists|j: int|
            #![trigger choices@[j]]
            0 <= j < choices@.len() && choices@[j].to_run@ == choice_set(sync, t, running) by {
            let k = choose|k: int| 0 <= k < m && ready_tasks.seq()[k] == t;
            assert(is_ready_root(sync, ready_tasks.seq()[k]));
        }
    }
    NextSchedulerAction::Choices(choices)
}

} // verus!
