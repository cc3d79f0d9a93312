use racedet::parsed_replay_trace::ReplayTrace;
use racedet::scheduler::{RandomTaskSelector, SchedulerState, TaskSelector};
use racedet::sync::start_barrier::{BarrierId, NewBarrier, WaitingForBarrier};
use racedet::task::TaskId;

fn new_state(replay: Option<&ReplayTrace>) -> SchedulerState<()> {
    SchedulerState::new(replay, TaskSelector::Random(RandomTaskSelector::new()))
}

#[test]
fn registered_tasks_are_numbered_from_one() {
    let mut s = new_state(None);
    let a = s.register_task("a");
    let b = s.register_task("b");
    assert_eq!(a, TaskId::new(1));
    assert_eq!(b, TaskId::new(2));
    assert_eq!(s.task_count(), 2);
    assert!(s.is_running(a));
    assert!(s.is_running(b));
    assert_eq!(
        s.get_trace().render(),
        "0. start #1 a\n1. start #2 b\n"
    );
}

#[test]
fn nothing_to_do_without_suspended_tasks() {
    let mut s = new_state(None);
    let _a = s.register_task("a");
    assert_eq!(s.control_loop_iteration(), Ok(false));
    assert_eq!(s.get_trace().render(), "0. start #1 a\n");
}

#[test]
fn a_decision_resumes_one_task_and_names_tasks_by_stable_ids() {
    let mut s = new_state(None);
    let b = s.register_task("b");
    let a = s.register_task("a");
    s.on_reached_point(b, "q");
    s.on_reached_point(a, "p");
    assert!(!s.is_running(a));
    assert_eq!(s.control_loop_iteration(), Ok(true));
    // stable identities follow the names: "a" gets 1, "b" gets 2
    let trace = s.get_trace().render();
    let prefix = "0. start 2 b\n1. start 1 a\n2. suspend 2 b q\n3. suspend 1 a p\n4. resumed ";
    assert!(trace.starts_with(prefix), "{trace}");
    let tail = &trace[prefix.len()..];
    if s.is_running(a) {
        assert!(!s.is_running(b));
        assert_eq!(
            tail,
            "[1 a] (run: [], suspended: [1 a at p, 2 b at q], options: [[2 b], [1 a]])\n"
        );
    } else {
        assert!(s.is_running(b));
        assert_eq!(
            tail,
            "[2 b] (run: [], suspended: [1 a at p, 2 b at q], options: [[2 b], [1 a]])\n"
        );
    }
}

#[test]
fn reaching_a_point_twice_is_an_error() {
    let mut s = new_state(None);
    let a = s.register_task("a");
    s.on_reached_point(a, "p");
    assert!(!s.is_running(a));
    let trace_before = s.get_trace().render();
    let err = s.not_running_report(a, "q");
    assert_eq!(s.get_trace().render(), trace_before);
    assert!(
        err.starts_with(
            "task 1 1 reached point 3, but its state is not Running, but rather is Suspended { point: StringIdx(2) }."
        ),
        "{err}"
    );
}

#[test]
fn finished_tasks_leave_the_choices() {
    let mut s = new_state(None);
    let a = s.register_task("a");
    s.on_task_finished(a);
    assert!(!s.is_running(a));
    assert_eq!(s.control_loop_iteration(), Ok(false));
    assert_eq!(s.get_trace().render(), "0. start #1 a\n1. finish #1 a\n");
}

#[test]
fn a_running_task_resumes_what_it_needs_without_a_decision() {
    let mut s = new_state(None);
    let a = s.register_task("a");
    let b = s.register_task("b");
    let barrier = BarrierId::from_address(77);
    s.on_sync_init_event(NewBarrier { barrier, capacity: 2 }).unwrap();
    s.on_reached_point_with_event(b, "wait", WaitingForBarrier(barrier))
        .unwrap();
    // b is alone at the barrier: it is blocked and there is nothing to do
    assert_eq!(s.control_loop_iteration(), Ok(false));
    s.on_sync_event(a, WaitingForBarrier(barrier)).unwrap();
    // the barrier is reached: the running task a needs b
    assert_eq!(s.control_loop_iteration(), Ok(true));
    assert!(s.is_running(b));
    assert_eq!(
        s.get_trace().render(),
        "0. start #1 a\n1. start #2 b\n2. suspend #2 b wait\n3. auto-resumed [#2 b] (run: [#1 a at (spawned)], suspended: [#2 b at wait])\n"
    );
}

#[test]
fn the_replay_of_a_run_is_its_decisions() {
    let mut s = new_state(None);
    let a = s.register_task("a");
    s.on_reached_point(a, "p");
    assert_eq!(s.control_loop_iteration(), Ok(true));
    let replay = s.get_replay().unwrap();
    assert_eq!(replay.render(), "1-1-2/1#a,p");
}

#[test]
fn the_replay_of_a_run_reads_back() {
    let mut s = new_state(None);
    let a = s.register_task("a");
    let b = s.register_task("b");
    s.on_reached_point(a, "p");
    s.on_reached_point(b, "q");
    assert_eq!(s.control_loop_iteration(), Ok(true));
    let replay = s.get_replay().unwrap();
    let text = replay.render();
    let back = ReplayTrace::parse(&text).unwrap();
    assert_eq!(back.render(), text);
    assert_eq!(format!("{:?}", back), format!("{:?}", replay));
}

#[test]
fn a_replay_is_followed() {
    let replay = ReplayTrace::parse("1-1-2/1#a,p").unwrap();
    assert!(replay.indices_valid());
    let mut s = new_state(Some(&replay));
    let a = s.register_task("a");
    s.on_reached_point(a, "p");
    assert_eq!(s.control_loop_iteration(), Ok(true));
    assert!(s.is_running(a));
    assert_eq!(s.error(), None);
}

#[test]
fn a_run_that_leaves_the_replay_stops_with_an_error() {
    let replay = ReplayTrace::parse("1-1-2/1#b,p").unwrap();
    let mut s = new_state(Some(&replay));
    let a = s.register_task("a");
    s.on_reached_point(a, "p");
    let expected = "task execution has diverged at step 0: replay diverged: ready tasks don't match: expected [(TaskStableId(1), \"b\", \"p\")], got [(TaskStableId(1), \"a\", \"p\")]";
    assert_eq!(s.control_loop_iteration(), Err(expected.to_string()));
    assert_eq!(s.error(), Some(expected.to_string()));
}

#[test]
fn a_replay_with_no_step_left_stops_the_run() {
    let replay = ReplayTrace::parse("1-1-2/1#a,p").unwrap();
    let mut s = new_state(Some(&replay));
    let a = s.register_task("a");
    s.on_reached_point(a, "p");
    assert_eq!(s.control_loop_iteration(), Ok(true));
    s.on_reached_point(a, "p");
    assert_eq!(
        s.control_loop_iteration(),
        Err("task execution has diverged at step 1: no more steps".to_string())
    );
}

#[test]
fn a_replay_step_that_no_choice_matches_stops_the_run() {
    let replay = ReplayTrace::parse("1-1-2/2#a,p").unwrap();
    let mut s = new_state(Some(&replay));
    let a = s.register_task("a");
    s.on_reached_point(a, "p");
    assert_eq!(
        s.control_loop_iteration(),
        Err("task execution has diverged at step 0: did not find resumed_tasks [TaskStableId(2)] among possible choices [TaskScheduleChoice { chosen_task: TaskId(1), to_run: {TaskId(1)} }]".to_string())
    );
}

#[test]
fn the_random_selector_picks_one_of_the_choices() {
    let mut selector = TaskSelector::Random(RandomTaskSelector::new());
    for n in 1..20usize {
        for _ in 0..10 {
            assert!(selector.choose_next_running_task(n) < n);
        }
    }
    let mut single = RandomTaskSelector::new();
    assert_eq!(single.choose_next_running_task(1), 0);
}

#[test]
fn a_divergence_lists_both_sides_in_order_with_quoted_names() {
    let replay = ReplayTrace::parse("2-1-2,1-3-2/1#z,p,a").unwrap();
    let mut s = new_state(Some(&replay));
    let c = s.register_task("c");
    let b = s.register_task("b\"x");
    s.on_reached_point(c, "p");
    s.on_reached_point(b, "p");
    let expected = "task execution has diverged at step 0: replay diverged: ready tasks don't match: expected [(TaskStableId(1), \"a\", \"p\"), (TaskStableId(2), \"z\", \"p\")], got [(TaskStableId(1), \"b\\\"x\", \"p\"), (TaskStableId(2), \"c\", \"p\")]";
    assert_eq!(s.control_loop_iteration(), Err(expected.to_string()));
}
