use racedet::driver::parse_iteration_count;
use std::time::Duration;

use racedet::driver::{Driver, RunMode};
use racedet::full_trace::{FullTraceTaskId, TaskRef, TaskSnapshot, TraceView, TraceViewItem};
use racedet::parsed_replay_trace::ReplayTrace;
use racedet::string_pool::StringPool;
use racedet::task::{TaskId, TaskStableId};
use racedet::trace::Trace;

#[test]
fn interning_names_each_string_once() {
    let mut pool = StringPool::new();
    let a = pool.intern("a");
    let b = pool.intern("b");
    let a2 = pool.intern("a");
    assert_eq!(a.as_usize(), 1);
    assert_eq!(b.as_usize(), 2);
    assert_eq!(a, a2);
    assert_eq!(pool.len(), 2);
    assert_eq!(pool.get(a), Some("a".to_string()));
    assert_eq!(pool.get(b), Some("b".to_string()));
    assert_eq!(pool.strings(), &vec!["a".to_string(), "b".to_string()]);
}

#[test]
fn a_new_driver_runs_at_random_for_ten_seconds() {
    let d = Driver::new();
    assert!(matches!(d.run_mode(), RunMode::Random));
    assert_eq!(d.iteration_limit(), None);
    assert_eq!(d.total_duration_limit(), Duration::from_secs(10));
    assert_eq!(d.run_timeout(), None);
    assert!(!d.has_replay_env_var());
    assert_eq!(d.replay_message("1-1-2/1#a,p"), "");
}

#[test]
fn the_driver_keeps_its_settings() {
    let d = Driver::new()
        .max_iterations(3)
        .max_total_duration(Duration::from_secs(2))
        .test_timeout(Duration::from_millis(500));
    assert_eq!(d.iteration_limit(), Some(3));
    assert_eq!(d.total_duration_limit(), Duration::from_secs(2));
    assert_eq!(d.run_timeout(), Some(Duration::from_millis(500)));
    assert!(d.should_run_iteration(2, true));
    assert!(!d.should_run_iteration(3, true));
    assert!(!d.should_run_iteration(0, false));
    let d = d.with_iterations_limit(None);
    assert!(d.should_run_iteration(1_000_000, true));
}

#[test]
fn a_replayed_driver_tells_how_to_replay() {
    let trace = ReplayTrace::parse("1-1-2/1#a,p").unwrap();
    let d = Driver::new().with_replay_once("REPLAY", Some(trace));
    assert!(matches!(d.run_mode(), RunMode::ReplayOnce(_)));
    assert!(d.has_replay_env_var());
    assert_eq!(
        d.replay_message("1-1-2/1#a,p"),
        "To replay this test, set the following environment variable:\nREPLAY=\"1-1-2/1#a,p\"\n"
    );
    let d = Driver::new().with_replay_many("REPLAY", None);
    assert!(matches!(d.run_mode(), RunMode::Random));
    assert!(d.has_replay_env_var());
}

#[test]
fn a_full_trace_is_shown_line_by_line() {
    let a = TaskRef { id: FullTraceTaskId::Stable(TaskStableId::new(1)), name: "a".to_string() };
    let b = TaskRef { id: FullTraceTaskId::Unstable(TaskId::new(2)), name: "b".to_string() };
    let view = TraceView {
        trace: vec![
            TraceViewItem::TaskStarted(a.clone()),
            TraceViewItem::TaskSuspended { task: a.clone(), suspend_point: "p".to_string() },
            TraceViewItem::ScheduleDecision {
                resumed_tasks: vec![a.clone()],
                running_tasks: vec![TaskSnapshot {
                    id: b.id,
                    name: "b".to_string(),
                    position: None,
                }],
                suspended_tasks: vec![TaskSnapshot {
                    id: a.id,
                    name: "a".to_string(),
                    position: Some("p".to_string()),
                }],
                options: vec![vec![a.clone()], vec![a.clone(), b.clone()]],
            },
            TraceViewItem::TaskFinished(b.clone()),
        ],
    };
    assert_eq!(
        view.render(),
        "0. start 1 a\n1. suspend 1 a p\n2. resumed [1 a] (run: [#2 b at (spawned)], suspended: [1 a at p], options: [[1 a], [1 a, #2 b]])\n3. finish #2 b\n"
    );
}

#[test]
fn a_text_trace_is_numbered() {
    let t = Trace { trace: vec!["first".to_string(), "second".to_string()] };
    assert_eq!(t.render(), "0. first\n1. second\n");
    assert_eq!(Trace { trace: vec![] }.render(), "");
}

#[test]
fn an_iteration_count_is_read_as_a_u32() {
    assert_eq!(parse_iteration_count("25"), Some(25));
    assert_eq!(parse_iteration_count("+7"), Some(7));
    assert_eq!(parse_iteration_count("4294967295"), Some(4294967295));
    assert_eq!(parse_iteration_count("4294967296"), None);
    assert_eq!(parse_iteration_count(""), None);
    assert_eq!(parse_iteration_count("1x"), None);
    assert_eq!(parse_iteration_count("-1"), None);
}
