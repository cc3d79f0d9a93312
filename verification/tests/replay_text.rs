use racedet::parsed_replay_trace::{ReplayStep, ReplayTrace, SuspendedTask};
use racedet::task::TaskStableId;

fn parse_error(text: &str) -> &'static str {
    match ReplayTrace::parse(text) {
        Ok(_) => panic!("{text} was read"),
        Err(e) => e.0,
    }
}

#[test]
fn a_trace_is_read_and_written_back() {
    let text = "1-1-2,2-3-2/1,2;2-3-4/2#a,p,b,q";
    let trace = ReplayTrace::parse(text).unwrap();
    assert_eq!(trace.strings, vec!["a", "p", "b", "q"]);
    assert_eq!(trace.steps.len(), 2);
    assert_eq!(trace.steps[0].suspended_tasks.len(), 2);
    assert_eq!(trace.steps[0].suspended_tasks[1].id, TaskStableId::new(2));
    assert_eq!(trace.steps[0].suspended_tasks[1].name, 3);
    assert_eq!(trace.steps[0].suspended_tasks[1].position, 2);
    assert_eq!(
        trace.steps[0].resumed_tasks,
        vec![TaskStableId::new(1), TaskStableId::new(2)]
    );
    assert_eq!(trace.render(), text);
    assert!(trace.indices_valid());
}

#[test]
fn a_number_may_carry_a_plus_sign() {
    let trace = ReplayTrace::parse("+1-+1-2/+1#a,p").unwrap();
    assert_eq!(trace.render(), "1-1-2/1#a,p");
}

#[test]
fn strings_may_hold_a_hash() {
    let trace = ReplayTrace::parse("1-1-2/1#a#b,p").unwrap();
    assert_eq!(trace.strings, vec!["a#b", "p"]);
}

#[test]
fn each_malformed_trace_has_its_error() {
    assert_eq!(parse_error("1-1-2/1"), "no #");
    assert_eq!(parse_error("#a"), "no /");
    assert_eq!(parse_error("1-1/1#a"), "wrong number of -");
    assert_eq!(parse_error("1-1-2-3/1#a"), "wrong number of -");
    assert_eq!(parse_error("0-1-2/1#a"), "parse task id");
    assert_eq!(parse_error("x-1-2/1#a"), "parse task id");
    assert_eq!(parse_error("1-x-2/1#a"), "parse task name");
    assert_eq!(parse_error("1-4294967296-2/1#a"), "parse task name");
    assert_eq!(parse_error("1-1-/1#a"), "parse task position");
    assert_eq!(parse_error("1-1-2/#a"), "parse task id");
    assert_eq!(parse_error("1-1-2/0#a"), "parse task id");
    assert_eq!(parse_error("1-1-2/18446744073709551616#a"), "parse task id");
    assert_eq!(parse_error("1-1-2/1;#a"), "no /");
}

#[test]
fn the_first_error_in_the_text_is_reported() {
    assert_eq!(parse_error("1-x-2,y-1-2/1#a"), "parse task name");
    assert_eq!(parse_error("1-1-2/1;2-1/1#a"), "wrong number of -");
}

#[test]
fn a_trace_built_by_hand_is_written() {
    let trace = ReplayTrace {
        strings: vec!["main".to_string(), "start".to_string()],
        steps: vec![ReplayStep {
            suspended_tasks: vec![SuspendedTask { id: TaskStableId::new(3), name: 1, position: 2 }],
            resumed_tasks: vec![TaskStableId::new(3)],
        }],
    };
    assert_eq!(trace.render(), "3-1-2/3#main,start");
    let back = ReplayTrace::parse(&trace.render()).unwrap();
    assert_eq!(back.render(), trace.render());
}

#[test]
fn indices_outside_the_strings_are_found() {
    let trace = ReplayTrace::parse("1-1-3/1#a,p").unwrap();
    assert!(!trace.indices_valid());
    let trace = ReplayTrace::parse("1-0-1/1#a,p").unwrap();
    assert!(!trace.indices_valid());
}

fn step_error(text: &str) -> &'static str {
    match text.parse::<ReplayStep>() {
        Ok(_) => panic!("{text} parsed"),
        Err(e) => e.0,
    }
}

#[test]
fn a_step_reads_its_suspended_and_resumed_tasks() {
    let step: ReplayStep = "1-2-3,4-5-6/4".parse().unwrap();
    let suspended: Vec<(u64, u32, u32)> =
        step.suspended_tasks.iter().map(|t| (t.id.get(), t.name, t.position)).collect();
    assert_eq!(suspended, vec![(1, 2, 3), (4, 5, 6)]);
    let resumed: Vec<u64> = step.resumed_tasks.iter().map(|t| t.get()).collect();
    assert_eq!(resumed, vec![4]);
    assert_eq!(step_error("1-2-3"), "no /");
    assert_eq!(step_error("1-2/1"), "wrong number of -");
    assert_eq!(step_error("1-2-3/"), "parse task id");
    assert_eq!(step_error("x-2-3/1"), "parse task id");
    assert_eq!(step_error("1-y-3/1"), "parse task name");
    assert_eq!(step_error("1-2-z/1"), "parse task position");
}
