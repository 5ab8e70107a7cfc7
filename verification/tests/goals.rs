use arora_behavior::goals::{errno_of, Errno, GoalBook, GoalEvent, GoalStatus, HaltCause, Time};
use arora_behavior::outbound::StateChange;
use arora_behavior::status::Status;
use arora_behavior::value::{Call, Value};

/// A priority in the middle of the range.
const NORMAL_PRIORITY: u8 = 64;

/// A request identifier, standing for the middleware's.
type Request = u32;

fn keys(prefix: &str) -> (String, Vec<String>, Vec<String>) {
    (
        format!("{prefix}/status"),
        vec![format!("{prefix}/feedback")],
        vec![format!("{prefix}/result")],
    )
}

fn stop_call() -> Call {
    Call { module_id: Some(1), id: 2, args: vec![] }
}

fn accept(book: &mut GoalBook<Request>, goal_id: [u8; 16], accepted: Time, prefix: &str) {
    let (status, feedback, result) = keys(prefix);
    assert!(book.accept(goal_id, accepted, NORMAL_PRIORITY, status, feedback, result, stop_call()));
}

fn status_change(key: &str, status: Status) -> StateChange {
    StateChange::set(key, status.to_value())
}

#[test]
fn a_goal_advances_from_the_status_key_and_caches_its_result() {
    let mut book = GoalBook::new();
    accept(&mut book, [1u8; 16], Time::from_nanos(10), "arora/tasks/m/f/run1");

    // A Running status keeps the goal executing.
    let change = status_change("arora/tasks/m/f/run1/status", Status::Running);
    assert!(book.observe(&change).is_empty());
    assert_eq!(book.get(&[1u8; 16]).unwrap().status, GoalStatus::Executing);

    // The run writes its result, then succeeds, in one flush: the result is
    // cached and the terminal event fires.
    let mut change = StateChange::set("arora/tasks/m/f/run1/result", Value::I32(0));
    change.set_key("arora/tasks/m/f/run1/status", Some(Status::Success.to_value()));
    let events = book.observe(&change);
    assert_eq!(events, vec![GoalEvent::Terminal { goal_id: [1u8; 16] }]);
    let goal = book.get(&[1u8; 16]).unwrap();
    assert_eq!(goal.status, GoalStatus::Succeeded);
    assert_eq!(goal.result, Some(Value::I32(0)));

    // Terminal goals no longer advance.
    let change = status_change("arora/tasks/m/f/run1/status", Status::Failure);
    assert!(book.observe(&change).is_empty());
    assert_eq!(book.get(&[1u8; 16]).unwrap().status, GoalStatus::Succeeded);
}

#[test]
fn feedback_writes_become_feedback_events() {
    let mut book = GoalBook::<Request>::new();
    accept(&mut book, [2u8; 16], Time::from_nanos(10), "arora/tasks/m/f/run2");
    let change = StateChange::set("arora/tasks/m/f/run2/feedback", Value::I32(5));
    assert_eq!(
        book.observe(&change),
        vec![GoalEvent::Feedback { goal_id: [2u8; 16], value: Value::I32(5) }]
    );
}

#[test]
fn a_canceled_goal_ends_canceled_not_aborted() {
    let mut book = GoalBook::<Request>::new();
    accept(&mut book, [3u8; 16], Time::from_nanos(10), "arora/tasks/m/f/run3");

    let selected = book.cancel([3u8; 16], Time::zero());
    assert_eq!(selected.len(), 1);
    assert_eq!(book.get(&[3u8; 16]).unwrap().status, GoalStatus::Canceling);

    let change = status_change("arora/tasks/m/f/run3/status", Status::Failure);
    let events = book.observe(&change);
    assert_eq!(events, vec![GoalEvent::Terminal { goal_id: [3u8; 16] }]);
    assert_eq!(book.get(&[3u8; 16]).unwrap().status, GoalStatus::Canceled);

    // A spontaneous Failure on a goal nobody canceled is Aborted.
    accept(&mut book, [4u8; 16], Time::from_nanos(11), "arora/tasks/m/f/run4");
    let change = status_change("arora/tasks/m/f/run4/status", Status::Failure);
    book.observe(&change);
    assert_eq!(book.get(&[4u8; 16]).unwrap().status, GoalStatus::Aborted);
}

#[test]
fn cancel_selects_goals_per_the_ros_policy() {
    let mut book = GoalBook::<Request>::new();
    accept(&mut book, [1u8; 16], Time::from_nanos(10), "arora/tasks/m/f/a");
    accept(&mut book, [2u8; 16], Time::from_nanos(20), "arora/tasks/m/f/b");
    accept(&mut book, [3u8; 16], Time::from_nanos(30), "arora/tasks/m/f/c");

    // Goal id + zero stamp: that goal only.
    let selected = book.cancel([2u8; 16], Time::zero());
    assert_eq!(selected.iter().map(|(id, _, _)| *id).collect::<Vec<_>>(), vec![[2u8; 16]]);

    // Zero id + stamp: everything accepted at or before it (b is already
    // canceling and is not re-selected).
    let mut ids: Vec<_> = book
        .cancel([0u8; 16], Time::from_nanos(10))
        .into_iter()
        .map(|(id, _, _)| id)
        .collect();
    ids.sort();
    assert_eq!(ids, vec![[1u8; 16]]);

    // Zero id + zero stamp: every remaining non-canceling goal.
    let ids: Vec<_> = book
        .cancel([0u8; 16], Time::zero())
        .into_iter()
        .map(|(id, _, _)| id)
        .collect();
    assert_eq!(ids, vec![[3u8; 16]]);
}

#[test]
fn duplicate_goal_ids_are_rejected() {
    let mut book = GoalBook::<Request>::new();
    accept(&mut book, [5u8; 16], Time::from_nanos(10), "arora/tasks/m/f/run5");
    let (status, feedback, result) = keys("arora/tasks/m/f/other");
    assert!(!book.accept(
        [5u8; 16],
        Time::from_nanos(11),
        NORMAL_PRIORITY,
        status,
        feedback,
        result,
        stop_call()
    ));
}

#[test]
fn a_preempted_goal_reads_aborted_with_eintr() {
    let mut book = GoalBook::<Request>::new();
    let (status, feedback, result) = keys("arora/tasks/m/f/a");
    assert!(book.accept([1u8; 16], Time::from_nanos(10), 128, status, feedback, result, stop_call()));
    assert_eq!(book.active(), Some(([1u8; 16], 128)));

    let stop = book.preempt([1u8; 16]).expect("the stop call comes back");
    assert_eq!(stop, stop_call());
    assert!(book.active().is_none(), "a preempted goal owns nothing");

    let change = status_change("arora/tasks/m/f/a/status", Status::Failure);
    book.observe(&change);
    let goal = book.get(&[1u8; 16]).unwrap();
    assert_eq!(goal.status, GoalStatus::Aborted);
    assert_eq!(errno_of(goal.status, goal.halt_cause), Errno::Interrupted);
}

#[test]
fn errnos_follow_the_lifecycle() {
    assert_eq!(errno_of(GoalStatus::Succeeded, None), Errno::NoError);
    assert_eq!(errno_of(GoalStatus::Canceled, Some(HaltCause::Cancel)), Errno::Canceled);
    assert_eq!(errno_of(GoalStatus::Aborted, Some(HaltCause::Preempt)), Errno::Interrupted);
    assert_eq!(errno_of(GoalStatus::Aborted, None), Errno::Other);
}

#[test]
fn a_canceled_preempted_goal_keeps_the_preemption_as_its_cause() {
    let mut book = GoalBook::<Request>::new();
    accept(&mut book, [1u8; 16], Time::from_nanos(10), "p");
    book.preempt([1u8; 16]).unwrap();
    let selected = book.cancel([1u8; 16], Time::zero());
    assert_eq!(selected.len(), 1);
    let goal = book.get(&[1u8; 16]).unwrap();
    assert_eq!(goal.status, GoalStatus::Canceling);
    assert_eq!(goal.halt_cause, Some(HaltCause::Preempt));
    book.observe(&status_change("p/status", Status::Failure));
    let goal = book.get(&[1u8; 16]).unwrap();
    assert_eq!(goal.status, GoalStatus::Aborted);
    assert_eq!(errno_of(goal.status, goal.halt_cause), Errno::Interrupted);
}

#[test]
fn arbitration_preempts_an_equal_or_lower_owner_and_refuses_a_higher_one() {
    let mut book = GoalBook::<Request>::new();
    assert_eq!(book.arbitrate(10), Ok(None), "nothing owns the run");
    let (status, feedback, result) = keys("a");
    assert!(book.accept([1u8; 16], Time::from_nanos(1), 100, status, feedback, result, stop_call()));
    assert_eq!(book.arbitrate(99), Err(100), "a lower priority is refused");
    assert_eq!(book.get(&[1u8; 16]).unwrap().halt_cause, None);
    assert_eq!(book.arbitrate(100), Ok(Some(stop_call())), "an equal one preempts");
    assert_eq!(book.get(&[1u8; 16]).unwrap().halt_cause, Some(HaltCause::Preempt));
    assert_eq!(book.arbitrate(1), Ok(None), "the preempted goal owns nothing");
}

#[test]
fn result_requests_wait_for_their_goal_and_unknown_goals_resolve_at_once() {
    let mut book = GoalBook::<Request>::new();
    accept(&mut book, [1u8; 16], Time::from_nanos(10), "r");
    book.queue_result_request([1u8; 16], 7);
    book.queue_result_request([9u8; 16], 8);
    let ready = book.take_ready_results();
    assert_eq!(ready, vec![(8, GoalStatus::Unknown, None, None)]);

    let mut change = StateChange::set("r/result", Value::U8(42));
    change.set_key("r/status", Some(Status::Success.to_value()));
    book.observe(&change);
    let ready = book.take_ready_results();
    assert_eq!(ready, vec![(7, GoalStatus::Succeeded, None, Some(Value::U8(42)))]);
    assert!(book.take_ready_results().is_empty());
}

#[test]
fn statuses_list_every_goal_in_acceptance_order() {
    let mut book = GoalBook::<Request>::new();
    accept(&mut book, [2u8; 16], Time::from_nanos(20), "b");
    accept(&mut book, [1u8; 16], Time::from_nanos(10), "a");
    let statuses = book.statuses();
    assert_eq!(
        statuses,
        vec![
            ([2u8; 16], Time::from_nanos(20), GoalStatus::Executing),
            ([1u8; 16], Time::from_nanos(10), GoalStatus::Executing),
        ]
    );
}

#[test]
fn the_result_cache_keeps_the_newest_terminal_goals() {
    let mut book = GoalBook::<Request>::new();
    for n in 0..130u32 {
        let mut id = [0u8; 16];
        id[..4].copy_from_slice(&n.to_be_bytes());
        id[15] = 1;
        let prefix = format!("g{n}");
        accept(&mut book, id, Time::from_nanos(n as i64), &prefix);
        book.observe(&status_change(&format!("{prefix}/status"), Status::Success));
    }
    assert_eq!(book.statuses().len(), 128);
    let mut first = [0u8; 16];
    first[15] = 1;
    assert!(book.get(&first).is_none(), "the oldest terminal goal was evicted");
}

#[test]
fn time_stamps_split_nanoseconds_and_order_by_seconds_first() {
    let t = Time::from_nanos(1_500_000_000);
    assert_eq!(t, Time { sec: 1, nanosec: 500_000_000 });
    let before = Time::from_nanos(-1);
    assert_eq!(before, Time { sec: -1, nanosec: 999_999_999 });
    assert!(before.le(&Time::zero()));
    assert!(Time::zero().le(&t));
    assert!(!t.le(&Time { sec: 1, nanosec: 0 }));
}
