use runjs::dispatch::{start_plan, summarize, worker_count, worker_global_name, worker_step,
    WorkerCommand, WorkerEvent, WorkerOutcome, WorkerPhase};
use runjs::lex::{str_eq, str_lt};

#[test]
fn worker_count_is_capped() {
    assert_eq!(worker_count(8, 4), 4);
    assert_eq!(worker_count(2, 4), 2);
    assert_eq!(worker_count(4, 4), 4);
    assert_eq!(worker_count(0, 4), 0);
}

#[test]
fn the_plan_holds_one_start_command_per_worker() {
    let cmds = start_plan(4);
    assert_eq!(cmds.len(), 4);
    assert!(cmds.iter().all(|c| matches!(c, WorkerCommand::Start)));
    assert!(start_plan(0).is_empty());
}

#[test]
fn worker_lifecycle_runs_in_order() {
    let p = WorkerPhase::Created;
    let p = worker_step(p, WorkerEvent::ContextReady);
    assert!(matches!(p, WorkerPhase::Bootstrapped));
    let p = worker_step(p, WorkerEvent::Start);
    assert!(matches!(p, WorkerPhase::Running));
    let p = worker_step(p, WorkerEvent::Completed(Ok(())));
    assert!(matches!(p, WorkerPhase::FinishedOk));
}

#[test]
fn worker_failure_keeps_its_text() {
    let p = worker_step(WorkerPhase::Running, WorkerEvent::Completed(Err(String::from("boom"))));
    match p {
        WorkerPhase::FinishedFailed(msg) => assert_eq!(msg, "boom"),
        _ => panic!("expected a failed phase"),
    }
}

#[test]
fn out_of_protocol_events_change_nothing() {
    let p = worker_step(WorkerPhase::Created, WorkerEvent::Start);
    assert!(matches!(p, WorkerPhase::Created));
    let p = worker_step(WorkerPhase::Bootstrapped, WorkerEvent::ContextReady);
    assert!(matches!(p, WorkerPhase::Bootstrapped));
}

#[test]
fn summarize_counts_each_worker_once() {
    let outcomes = vec![
        WorkerOutcome::Success,
        WorkerOutcome::Failure(String::from("uncaught")),
        WorkerOutcome::Success,
    ];
    let (ok, failed) = summarize(&outcomes);
    assert_eq!(ok, 2);
    assert_eq!(failed, 1);
}

#[test]
fn one_failure_does_not_hide_a_success() {
    // worker A fails, worker B succeeds: both results are reported
    let outcomes = vec![
        WorkerOutcome::Failure(String::from("a threw")),
        WorkerOutcome::Success,
    ];
    let (ok, failed) = summarize(&outcomes);
    assert_eq!(ok, 1);
    assert_eq!(failed, 1);
}

#[test]
fn summarize_of_nothing_is_zero() {
    let outcomes: Vec<WorkerOutcome> = Vec::new();
    let (ok, failed) = summarize(&outcomes);
    assert_eq!(ok, 0);
    assert_eq!(failed, 0);
}

#[test]
fn worker_names_are_fixed_length_alphanumeric() {
    for seed in [0u64, 1, 35, 36, 1234567890123, u64::MAX] {
        let name = worker_global_name(seed);
        assert_eq!(name.len(), 8);
        assert!(name.chars().all(|c| c.is_ascii_digit() || c.is_ascii_lowercase()));
    }
}

#[test]
fn worker_names_spell_the_seed_in_base_36() {
    assert_eq!(worker_global_name(0), "00000000");
    // least significant digit first: 35 is 'z', then zeros
    assert_eq!(worker_global_name(35), "z0000000");
    assert_eq!(worker_global_name(36), "01000000");
    assert_ne!(worker_global_name(7), worker_global_name(8));
}

#[test]
fn string_order_is_lexicographic() {
    assert!(str_lt("a", "b"));
    assert!(str_lt("", "a"));
    assert!(str_lt("a", "ab"));
    assert!(str_lt("ab", "b"));
    assert!(!str_lt("b", "a"));
    assert!(!str_lt("a", "a"));
    assert!(str_eq("same", "same"));
    assert!(!str_eq("same", "samey"));
}
