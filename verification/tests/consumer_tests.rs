use kafka_key_guestimator::consumer::{
    distribute_budget, fd_limit_plan, worker_has_budget, WorkerEvent, WorkerNext, WorkerState,
};

fn payload(text: &str) -> WorkerEvent {
    WorkerEvent::Message { payload: Some(text.as_bytes().to_vec()) }
}

const ONE_RESOURCE: &str = r#"{"resourceMetrics":[{"resource":{"attributes":[{"key":"svc","value":{"stringValue":"a"}}]}}]}"#;
const TWO_RESOURCES: &str = r#"{"resourceMetrics":[
    {"resource":{"attributes":[{"key":"svc","value":{"stringValue":"a"}}]}},
    {"resource":{"attributes":[{"key":"svc","value":{"stringValue":"b"}}]}}
]}"#;

#[test]
fn budget_none_gives_all_none() {
    assert_eq!(distribute_budget(None, 3), vec![None, None, None]);
}

#[test]
fn budget_evenly_divisible() {
    assert_eq!(
        distribute_budget(Some(12), 4),
        vec![Some(3), Some(3), Some(3), Some(3)]
    );
}

#[test]
fn budget_remainder_distributed_to_first_workers() {
    // 10 / 3 = 3 rem 1: worker 0 gets 4, workers 1–2 get 3
    assert_eq!(
        distribute_budget(Some(10), 3),
        vec![Some(4), Some(3), Some(3)]
    );
}

#[test]
fn budget_total_always_preserved() {
    let total = 101;
    let workers = 7;
    let sum: usize = distribute_budget(Some(total), workers)
        .into_iter()
        .map(|b| b.unwrap())
        .sum();
    assert_eq!(sum, total);
}

#[test]
fn budget_single_worker_gets_all() {
    assert_eq!(distribute_budget(Some(50), 1), vec![Some(50)]);
}

#[test]
fn budget_remainder_goes_to_worker_zero() {
    let shares: Vec<usize> = distribute_budget(Some(23), 5).into_iter().map(|b| b.unwrap()).collect();
    assert_eq!(shares, vec![7, 4, 4, 4, 4]);
    assert_eq!(distribute_budget(Some(11), 3), vec![Some(5), Some(3), Some(3)]);
    assert_eq!(distribute_budget(Some(2), 4), vec![Some(2), Some(0), Some(0), Some(0)]);
    assert_eq!(distribute_budget(None, 0), vec![]);
}

#[test]
fn zero_budget_means_no_work() {
    assert!(!worker_has_budget(Some(0)));
    assert!(worker_has_budget(Some(1)));
    assert!(worker_has_budget(None));
}

#[test]
fn worker_counts_messages_until_budget() {
    let mut w = WorkerState::new(Some(2), 1000);
    let o1 = w.step(payload(ONE_RESOURCE));
    assert!(o1.processed && !o1.skipped);
    assert_eq!(o1.next, WorkerNext::Continue);
    let o2 = w.step(payload(TWO_RESOURCES));
    assert!(o2.processed);
    assert_eq!(o2.next, WorkerNext::StopAll);
    assert_eq!(w.processed(), 2);
    let counts = w.into_counts();
    assert_eq!(counts.total(), 3);
}

#[test]
fn worker_skips_empty_and_unparsable_payloads() {
    let mut w = WorkerState::new(None, 1000);
    let o = w.step(WorkerEvent::Message { payload: None });
    assert!(o.skipped && !o.processed);
    assert_eq!(o.next, WorkerNext::Continue);
    let o = w.step(payload("{not json}"));
    assert!(o.skipped && !o.processed);
    let o = w.step(payload(""));
    assert!(o.skipped);
    let o = w.step(WorkerEvent::Message { payload: Some(vec![0xFF, 0xFE]) });
    assert!(o.skipped);
    assert_eq!(w.processed(), 0);
    assert_eq!(w.into_counts().total(), 0);
}

#[test]
fn worker_reports_progress_on_multiples() {
    let mut w = WorkerState::new(None, 2);
    assert!(!w.step(payload(ONE_RESOURCE)).report_progress);
    assert!(w.step(payload(ONE_RESOURCE)).report_progress);
    assert!(!w.step(payload(ONE_RESOURCE)).report_progress);
    let mut z = WorkerState::new(None, 0);
    assert!(!z.step(payload(ONE_RESOURCE)).report_progress);
}

#[test]
fn worker_control_events() {
    let mut w = WorkerState::new(None, 10);
    assert_eq!(w.step(WorkerEvent::StopRequested).next, WorkerNext::Stop);
    assert_eq!(w.step(WorkerEvent::PollTimedOut { idle_expired: false }).next, WorkerNext::Continue);
    assert_eq!(w.step(WorkerEvent::PollTimedOut { idle_expired: true }).next, WorkerNext::StopAll);
    assert_eq!(w.step(WorkerEvent::StreamEnded).next, WorkerNext::Stop);
    assert_eq!(w.step(WorkerEvent::StreamError).next, WorkerNext::Fail);
    assert_eq!(w.processed(), 0);
}

#[test]
fn fd_limit_raised_only_when_needed() {
    assert_eq!(fd_limit_plan(1, 1024, 4096), None);
    assert_eq!(fd_limit_plan(1, 256, 4096), Some(1024));
    assert_eq!(fd_limit_plan(100, 1024, 65536), Some(3200));
    assert_eq!(fd_limit_plan(100, 1024, 2000), Some(2000));
    assert_eq!(fd_limit_plan(100, 4000, 65536), None);
}
