use s3_bucket_downloader::executor::{Action, DownloadOutcome, Event, Worker};
use s3_bucket_downloader::progress::{ProgressAggregator, ProgressSnapshot};
use s3_bucket_downloader::retry::{backoff_secs, RetryDecision, RetryPolicy};

/// Drives a worker to the end.  `fetch` answers the n-th fetch of a key
/// (counting from 1) with `Ok(len)` or `Err(message)`; stores succeed unless
/// `store_fails` holds for the key.
struct Run {
    fetches: Vec<String>,
    sleeps: Vec<u64>,
    stores: Vec<String>,
    outcomes: Vec<DownloadOutcome>,
}

fn drive(
    keys: Vec<String>,
    max_retries: u32,
    fetch: impl Fn(&str, u32) -> Result<u64, String>,
    store_fails: impl Fn(&str) -> bool,
    progress: &ProgressAggregator,
) -> Run {
    let mut w = Worker::new(keys, RetryPolicy::new(max_retries));
    let mut run = Run { fetches: vec![], sleeps: vec![], stores: vec![], outcomes: vec![] };
    let mut attempt: u32 = 0;
    loop {
        let event = match w.next_action() {
            Action::Fetch { index } => {
                let key = w.key(index).clone();
                attempt += 1;
                run.fetches.push(key.clone());
                match fetch(&key, attempt) {
                    Ok(len) => Event::Fetched { bytes_len: len },
                    Err(e) => Event::FetchFailed { error: e },
                }
            }
            Action::Sleep { secs } => {
                run.sleeps.push(secs);
                Event::Slept
            }
            Action::Store { index } => {
                let key = w.key(index).clone();
                run.stores.push(key.clone());
                if store_fails(&key) {
                    Event::StoreFailed { error: "disk full".to_string() }
                } else {
                    Event::Stored
                }
            }
            Action::Finished => break,
        };
        if let Some(outcome) = w.step(event) {
            attempt = 0;
            progress.record(&outcome);
            run.outcomes.push(outcome);
        }
    }
    run
}

#[test]
fn three_failures_then_success_with_three_retries() {
    let p = ProgressAggregator::new();
    let run = drive(
        vec!["a/b.jpg".to_string()],
        3,
        |_, n| if n <= 3 { Err(format!("attempt {}", n)) } else { Ok(42) },
        |_| false,
        &p,
    );
    assert_eq!(run.fetches.len(), 4);
    assert_eq!(run.sleeps, vec![2, 4, 8]);
    assert_eq!(run.sleeps.iter().sum::<u64>(), 14);
    assert!(matches!(run.outcomes[..], [DownloadOutcome::Succeeded { bytes_len: 42 }]));
    assert_eq!(p.snapshot(), ProgressSnapshot { downloaded: 1, failed: 0, bytes: 42 });
}

#[test]
fn zero_retries_calls_once_and_never_sleeps() {
    let p = ProgressAggregator::new();
    let run = drive(vec!["k".to_string()], 0, |_, _| Err("denied".to_string()), |_| false, &p);
    assert_eq!(run.fetches.len(), 1);
    assert!(run.sleeps.is_empty());
    match &run.outcomes[..] {
        [DownloadOutcome::Failed { last_error }] => assert_eq!(last_error, "denied"),
        other => panic!("unexpected outcomes {:?}", other),
    }
    assert_eq!(p.snapshot(), ProgressSnapshot { downloaded: 0, failed: 1, bytes: 0 });
}

#[test]
fn zero_retries_success_on_first_call() {
    let p = ProgressAggregator::new();
    let run = drive(vec!["k".to_string()], 0, |_, _| Ok(5), |_| false, &p);
    assert_eq!(run.fetches.len(), 1);
    assert!(run.sleeps.is_empty());
    assert_eq!(p.downloaded_count(), 1);
    assert_eq!(p.downloaded_bytes(), 5);
}

#[test]
fn exhausted_retries_report_most_recent_error_and_move_on() {
    let p = ProgressAggregator::new();
    let run = drive(
        vec!["bad".to_string(), "good".to_string()],
        2,
        |k, n| if k == "bad" { Err(format!("fail {}", n)) } else { Ok(7) },
        |_| false,
        &p,
    );
    assert_eq!(run.fetches, vec!["bad", "bad", "bad", "good"]);
    assert_eq!(run.sleeps, vec![2, 4]);
    match &run.outcomes[0] {
        DownloadOutcome::Failed { last_error } => assert_eq!(last_error, "fail 3"),
        other => panic!("unexpected outcome {:?}", other),
    }
    assert!(matches!(run.outcomes[1], DownloadOutcome::Succeeded { bytes_len: 7 }));
    assert_eq!(p.snapshot(), ProgressSnapshot { downloaded: 1, failed: 1, bytes: 7 });
}

#[test]
fn empty_key_set_fetches_nothing() {
    let p = ProgressAggregator::new();
    let w = Worker::new(vec![], RetryPolicy::new(3));
    assert_eq!(w.next_action(), Action::Finished);
    let run = drive(vec![], 3, |_, _| panic!("no fetch expected"), |_| false, &p);
    assert!(run.fetches.is_empty());
    assert!(run.outcomes.is_empty());
    assert_eq!(p.snapshot(), ProgressSnapshot { downloaded: 0, failed: 0, bytes: 0 });
}

#[test]
fn store_failure_is_a_per_key_failure() {
    let p = ProgressAggregator::new();
    let run = drive(
        vec!["x".to_string(), "y".to_string()],
        3,
        |_, _| Ok(10),
        |k| k == "x",
        &p,
    );
    assert_eq!(run.stores, vec!["x", "y"]);
    assert!(matches!(run.outcomes[0], DownloadOutcome::Failed { .. }));
    assert!(matches!(run.outcomes[1], DownloadOutcome::Succeeded { bytes_len: 10 }));
    assert_eq!(p.snapshot(), ProgressSnapshot { downloaded: 1, failed: 1, bytes: 10 });
}

#[test]
fn progress_counts_completed_and_assigned() {
    let mut w = Worker::new(vec!["a".to_string(), "b".to_string()], RetryPolicy::new(1));
    assert_eq!(w.assigned(), 2);
    assert_eq!(w.completed(), 0);
    assert_eq!(w.next_action(), Action::Fetch { index: 0 });
    assert!(w.step(Event::Slept).is_none());
    assert_eq!(w.next_action(), Action::Fetch { index: 0 });
    assert!(w.step(Event::Fetched { bytes_len: 3 }).is_none());
    assert_eq!(w.next_action(), Action::Store { index: 0 });
    assert!(w.step(Event::Stored).is_some());
    assert_eq!(w.completed(), 1);
    assert_eq!(w.next_action(), Action::Fetch { index: 1 });
}

#[test]
fn backoff_doubles() {
    assert_eq!(backoff_secs(0), 1);
    assert_eq!(backoff_secs(1), 2);
    assert_eq!(backoff_secs(3), 8);
    assert_eq!(backoff_secs(63), 1u64 << 63);
}

#[test]
fn policy_decisions() {
    let p = RetryPolicy::new(3);
    assert_eq!(p.max_attempts(), 4);
    assert_eq!(p.after_failure(1), RetryDecision::Retry { delay_secs: 2 });
    assert_eq!(p.after_failure(3), RetryDecision::Retry { delay_secs: 8 });
    assert_eq!(p.after_failure(4), RetryDecision::GiveUp);
    assert_eq!(RetryPolicy::new(0).after_failure(1), RetryDecision::GiveUp);
}
