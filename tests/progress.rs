use s3_bucket_downloader::executor::DownloadOutcome;
use s3_bucket_downloader::progress::{ProgressAggregator, ProgressSnapshot};

#[test]
fn concurrent_records_lose_no_update() {
    const WORKERS: usize = 8;
    const CALLS: usize = 10_000;
    let p = ProgressAggregator::new();
    let pool = rayon::ThreadPoolBuilder::new().num_threads(WORKERS).build().unwrap();
    pool.scope(|s| {
        for w in 0..WORKERS {
            let p = &p;
            s.spawn(move |_| {
                for i in 0..CALLS {
                    if (i + w) % 2 == 0 {
                        p.record_success(3);
                    } else {
                        p.record_failure();
                    }
                }
            });
        }
    });
    let snap = p.snapshot();
    assert_eq!(snap.downloaded + snap.failed, WORKERS * CALLS);
    assert_eq!(snap.downloaded, WORKERS * CALLS / 2);
    assert_eq!(snap.bytes, 3 * (WORKERS * CALLS / 2) as u64);
}

#[test]
fn fresh_aggregator_is_zero() {
    let p = ProgressAggregator::new();
    assert_eq!(p.snapshot(), ProgressSnapshot { downloaded: 0, failed: 0, bytes: 0 });
}

#[test]
fn record_dispatches_on_outcome() {
    let p = ProgressAggregator::new();
    p.record(&DownloadOutcome::Succeeded { bytes_len: 100 });
    p.record(&DownloadOutcome::Failed { last_error: "timeout".to_string() });
    p.record(&DownloadOutcome::Succeeded { bytes_len: 1 });
    assert_eq!(p.downloaded_count(), 2);
    assert_eq!(p.failed_count(), 1);
    assert_eq!(p.downloaded_bytes(), 101);
}
