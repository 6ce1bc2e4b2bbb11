use hibp::{
    check_args, partition_keys, plan_output, retry_delay_ms, shard_file_contents, DownloadJob,
    Error, FetchOutcome, JobStep, RunOutcome, MAX_RETRIES, RETRY_BASE_DELAY_MS,
};

const LISTING: &[u8] = b"C6008F9CAB4083784CBD1874F76618D2A97:2254650\r\n\
\n\
SHORT:1\n\
C6008F9CAB4083784CBD1874F76618D2A9Z:3\n\
D0000000000000000000000000000000000:1";

#[test]
fn shard_contents_from_listing() {
    let contents = shard_file_contents(0xCBFDA, LISTING);
    assert_eq!(
        contents,
        vec![0xAC, 0x60, 0x08, 0xF9, 0xCA, 0xB4, 0xAD, 0x00, 0x00, 0x00, 0x00, 0x00]
    );
}

#[test]
fn shard_contents_are_sorted_when_listing_is_not() {
    let body = b"FFFFFFFFFFFFFFFFFFFFFFFFFFFFFFFFFFF:1\n\
00000000000000000000000000000000000:2\n\
80000000000000000000000000000000000:3\n\
00000000000000000000000000000000000:4\n";
    let contents = shard_file_contents(0x12345, body);
    assert_eq!(
        contents,
        vec![
            0x50, 0x00, 0x00, 0x00, 0x00, 0x00, //
            0x50, 0x00, 0x00, 0x00, 0x00, 0x00, //
            0x58, 0x00, 0x00, 0x00, 0x00, 0x00, //
            0x5F, 0xFF, 0xFF, 0xFF, 0xFF, 0xFF,
        ]
    );
}

#[test]
fn shard_contents_of_empty_listing_is_empty() {
    assert!(shard_file_contents(0, b"").is_empty());
    assert!(shard_file_contents(0, b"\n\n\r\n").is_empty());
}

#[test]
fn shard_contents_keeps_trailing_newline_line() {
    let contents = shard_file_contents(0x00001, b"FFFFFFFFFFFFFFFFFFFFFFFFFFFFFFFFFFF:9\n");
    assert_eq!(contents, vec![0x1F, 0xFF, 0xFF, 0xFF, 0xFF, 0xFF]);
}

#[test]
fn retry_delays_double_and_stop_at_cap() {
    assert_eq!(retry_delay_ms(0), RETRY_BASE_DELAY_MS);
    assert_eq!(retry_delay_ms(1), 200);
    assert_eq!(retry_delay_ms(2), 400);
    assert_eq!(retry_delay_ms(9), 51_200);
    assert_eq!(retry_delay_ms(10), 102_400);
    assert_eq!(retry_delay_ms(11), 102_400);
    assert_eq!(retry_delay_ms(u32::MAX), 102_400);
}

#[test]
fn job_retries_then_writes() {
    let mut job = DownloadJob::new(0xCBFDA);
    let failures = [
        FetchOutcome::Status(503),
        FetchOutcome::RequestFailed("timed out".to_string()),
        FetchOutcome::Status(500),
    ];
    let mut delays = Vec::new();
    for failure in failures {
        match job.on_fetch(failure) {
            JobStep::Retry { delay_ms } => delays.push(delay_ms),
            _ => panic!("a failure below the budget is retried"),
        }
    }
    assert_eq!(delays, vec![200, 400, 800]);
    assert!(delays.windows(2).all(|w| w[0] <= w[1]));
    match job.on_fetch(FetchOutcome::Body(LISTING.to_vec())) {
        JobStep::Write { contents } => assert_eq!(contents.len(), 12),
        _ => panic!("a body is written"),
    }
    assert_eq!(job.fetches(), 4);
    assert_eq!(job.prefix(), 0xCBFDA);
}

#[test]
fn job_with_nine_failures_still_writes() {
    let mut job = DownloadJob::new(7);
    for n in 1..MAX_RETRIES {
        match job.on_fetch(FetchOutcome::Status(429)) {
            JobStep::Retry { delay_ms } => assert_eq!(delay_ms, retry_delay_ms(n)),
            _ => panic!("a failure below the budget is retried"),
        }
    }
    assert!(matches!(job.on_fetch(FetchOutcome::Body(Vec::new())), JobStep::Write { .. }));
    assert_eq!(job.fetches(), MAX_RETRIES);
}

#[test]
fn job_fails_with_last_status_after_budget() {
    let mut job = DownloadJob::new(0xCBFDA);
    for _ in 1..MAX_RETRIES {
        assert!(matches!(job.on_fetch(FetchOutcome::Status(502)), JobStep::Retry { .. }));
    }
    match job.on_fetch(FetchOutcome::Status(503)) {
        JobStep::Fail(e) => {
            assert_eq!(e, Error::HttpStatus { prefix: "CBFDA".to_string(), status: 503 })
        }
        _ => panic!("the last failure fails the job"),
    }
    match job.on_fetch(FetchOutcome::Body(Vec::new())) {
        JobStep::Fail(e) => assert_eq!(
            e,
            Error::MaxRetriesExceeded { prefix: "CBFDA".to_string(), retries: MAX_RETRIES }
        ),
        _ => panic!("a spent job takes no more outcomes"),
    }
    assert_eq!(job.fetches(), MAX_RETRIES);
}

#[test]
fn job_fails_with_last_request_error_after_budget() {
    let mut job = DownloadJob::new(0x00042);
    for _ in 1..MAX_RETRIES {
        assert!(matches!(
            job.on_fetch(FetchOutcome::RequestFailed("reset".to_string())),
            JobStep::Retry { .. }
        ));
    }
    match job.on_fetch(FetchOutcome::RequestFailed("refused".to_string())) {
        JobStep::Fail(e) => assert_eq!(
            e,
            Error::HttpRequest { prefix: "00042".to_string(), message: "refused".to_string() }
        ),
        _ => panic!("the last failure fails the job"),
    }
}

#[test]
fn resume_and_force_together_are_rejected() {
    assert_eq!(check_args(true, true), Err(Error::InvalidArgs));
    assert_eq!(check_args(true, false), Ok(()));
    assert_eq!(check_args(false, true), Ok(()));
    assert_eq!(check_args(false, false), Ok(()));
    assert!(matches!(plan_output(true, true, false, "out"), Err(Error::InvalidArgs)));
    assert!(matches!(plan_output(true, true, true, "out"), Err(Error::InvalidArgs)));
}

#[test]
fn existing_output_needs_resume_or_force() {
    match plan_output(false, false, true, "out") {
        Err(e) => assert_eq!(e, Error::FileExists { path: "out".to_string() }),
        Ok(_) => panic!("a present directory is not used silently"),
    }
    let fresh = plan_output(false, false, false, "out").ok().unwrap();
    assert!(!fresh.remove_existing && !fresh.scan_existing);
    let forced = plan_output(false, true, true, "out").ok().unwrap();
    assert!(forced.remove_existing && !forced.scan_existing);
    let resumed = plan_output(true, false, true, "out").ok().unwrap();
    assert!(!resumed.remove_existing && resumed.scan_existing);
}

#[test]
fn partition_splits_keys_into_ceiling_chunks() {
    let keys: Vec<u32> = (1..=10).collect();
    assert_eq!(partition_keys(&keys, 3), vec![vec![1, 2, 3, 4], vec![5, 6, 7, 8], vec![9, 10]]);
    assert_eq!(partition_keys(&vec![1, 2], 5), vec![vec![1], vec![2]]);
    assert_eq!(partition_keys(&keys, 1), vec![keys.clone()]);
    assert!(partition_keys(&Vec::new(), 4).is_empty());
}

#[test]
fn run_outcome_keeps_first_failure() {
    let mut outcome = RunOutcome::new();
    outcome.record(Ok(()));
    outcome.record(Err(Error::HttpStatus { prefix: "00001".to_string(), status: 500 }));
    outcome.record(Err(Error::Io { message: "disk full".to_string() }));
    outcome.record(Ok(()));
    assert_eq!(
        outcome.finish(),
        Err(Error::HttpStatus { prefix: "00001".to_string(), status: 500 })
    );
}

#[test]
fn run_outcome_succeeds_when_all_succeed() {
    let mut outcome = RunOutcome::new();
    outcome.record(Ok(()));
    outcome.record(Ok(()));
    assert_eq!(outcome.finish(), Ok(()));
    assert_eq!(RunOutcome::new().finish(), Ok(()));
}
