use hbsync::downloader::{
    md5_feed, md5_finish, md5_start, ReceivedFile, after_failed_attempt, announced_total, is_retryable, metadata_stale, present_on_disk, tally,
    transfer_start, verify_download, DownloadResult, DownloadTask, FailureKind, IntegrityError,
    RetryStep, Status, TransferStart,
};

fn task(size: Option<u64>, md5: Option<&str>) -> DownloadTask {
    DownloadTask {
        url: "https://dl.test/a.epub".to_string(),
        dest: "/out/a.epub".to_string(),
        size,
        md5: md5.map(str::to_string),
    }
}

#[test]
fn presence_depends_on_size_only_when_known() {
    assert!(!present_on_disk(&task(Some(10), None), None));
    assert!(present_on_disk(&task(Some(10), None), Some(10)));
    assert!(!present_on_disk(&task(Some(10), None), Some(3)));
    assert!(present_on_disk(&task(None, None), Some(8)));
}

#[test]
fn verify_accepts_matching_size_and_md5() {
    let t = task(Some(17), Some("abc"));
    assert_eq!(verify_download(&t, Some(17), 17, "abc").unwrap().is_none(), true);
    assert_eq!(verify_download(&t, None, 17, "abc").unwrap().is_none(), true);
}

#[test]
fn verify_rejects_truncation_against_announced_length() {
    let t = task(Some(17), Some("abc"));
    assert_eq!(
        verify_download(&t, Some(17), 5, "abc").unwrap_err(),
        IntegrityError::SizeMismatch { actual: 5, expected: 17 }
    );
    // without a Content-Length the order size is the reference
    assert_eq!(
        verify_download(&t, None, 5, "abc").unwrap_err(),
        IntegrityError::SizeMismatch { actual: 5, expected: 17 }
    );
}

#[test]
fn verify_rejects_md5_mismatch() {
    let t = task(Some(17), Some(&"0".repeat(32)));
    assert_eq!(verify_download(&t, Some(17), 17, "abc").unwrap_err(), IntegrityError::Md5Mismatch);
}

#[test]
fn stale_metadata_yields_corrections_instead_of_failure() {
    let t = task(Some(1017), Some(&"0".repeat(32)));
    assert!(metadata_stale(Some(1017), Some(17)));
    assert!(!metadata_stale(None, Some(17)));
    assert!(!metadata_stale(Some(17), None));
    let corrected = verify_download(&t, Some(17), 17, "abc").unwrap().unwrap();
    assert_eq!(corrected.size, 17);
    assert_eq!(corrected.md5, "abc");
}

#[test]
fn retry_only_what_can_help() {
    assert!(is_retryable(&FailureKind::Transport));
    assert!(is_retryable(&FailureKind::HttpStatus(500)));
    assert!(is_retryable(&FailureKind::HttpStatus(503)));
    assert!(is_retryable(&FailureKind::HttpStatus(429)));
    assert!(!is_retryable(&FailureKind::HttpStatus(404)));
    assert!(!is_retryable(&FailureKind::HttpStatus(403)));
    assert!(is_retryable(&FailureKind::Integrity(IntegrityError::SizeMismatch { actual: 1, expected: 2 })));
    assert!(!is_retryable(&FailureKind::Integrity(IntegrityError::Md5Mismatch)));
    assert!(!is_retryable(&FailureKind::LocalIo));
    assert!(!is_retryable(&FailureKind::Refused));
}

#[test]
fn retries_use_each_backoff_once_then_give_up() {
    let kind = FailureKind::HttpStatus(503);
    assert_eq!(after_failed_attempt(0, 3, &kind), RetryStep::Wait(0));
    assert_eq!(after_failed_attempt(1, 3, &kind), RetryStep::Wait(1));
    assert_eq!(after_failed_attempt(2, 3, &kind), RetryStep::Wait(2));
    assert_eq!(after_failed_attempt(3, 3, &kind), RetryStep::GiveUp);
    assert_eq!(after_failed_attempt(0, 0, &kind), RetryStep::GiveUp);
    assert_eq!(after_failed_attempt(0, 3, &FailureKind::HttpStatus(404)), RetryStep::GiveUp);
}

#[test]
fn attempts_with_three_backoffs_are_four() {
    let kind = FailureKind::Transport;
    let mut attempts = 1;
    let mut attempt = 0usize;
    while let RetryStep::Wait(_) = after_failed_attempt(attempt, 3, &kind) {
        attempt += 1;
        attempts += 1;
    }
    assert_eq!(attempts, 4);
}

#[test]
fn ranged_responses_append_only_on_206() {
    assert_eq!(transfer_start(Some(100), 206), TransferStart::Append(100));
    assert_eq!(transfer_start(Some(100), 200), TransferStart::Fresh);
    assert_eq!(transfer_start(None, 206), TransferStart::Fresh);
    assert_eq!(announced_total(TransferStart::Append(100), Some(23)), Some(123));
    assert_eq!(announced_total(TransferStart::Append(100), None), None);
    assert_eq!(announced_total(TransferStart::Append(u64::MAX), Some(1)), None);
    assert_eq!(announced_total(TransferStart::Fresh, Some(23)), Some(23));
}

#[test]
fn tally_counts_each_status() {
    let result = |status: Status| DownloadResult { task: task(None, None), status, corrected: None };
    let results = vec![
        result(Status::Downloaded),
        result(Status::Skipped),
        result(Status::Failed("md5 mismatch".to_string())),
        result(Status::Downloaded),
    ];
    assert_eq!(tally(&results), (2, 1, 1));
    assert_eq!(tally(&Vec::new()), (0, 0, 0));
}

#[test]
fn a_verified_download_counts_as_present() {
    let t = task(Some(17), Some("abc"));
    assert!(verify_download(&t, Some(17), 17, "abc").unwrap().is_none());
    assert!(present_on_disk(&t, Some(17)));
}

#[test]
fn md5_of_chunks_equals_md5_of_whole() {
    let mut stream = md5_start();
    md5_feed(&mut stream, b"hello ");
    md5_feed(&mut stream, b"ebook world");
    assert_eq!(md5_finish(stream), "009cfde55293faf88973964ac9b5bf91");
    assert_eq!(md5_finish(md5_start()), "d41d8cd98f00b204e9800998ecf8427e");
}

#[test]
fn received_file_is_checked_with_its_own_count_and_digest() {
    let t = task(Some(17), Some("009cfde55293faf88973964ac9b5bf91"));
    let (received, ok) = ReceivedFile::new().receive(b"hello ebook");
    assert!(ok);
    let (received, ok) = received.receive(b" world");
    assert!(ok);
    assert!(received.finish(&t, Some(17)).unwrap().is_none());

    let (partial, _) = ReceivedFile::new().receive(b"hello");
    assert_eq!(
        partial.finish(&t, Some(17)).unwrap_err(),
        IntegrityError::SizeMismatch { actual: 5, expected: 17 }
    );

    let wrong = task(Some(17), Some(&"0".repeat(32)));
    let (received, _) = ReceivedFile::new().receive(b"hello ebook world");
    assert_eq!(received.finish(&wrong, Some(17)).unwrap_err(), IntegrityError::Md5Mismatch);
}
