//! Download tasks and the decisions around them: when a file already counts
//! as present, whether a finished transfer is intact, and when to retry.
use vstd::prelude::*;

use crate::paths::{file_name_of, path_file_name, path_with_file_name, with_file_name};
use crate::text::{opt_view, str_eq};

verus! {

/// One file to fetch: where from, where to, and what the order says of it.
#[derive(Debug, Clone)]
pub struct DownloadTask {
    pub url: String,
    pub dest: String,
    pub size: Option<u64>,
    pub md5: Option<String>,
}

pub struct DownloadTaskView {
    pub url: Seq<char>,
    pub dest: Seq<char>,
    pub size: Option<u64>,
    pub md5: Option<Seq<char>>,
}

impl View for DownloadTask {
    type V = DownloadTaskView;

    open spec fn view(&self) -> DownloadTaskView {
        DownloadTaskView { url: self.url@, dest: self.dest@, size: self.size, md5: opt_view(self.md5) }
    }
}

/// How a task ended.
#[derive(Debug, Clone, PartialEq, Eq)]
pub enum Status {
    Downloaded,
    Skipped,
    Failed(String),
}

/// The size/md5 actually observed for a download whose result disagreed
/// with the order metadata the task was built from. Callers that persist
/// order metadata should patch it with these values so future runs
/// recognize the file as already present.
#[derive(Debug, Clone)]
pub struct CorrectedMetadata {
    pub size: u64,
    pub md5: String,
}

#[derive(Debug, Clone)]
pub struct DownloadResult {
    pub task: DownloadTask,
    pub status: Status,
    pub corrected: Option<CorrectedMetadata>,
}

/// Why a finished transfer was rejected.
#[derive(Debug, Clone, PartialEq, Eq)]
pub enum IntegrityError {
    SizeMismatch { actual: u64, expected: u64 },
    Md5Mismatch,
}

/// A file of `file_len` bytes at the destination counts as the task's file
/// when the order names no size or names exactly that size.
pub open spec fn spec_present(task: DownloadTaskView, file_len: Option<u64>) -> bool {
    match file_len {
        Some(len) => match task.size {
            Some(size) => len == size,
            None => true,
        },
        None => false,
    }
}

/// Whether a task's destination, found with length `file_len` (`None` when
/// nothing is there), already holds the file.
pub fn present_on_disk(task: &DownloadTask, file_len: Option<u64>) -> (res: bool)
    ensures
        res == spec_present(task@, file_len),
{
    match file_len {
        Some(len) => match task.size {
            Some(size) => len == size,
            None => true,
        },
        None => false,
    }
}

/// The order metadata is stale when the response announces a total length
/// other than the size the order named.
pub open spec fn spec_metadata_stale(expected_size: Option<u64>, announced: Option<u64>) -> bool {
    match (expected_size, announced) {
        (Some(s), Some(c)) => s != c,
        _ => false,
    }
}

/// Whether the order's size disagrees with the announced length.
pub fn metadata_stale(expected_size: Option<u64>, announced: Option<u64>) -> (res: bool)
    ensures
        res == spec_metadata_stale(expected_size, announced),
{
    match (expected_size, announced) {
        (Some(s), Some(c)) => s != c,
        _ => false,
    }
}

/// The verdict on a finished file of `actual_size` bytes with MD5 hex
/// digest `digest`: the announced total length (or, without one, the
/// order's size) must match; then, when the order metadata is stale, the observed
/// size and digest are returned as corrections, and otherwise the order's
/// MD5, if any, must match.
pub open spec fn spec_verify_download(
    task: DownloadTaskView,
    announced: Option<u64>,
    actual_size: u64,
    digest: Seq<char>,
) -> Result<Option<(u64, Seq<char>)>, IntegrityError> {
    let expected = match announced {
        Some(c) => Some(c),
        None => task.size,
    };
    if expected is Some && expected->0 != actual_size {
        Err(IntegrityError::SizeMismatch { actual: actual_size, expected: expected->0 })
    } else if spec_metadata_stale(task.size, announced) {
        Ok(Some((actual_size, digest)))
    } else if task.md5 is Some && task.md5->0 != digest {
        Err(IntegrityError::Md5Mismatch)
    } else {
        Ok(None)
    }
}

/// Checks a finished file against the task and the length the response
/// announced.
pub fn verify_download(
    task: &DownloadTask,
    announced: Option<u64>,
    actual_size: u64,
    digest: &str,
) -> (res: Result<Option<CorrectedMetadata>, IntegrityError>)
    ensures
        match (res, spec_verify_download(task@, announced, actual_size, digest@)) {
            (Ok(Some(c)), Ok(Some(s))) => c.size == s.0 && c.md5@ == s.1,
            (Ok(None), Ok(None)) => true,
            (Err(e), Err(f)) => e == f,
            _ => false,
        },
{
    let stale = metadata_stale(task.size, announced);
    let expected = match announced {
        Some(c) => Some(c),
        None => task.size,
    };
    if let Some(expected) = expected {
        if actual_size != expected {
            return Err(IntegrityError::SizeMismatch { actual: actual_size, expected });
        }
    }
    if stale {
        Ok(Some(CorrectedMetadata { size: actual_size, md5: String::from_str(digest) }))
    } else {
        if let Some(expected_md5) = &task.md5 {
            if !str_eq(digest, expected_md5.as_str()) {
                return Err(IntegrityError::Md5Mismatch);
            }
        }
        Ok(None)
    }
}

/// Why an attempt failed.
#[derive(Debug, Clone, PartialEq, Eq)]
pub enum FailureKind {
    /// The connection failed, timed out, or broke off mid-transfer.
    Transport,
    /// The server answered with this non-success status.
    HttpStatus(u16),
    /// The transfer finished but failed its integrity check.
    Integrity(IntegrityError),
    /// Writing the file locally failed.
    LocalIo,
    /// The URL may not be fetched (plaintext and not on loopback).
    Refused,
}

/// Retrying can help after connection errors, timeouts, 5xx, 429 and
/// truncated transfers; it cannot after other statuses (404), a checksum
/// that disagrees, a local write error or a refused URL.
pub open spec fn spec_retryable(kind: FailureKind) -> bool {
    match kind {
        FailureKind::Transport => true,
        FailureKind::HttpStatus(s) => s == 429 || (500 <= s && s <= 599),
        FailureKind::Integrity(IntegrityError::SizeMismatch { .. }) => true,
        FailureKind::Integrity(IntegrityError::Md5Mismatch) => false,
        FailureKind::LocalIo => false,
        FailureKind::Refused => false,
    }
}

/// Whether retrying could plausibly help after a failure of this kind.
pub fn is_retryable(kind: &FailureKind) -> (res: bool)
    ensures
        res == spec_retryable(*kind),
{
    match kind {
        FailureKind::Transport => true,
        FailureKind::HttpStatus(s) => *s == 429 || (500 <= *s && *s <= 599),
        FailureKind::Integrity(IntegrityError::SizeMismatch { .. }) => true,
        FailureKind::Integrity(IntegrityError::Md5Mismatch) => false,
        FailureKind::LocalIo => false,
        FailureKind::Refused => false,
    }
}

/// What to do after attempt number `attempt` (counting from 0) failed.
#[derive(Debug, Clone, Copy, PartialEq, Eq)]
pub enum RetryStep {
    /// Sleep for the backoff at this index, then try again.
    Wait(usize),
    /// Report the failure.
    GiveUp,
}

/// After a failed attempt, retry while backoff delays remain, unless
/// retrying cannot help.
pub fn after_failed_attempt(attempt: usize, backoff_len: usize, kind: &FailureKind) -> (res:
    RetryStep)
    ensures
        res == if spec_retryable(*kind) && attempt < backoff_len {
            RetryStep::Wait(attempt)
        } else {
            RetryStep::GiveUp
        },
        attempt < backoff_len && match *kind {
            FailureKind::HttpStatus(s) => s == 429 || (500 <= s && s <= 599),
            FailureKind::Transport => true,
            _ => false,
        } ==> res == RetryStep::Wait(attempt),
{
    if is_retryable(kind) && attempt < backoff_len {
        RetryStep::Wait(attempt)
    } else {
        RetryStep::GiveUp
    }
}

/// The attempts made, from attempt `attempt` on, for a task whose every
/// attempt fails with a failure of kind `kind`, following
/// `after_failed_attempt`.
pub open spec fn attempts_until_give_up(attempt: nat, backoff_len: nat, kind: FailureKind) -> nat
    decreases backoff_len - attempt,
{
    if spec_retryable(kind) && attempt < backoff_len {
        1 + attempts_until_give_up(attempt + 1, backoff_len, kind)
    } else {
        1
    }
}

/// A task that keeps failing in a way retrying can help is tried exactly
/// once more than there are backoff delays (the first try and one retry
/// after each delay); one whose failure retrying cannot help is tried once.
pub proof fn law_retry_budget(backoff_len: nat, kind: FailureKind)
    ensures
        spec_retryable(kind) ==> attempts_until_give_up(0, backoff_len, kind) == backoff_len + 1,
        !spec_retryable(kind) ==> attempts_until_give_up(0, backoff_len, kind) == 1,
{
    lemma_attempts_from(0, backoff_len, kind);
}

/// Which failures are worth another try: connection errors, timeouts and
/// broken-off transfers, every 5xx status and 429, and a transfer whose
/// size came out wrong; never any other status (404 among them), a
/// checksum that disagrees, a local write error or a refused URL. So while
/// backoff delays remain, exactly the former are retried.
pub proof fn law_retry_when_it_can_help(status: u16)
    ensures
        spec_retryable(FailureKind::HttpStatus(status)) <==> (status == 429 || (500 <= status
            && status <= 599)),
        spec_retryable(FailureKind::Transport),
        forall|e: u64, a: u64|
            #[trigger] spec_retryable(
                FailureKind::Integrity(IntegrityError::SizeMismatch { actual: a, expected: e }),
            ),
        !spec_retryable(FailureKind::Integrity(IntegrityError::Md5Mismatch)),
        !spec_retryable(FailureKind::LocalIo),
        !spec_retryable(FailureKind::Refused),
        !spec_retryable(FailureKind::HttpStatus(404)),
{
}

proof fn lemma_attempts_from(attempt: nat, backoff_len: nat, kind: FailureKind)
    requires
        attempt <= backoff_len,
    ensures
        spec_retryable(kind) ==> attempts_until_give_up(attempt, backoff_len, kind) == backoff_len
            - attempt + 1,
    decreases backoff_len - attempt,
{
    if attempt < backoff_len {
        lemma_attempts_from(attempt + 1, backoff_len, kind);
    }
}

/// Where a transfer's bytes start in the destination file.
#[derive(Debug, Clone, Copy, PartialEq, Eq)]
pub enum TransferStart {
    /// The server sent the rest of the file after this many bytes already
    /// in the `.part` file; the response is appended to them.
    Append(u64),
    /// The response is the whole file; the `.part` file starts empty.
    Fresh,
}

/// How to treat a response: a `206 Partial Content` answer to a ranged
/// request continues the `.part` file, anything else replaces it.
pub fn transfer_start(requested_from: Option<u64>, status: u16) -> (res: TransferStart)
    ensures
        res == match requested_from {
            Some(n) => if status == 206 {
                TransferStart::Append(n)
            } else {
                TransferStart::Fresh
            },
            None => TransferStart::Fresh,
        },
{
    match requested_from {
        Some(n) => if status == 206 {
            TransferStart::Append(n)
        } else {
            TransferStart::Fresh
        },
        None => TransferStart::Fresh,
    }
}

/// A ranged request answered `416 Range Not Satisfiable`: the leftover
/// `.part` cannot be continued, so the download starts over without a range.
pub fn range_refused(requested_from: Option<u64>, status: u16) -> (res: bool)
    ensures
        res == (requested_from is Some && status == 416),
{
    requested_from.is_some() && status == 416
}

/// The length the whole file will have according to the response: its
/// `Content-Length`, plus the bytes already on disk when appending (none
/// when the sum does not fit in `u64`).
pub fn announced_total(start: TransferStart, content_length: Option<u64>) -> (res: Option<u64>)
    ensures
        res == match (start, content_length) {
            (TransferStart::Fresh, c) => c,
            (TransferStart::Append(n), Some(c)) => if n + c <= u64::MAX {
                Some((n + c) as u64)
            } else {
                None
            },
            (TransferStart::Append(_), None) => None,
        },
{
    match (start, content_length) {
        (TransferStart::Fresh, c) => c,
        (TransferStart::Append(n), Some(c)) => n.checked_add(c),
        (TransferStart::Append(_), None) => None,
    }
}

/// The file name of the temporary `.part` file for a destination whose file
/// name is `file_name`.
pub fn part_file_name(file_name: Option<String>) -> (res: String)
    ensures
        res@ == (match opt_view(file_name) {
            Some(n) => n,
            None => Seq::empty(),
        }) + ".part"@,
{
    let mut name = match file_name {
        Some(n) => n,
        None => String::new(),
    };
    name.append(".part");
    name
}

/// Where a download is streamed before it is renamed to `dest`: the same
/// directory, with `.part` appended to the file name.
pub fn part_path_for(dest: &str) -> (res: String)
    ensures
        res@ == path_with_file_name(
            dest@,
            (match path_file_name(dest@) {
                Some(n) => n,
                None => Seq::empty(),
            }) + ".part"@,
        ),
{
    let name = part_file_name(file_name_of(dest));
    with_file_name(dest, name.as_str())
}

/// The number of statuses of each kind: (downloaded, skipped, failed).
pub open spec fn spec_tally(statuses: Seq<Status>) -> (nat, nat, nat)
    decreases statuses.len(),
{
    if statuses.len() == 0 {
        (0, 0, 0)
    } else {
        let t = spec_tally(statuses.drop_last());
        match statuses.last() {
            Status::Downloaded => (t.0 + 1, t.1, t.2),
            Status::Skipped => (t.0, t.1 + 1, t.2),
            Status::Failed(_) => (t.0, t.1, t.2 + 1),
        }
    }
}

pub open spec fn result_statuses(results: Seq<DownloadResult>) -> Seq<Status> {
    results.map_values(|r: DownloadResult| r.status)
}

proof fn lemma_tally_bound(statuses: Seq<Status>)
    ensures
        spec_tally(statuses).0 + spec_tally(statuses).1 + spec_tally(statuses).2 == statuses.len(),
    decreases statuses.len(),
{
    if statuses.len() > 0 {
        lemma_tally_bound(statuses.drop_last());
    }
}

/// Counts the downloaded, skipped and failed results.
pub fn tally(results: &Vec<DownloadResult>) -> (res: (usize, usize, usize))
    ensures
        res.0 == spec_tally(result_statuses(results@)).0,
        res.1 == spec_tally(result_statuses(results@)).1,
        res.2 == spec_tally(result_statuses(results@)).2,
        res.0 + res.1 + res.2 == results.len(),
{
    let mut downloaded: usize = 0;
    let mut skipped: usize = 0;
    let mut failed: usize = 0;
    let mut i: usize = 0;
    while i < results.len()
        invariant
            i <= results.len(),
            (downloaded as nat, skipped as nat, failed as nat) == spec_tally(
                result_statuses(results@.take(i as int)),
            ),
            downloaded + skipped + failed == i,
        decreases results.len() - i,
    {
        proof {
            assert(result_statuses(results@.take(i + 1)).drop_last() =~= result_statuses(
                results@.take(i as int),
            ));
        }
        match &results[i].status {
            Status::Downloaded => downloaded = downloaded + 1,
            Status::Skipped => skipped = skipped + 1,
            Status::Failed(_) => failed = failed + 1,
        }
        i = i + 1;
    }
    assert(results@.take(results.len() as int) =~= results@);
    proof {
        lemma_tally_bound(result_statuses(results@));
    }
    (downloaded, skipped, failed)
}

} // verus!

verus! {

/// A download that passes its check with nothing to correct leaves a file
/// that counts as present, so the next run skips it.
pub proof fn law_verified_download_is_present(
    task: DownloadTaskView,
    announced: Option<u64>,
    actual_size: u64,
    digest: Seq<char>,
)
    ensures
        spec_verify_download(task, announced, actual_size, digest) == Ok::<
            Option<(u64, Seq<char>)>,
            IntegrityError,
        >(None) ==> spec_present(task, Some(actual_size)),
{
}

} // verus!

verus! {

/// An MD5 computation in progress (the `md-5` crate's `Md5` hasher). It
/// is known only through `md5_fed`, the bytes fed to it so far.
#[verifier::external_body]
pub struct Md5Stream {
    inner: md5::Md5,
}

/// The bytes fed to an MD5 computation so far.
pub uninterp spec fn md5_fed(stream: Md5Stream) -> Seq<u8>;

/// The MD5 digest of `bytes`, written as lowercase hex.
pub uninterp spec fn md5_hex(bytes: Seq<u8>) -> Seq<char>;

/// Calls `Md5::new` of the `md-5` crate; the contract claims that no bytes
/// have been fed yet.
#[verifier::external_body]
pub fn md5_start() -> (stream: Md5Stream)
    ensures
        md5_fed(stream) == Seq::<u8>::empty(),
{
    Md5Stream { inner: <md5::Md5 as md5::Digest>::new() }
}

/// Calls `Digest::update` on the hasher; the contract claims that `chunk`
/// is appended to the bytes fed.
#[verifier::external_body]
pub fn md5_feed(stream: &mut Md5Stream, chunk: &[u8])
    ensures
        md5_fed(*final(stream)) == md5_fed(*old(stream)) + chunk@,
{
    md5::Digest::update(&mut stream.inner, chunk);
}

/// Calls `Digest::finalize` and writes the digest in lowercase hex; the
/// contract names the result (`md5_hex` of the bytes fed) without restating
/// the MD5 algorithm.
#[verifier::external_body]
pub fn md5_finish(stream: Md5Stream) -> (digest: String)
    ensures
        digest@ == md5_hex(md5_fed(stream)),
{
    format!("{:x}", md5::Digest::finalize(stream.inner))
}

/// The bytes of a download as they are written to its `.part` file: their
/// count and their MD5 digest always describe the same bytes.
pub struct ReceivedFile {
    digest: Md5Stream,
    written: u64,
}

impl ReceivedFile {
    #[verifier::type_invariant]
    spec fn counted(self) -> bool {
        self.written == md5_fed(self.digest).len()
    }

    /// The bytes received so far, in order.
    pub closed spec fn bytes(self) -> Seq<u8> {
        md5_fed(self.digest)
    }

    /// Nothing received yet.
    pub fn new() -> (res: ReceivedFile)
        ensures
            res.bytes() == Seq::<u8>::empty(),
    {
        ReceivedFile { digest: md5_start(), written: 0 }
    }

    /// Adds `chunk` after the bytes received so far. Returns `false`, and
    /// keeps the bytes as they were, only when the total would not fit in
    /// a `u64`.
    pub fn receive(self, chunk: &[u8]) -> (res: (ReceivedFile, bool))
        ensures
            res.1 ==> res.0.bytes() == self.bytes() + chunk@,
            !res.1 ==> res.0.bytes() == self.bytes() && self.bytes().len() + chunk@.len()
                > u64::MAX,
    {
        proof {
            use_type_invariant(&self);
        }
        let ReceivedFile { digest, written } = self;
        let n = chunk.len() as u64;
        if n > u64::MAX - written {
            return (ReceivedFile { digest, written }, false);
        }
        let mut digest = digest;
        md5_feed(&mut digest, chunk);
        (ReceivedFile { digest, written: written + n }, true)
    }

    /// Checks the received file against the task and the length the
    /// response announced, with the count and digest of exactly the bytes
    /// received.
    pub fn finish(self, task: &DownloadTask, announced: Option<u64>) -> (res: Result<
        Option<CorrectedMetadata>,
        IntegrityError,
    >)
        ensures
            match (
                res,
                spec_verify_download(
                    task@,
                    announced,
                    self.bytes().len() as u64,
                    md5_hex(self.bytes()),
                ),
            ) {
                (Ok(Some(c)), Ok(Some(s))) => c.size == s.0 && c.md5@ == s.1,
                (Ok(None), Ok(None)) => true,
                (Err(e), Err(f)) => e == f,
                _ => false,
            },
    {
        proof {
            use_type_invariant(&self);
        }
        let ReceivedFile { digest, written } = self;
        let hex = md5_finish(digest);
        verify_download(task, announced, written, hex.as_str())
    }
}

} // verus!
