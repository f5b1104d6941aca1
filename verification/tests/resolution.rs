use hbsync::api::{ApiError, Book, DownloadFile, HumbleClientError, Order};
use hbsync::cache::orders_to_rewrite;
use hbsync::cli::{plan_order, resolve_step, OrderPlan, Resolve, ResolveAction, ResolveInput};
use hbsync::downloader::range_refused;
use hbsync::paths::join_path;

fn one_book_order() -> Order {
    Order {
        key: "K1".to_string(),
        title: "Humble Book Bundle: Rust by Acme".to_string(),
        books: vec![Book {
            title: "Learn Rust".to_string(),
            publisher: None,
            files: vec![DownloadFile {
                format: "epub".to_string(),
                url: "https://dl.humble.com/learn_rust.epub?gamekey=K1".to_string(),
                size: Some(10),
                md5: None,
            }],
        }],
    }
}

#[test]
fn plan_uses_cache_only_when_complete() {
    assert_eq!(plan_order(false, true, Some(&vec![true, true])), OrderPlan::FromCache);
    assert_eq!(
        plan_order(false, true, Some(&vec![true, false])),
        OrderPlan::Fetch { write_back: true }
    );
    assert_eq!(plan_order(true, true, Some(&vec![true])), OrderPlan::Fetch { write_back: true });
    assert_eq!(plan_order(false, true, None), OrderPlan::Fetch { write_back: true });
    assert_eq!(plan_order(false, false, None), OrderPlan::Fetch { write_back: false });
}

#[test]
fn warm_cache_answers_without_a_request() {
    let begin = ResolveInput::Begin { refresh: false, has_cache_dir: true, cached_present: Some(vec![true]) };
    let (state, action) = resolve_step(Resolve::Start, begin, "/out", None);
    assert_eq!(state, Resolve::Done);
    assert!(matches!(action, ResolveAction::AnswerFromCache));
}

#[test]
fn refresh_requests_once_and_writes_back() {
    let begin = ResolveInput::Begin { refresh: true, has_cache_dir: true, cached_present: Some(vec![true]) };
    let (state, action) = resolve_step(Resolve::Start, begin, "/out", None);
    assert_eq!(state, Resolve::Awaiting { write_back: true });
    assert!(matches!(action, ResolveAction::FetchOrder));
    let (state, action) = resolve_step(state, ResolveInput::Fetched(Ok(one_book_order())), "/out", None);
    assert_eq!(state, Resolve::Done);
    match action {
        ResolveAction::Answer { order, tasks, write_back } => {
            assert!(write_back);
            assert_eq!(order.key, "K1");
            assert_eq!(tasks.len(), 1);
            assert_eq!(tasks[0].dest, "/out/Acme/Rust/epub/learn_rust.epub");
        }
        _ => panic!("a fetched order is answered"),
    }
    let again = ResolveInput::Fetched(Ok(one_book_order()));
    let (state, action) = resolve_step(state, again, "/out", None);
    assert_eq!(state, Resolve::Done);
    assert!(matches!(action, ResolveAction::Ignore));
}

#[test]
fn failed_request_is_passed_on_without_write_back() {
    let begin = ResolveInput::Begin { refresh: false, has_cache_dir: false, cached_present: None };
    let (state, action) = resolve_step(Resolve::Start, begin, "/out", None);
    assert_eq!(state, Resolve::Awaiting { write_back: false });
    assert!(matches!(action, ResolveAction::FetchOrder));
    let err = HumbleClientError::Api(ApiError::NotFound("https://x/order/K1".to_string()));
    let (state, action) = resolve_step(state, ResolveInput::Fetched(Err(err)), "/out", None);
    assert_eq!(state, Resolve::Done);
    assert!(matches!(action, ResolveAction::Fail(HumbleClientError::Api(ApiError::NotFound(ref u))) if u == "https://x/order/K1"));
}

#[test]
fn reports_out_of_turn_are_ignored() {
    let (state, action) = resolve_step(Resolve::Start, ResolveInput::Fetched(Ok(one_book_order())), "/out", None);
    assert_eq!(state, Resolve::Start);
    assert!(matches!(action, ResolveAction::Ignore));
    let begin = ResolveInput::Begin { refresh: false, has_cache_dir: true, cached_present: None };
    let (state, action) = resolve_step(Resolve::Awaiting { write_back: true }, begin, "/out", None);
    assert_eq!(state, Resolve::Awaiting { write_back: true });
    assert!(matches!(action, ResolveAction::Ignore));
}

#[test]
fn refused_range_is_only_a_416_to_a_resume() {
    assert!(range_refused(Some(100), 416));
    assert!(!range_refused(None, 416));
    assert!(!range_refused(Some(100), 206));
    assert!(!range_refused(Some(0), 200));
}

#[test]
fn only_orders_with_corrected_results_are_rewritten() {
    let owners = vec![0, 2, 2, 1];
    let corrected = vec![false, true, false, false];
    assert_eq!(orders_to_rewrite(3, &owners, &corrected), vec![false, false, true]);
    assert_eq!(orders_to_rewrite(2, &vec![], &vec![]), vec![false, false]);
}

#[test]
fn joining_follows_unix_paths() {
    assert_eq!(join_path("/out", "a"), "/out/a");
    assert_eq!(join_path("/out/", "a"), "/out/a");
    assert_eq!(join_path("", "a"), "a");
    assert_eq!(join_path("/out", "/abs"), "/abs");
    assert_eq!(join_path("a", ""), "a/");
}
