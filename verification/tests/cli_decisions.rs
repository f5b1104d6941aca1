use hbsync::auth::{accept_session_value, cookie_from_sources, profile_search_order, EMPTY_STDIN_MSG};
use hbsync::cli::{cached_order_suffices, exit_status, parse_formats, parse_key, preflight_counts};

#[test]
fn parse_key_reads_bare_keys_and_urls() {
    assert_eq!(parse_key("CWPBwb82sqPXqEsq"), "CWPBwb82sqPXqEsq");
    assert_eq!(
        parse_key("https://www.humblebundle.com/downloads?key=CWPBwb82sqPXqEsq&guard=x"),
        "CWPBwb82sqPXqEsq"
    );
    assert_eq!(parse_key("https://www.humblebundle.com/downloads?key=ABC"), "ABC");
    assert_eq!(parse_key("https://x/?key=&key=ABC"), "https://x/?key=&key=ABC");
    assert_eq!(parse_key("key=é"), "key=é");
}

#[test]
fn formats_are_trimmed_lowercased_and_unique() {
    let mut f = parse_formats(" EPUB, pdf,,epub ,  ");
    f.sort();
    assert_eq!(f, vec!["epub", "pdf"]);
    assert!(parse_formats("").is_empty());
    assert_eq!(parse_formats("Mobi"), vec!["mobi"]);
}

#[test]
fn cache_answers_only_when_everything_is_present() {
    assert!(cached_order_suffices(false, Some(&vec![true, true])));
    assert!(cached_order_suffices(false, Some(&vec![])));
    assert!(!cached_order_suffices(false, Some(&vec![true, false])));
    assert!(!cached_order_suffices(true, Some(&vec![true])));
    assert!(!cached_order_suffices(false, None));
}

#[test]
fn preflight_and_exit_status() {
    assert_eq!(preflight_counts(&vec![true, false, false]), (3, 1, 2));
    assert_eq!(preflight_counts(&vec![]), (0, 0, 0));
    assert_eq!(exit_status(0, 0), 0);
    assert_eq!(exit_status(1, 0), 1);
    assert_eq!(exit_status(0, 2), 1);
}

#[test]
fn cookie_sources_follow_precedence() {
    assert_eq!(cookie_from_sources(Some(" sekrit\n"), Some("flag"), Some("env")).unwrap().as_deref(), Some("sekrit"));
    assert_eq!(cookie_from_sources(Some("  \n"), Some("flag"), None).unwrap_err().0, EMPTY_STDIN_MSG);
    assert_eq!(cookie_from_sources(None, Some("flag"), Some("env")).unwrap().as_deref(), Some("flag"));
    assert_eq!(cookie_from_sources(None, None, Some("env")).unwrap().as_deref(), Some("env"));
    assert_eq!(cookie_from_sources(None, None, Some("")).unwrap(), None);
    assert_eq!(cookie_from_sources(None, None, None).unwrap(), None);
}

#[test]
fn profiles_are_searched_newest_first() {
    assert_eq!(profile_search_order(&vec![5, 9, 5]), vec![1, 2, 0]);
    assert_eq!(profile_search_order(&vec![]), Vec::<usize>::new());
    assert_eq!(profile_search_order(&vec![1, 2, 3, 4]), vec![3, 2, 1, 0]);
}

#[test]
fn parse_key_is_idempotent_on_samples() {
    for arg in [
        "CWPBwb82sqPXqEsq",
        "https://www.humblebundle.com/downloads?key=ABC123&x=1",
        "key=",
        "x?key=key=Z",
    ] {
        let once = parse_key(arg);
        assert_eq!(parse_key(&once), once);
    }
}

#[test]
fn empty_session_values_are_skipped() {
    assert_eq!(accept_session_value(Some("sekrit")).as_deref(), Some("sekrit"));
    assert_eq!(accept_session_value(Some("")), None);
    assert_eq!(accept_session_value(None), None);
}
