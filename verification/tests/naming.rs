use hbsync::naming::{parse_bundle_title, sanitize};
use hbsync::text::is_whitespace;
use hbsync::urls::API_BASE;

#[test]
fn full_pattern_publisher_and_bundle() {
    let (pub_, bundle) = parse_bundle_title(
        "Humble Tech Book Bundle: Intelligent Agents: \
         Agentic AI and Large Language Models by Apress",
    );
    assert_eq!(pub_.as_deref(), Some("Apress"));
    assert_eq!(bundle, "Agentic AI and Large Language Models");
}

#[test]
fn no_publisher_suffix() {
    assert_eq!(
        parse_bundle_title("Humble Book Bundle: Cybersecurity 2.0"),
        (None, "Cybersecurity 2.0".to_string())
    );
}

#[test]
fn no_colon_at_all() {
    assert_eq!(
        parse_bundle_title("Some Standalone Purchase"),
        (None, "Some Standalone Purchase".to_string())
    );
}

#[test]
fn by_without_colon() {
    assert_eq!(
        parse_bundle_title("Data Science by O'Reilly"),
        (Some("O'Reilly".to_string()), "Data Science".to_string())
    );
}

#[test]
fn last_by_wins() {
    assert_eq!(
        parse_bundle_title("Web Development by Example by SitePoint"),
        (
            Some("SitePoint".to_string()),
            "Web Development by Example".to_string()
        )
    );
}

#[test]
fn sanitize_replaces_slash() {
    assert_eq!(sanitize("AC/DC: Guide"), "AC_DC: Guide");
}

#[test]
fn sanitize_collapses_whitespace_and_trailing_dots() {
    assert_eq!(sanitize("  Foo   Bar. "), "Foo Bar");
}

#[test]
fn sanitize_never_returns_empty() {
    assert_eq!(sanitize("..."), "Unnamed");
}

#[test]
fn api_base_uses_www_host() {
    assert!(API_BASE.contains("www.humblebundle.com"));
}

#[test]
fn whitespace_test_agrees_with_std_for_every_char() {
    for code in 0u32..=0x10FFFF {
        if let Some(c) = char::from_u32(code) {
            assert_eq!(is_whitespace(c), c.is_whitespace(), "U+{code:04X}");
        }
    }
}

#[test]
fn sanitize_replaces_nul_and_collapses_unicode_whitespace() {
    assert_eq!(sanitize("a\0b"), "a_b");
    assert_eq!(sanitize("Foo\u{2003}\t\nBar"), "Foo Bar");
    assert_eq!(sanitize("\u{3000}lead and trail\u{a0}"), "lead and trail");
}

#[test]
fn sanitize_dot_directories_become_unnamed() {
    assert_eq!(sanitize(""), "Unnamed");
    assert_eq!(sanitize("."), "Unnamed");
    assert_eq!(sanitize(".."), "Unnamed");
    assert_eq!(sanitize("   "), "Unnamed");
    assert_eq!(sanitize(".hidden"), ".hidden");
}

#[test]
fn sanitize_strips_mixed_trailing_dots_and_spaces() {
    assert_eq!(sanitize("Vol. 1 . . ."), "Vol. 1");
    assert_eq!(sanitize("end.\u{2003}."), "end");
}

#[test]
fn sanitize_is_idempotent_on_samples() {
    for s in ["  Foo   Bar. ", "AC/DC: Guide", "...", "a\0b", "x \u{2003} y .", "Unnamed"] {
        let once = sanitize(s);
        assert_eq!(sanitize(&once), once);
    }
}

#[test]
fn title_with_empty_halves_has_no_publisher() {
    assert_eq!(parse_bundle_title("Bundle by "), (None, "Bundle by".to_string()));
    assert_eq!(parse_bundle_title(" by Someone"), (None, "by Someone".to_string()));
}

#[test]
fn title_with_nothing_after_colon_keeps_whole_title() {
    assert_eq!(parse_bundle_title("  Bundle:  "), (None, "Bundle:".to_string()));
    assert_eq!(parse_bundle_title(""), (None, "".to_string()));
}

#[test]
fn overlapping_by_splits_at_last_occurrence() {
    assert_eq!(
        parse_bundle_title("A by by B"),
        (Some("B".to_string()), "A by".to_string())
    );
}

#[test]
fn publisher_after_last_colon_only() {
    assert_eq!(
        parse_bundle_title("X by Y: Z by W"),
        (Some("W".to_string()), "Z".to_string())
    );
}
