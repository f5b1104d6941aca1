use hbsync::cache::{cache_dir_from, entry_path};
use hbsync::downloader::part_path_for;
use hbsync::urls::{
    download_url_allowed, filename_from_url, is_loopback_url, last_path_segment, resolve_base_url,
    API_BASE,
};

#[test]
fn only_loopback_overrides_are_accepted() {
    // The session cookie goes to whatever HBSYNC_API_BASE names, so a
    // non-loopback override must never be honored.
    assert!(is_loopback_url("http://127.0.0.1:8080/api/v1"));
    assert!(is_loopback_url("http://localhost:8080/api/v1"));
    assert!(is_loopback_url("http://[::1]:8080/api/v1"));
    assert!(!is_loopback_url("https://evil.example.com/api/v1"));
    assert!(!is_loopback_url("https://127.0.0.1.evil.example.com/api/v1"));
    assert!(!is_loopback_url("not a url"));
}

#[test]
fn loopback_covers_the_whole_ipv4_block_only() {
    assert!(is_loopback_url("http://127.255.0.9/"));
    assert!(!is_loopback_url("http://128.0.0.1/"));
    assert!(!is_loopback_url("http://[::2]/"));
    assert!(!is_loopback_url("mailto:someone@localhost"));
}

#[test]
fn base_url_override_must_be_loopback() {
    assert_eq!(resolve_base_url(None), API_BASE);
    assert_eq!(resolve_base_url(Some("http://127.0.0.1:9/api/v1")), "http://127.0.0.1:9/api/v1");
    assert_eq!(resolve_base_url(Some("https://evil.example.com/api/v1")), API_BASE);
}

#[test]
fn download_urls_must_be_https_unless_loopback() {
    assert!(download_url_allowed("https://dl.humble.com/a.epub?ttl=1"));
    assert!(!download_url_allowed("http://dl.humble.com/a.epub?ttl=1"));
    assert!(download_url_allowed("http://127.0.0.1:4000/dl/book.epub"));
    assert!(!download_url_allowed("not a url"));
}

#[test]
fn last_path_segment_follows_path_segments() {
    assert_eq!(last_path_segment("/a/b/c.epub").as_deref(), Some("c.epub"));
    assert_eq!(last_path_segment("/a/b/").as_deref(), Some(""));
    assert_eq!(last_path_segment("/").as_deref(), Some(""));
    assert_eq!(last_path_segment("no-slash"), None);
}

#[test]
fn filename_from_url_decodes_the_last_segment() {
    assert_eq!(filename_from_url("https://x.test/dir/My%20Book.epub?ttl=5").as_deref(), Some("My Book.epub"));
    assert_eq!(filename_from_url("https://x.test/dir/"), None);
    assert_eq!(filename_from_url("https://x.test/bad%FF.epub"), None);
    assert_eq!(filename_from_url("not a url"), None);
    assert_eq!(filename_from_url("https://x.test/a+b.pdf").as_deref(), Some("a+b.pdf"));
}

#[test]
fn part_path_appends_part_to_the_file_name() {
    assert_eq!(part_path_for("/a/b/book.epub"), "/a/b/book.epub.part");
    assert_eq!(part_path_for("book.epub"), "book.epub.part");
}

#[test]
fn entry_path_sanitizes_the_key() {
    assert_eq!(entry_path("/cache", "ABC123"), "/cache/ABC123.json");
    assert_eq!(entry_path("/cache", "weird/../key"), "/cache/weird_.._key.json");
    assert_eq!(entry_path("/cache", ".."), "/cache/Unnamed.json");
}

#[test]
fn cache_dir_precedence() {
    assert_eq!(cache_dir_from(Some("/iso"), Some("/xdg"), Some("/home/u")).as_deref(), Some("/iso"));
    assert_eq!(cache_dir_from(None, Some("/xdg"), Some("/home/u")).as_deref(), Some("/xdg/hbsync/orders"));
    assert_eq!(cache_dir_from(None, None, Some("/home/u")).as_deref(), Some("/home/u/.cache/hbsync/orders"));
    assert_eq!(cache_dir_from(None, None, None), None);
}
