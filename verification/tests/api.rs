use std::collections::HashSet;

use hbsync::api::{build_tasks, check_status, key_failure_is_fatal, order_keys, parse_order, strip_leading_dots, ApiError, HumbleClientError, Order};
use hbsync::cache::with_corrected_metadata;
use hbsync::downloader::{present_on_disk, CorrectedMetadata};
use hbsync::json::JsonValue;

const ORDER_SAMPLE: &str = r#"{
  "gamekey": "CWPBwb82sqPXqEsq",
  "created": "2025-02-11T17:03:12.418870",
  "product": {
    "human_name": "Humble Tech Book Bundle: Intelligent Agents: Agentic AI and Large Language Models by Apress",
    "machine_name": "intelligentagents_bookbundle"
  },
  "subproducts": [
    {
      "human_name": "Building Agentic AI Systems",
      "machine_name": "buildingagenticaisystems",
      "payee": {"human_name": "Apress", "machine_name": "apress"},
      "downloads": [
        {
          "platform": "ebook",
          "machine_name": "buildingagenticaisystems_ebook",
          "download_struct": [
            {
              "name": "EPUB",
              "url": {"web": "https://dl.humble.com/Building_Agentic_AI_Systems.epub?gamekey=CWPBwb82sqPXqEsq&ttl=1739296992&t=abc"},
              "file_size": 1048576,
              "md5": "0123456789abcdef0123456789abcdef",
              "human_size": "1 MB"
            },
            {
              "name": "PDF",
              "url": {"web": "https://dl.humble.com/Building_Agentic_AI_Systems.pdf?gamekey=CWPBwb82sqPXqEsq&ttl=1739296992&t=def"},
              "file_size": 2097152,
              "md5": "fedcba9876543210fedcba9876543210",
              "human_size": "2 MB"
            },
            {
              "name": "Supplementary Files"
            }
          ]
        },
        {
          "platform": "audio",
          "machine_name": "buildingagenticaisystems_audio",
          "download_struct": [
            {
              "name": "MP3",
              "url": {"web": "https://dl.humble.com/Building_Agentic_AI_Systems.mp3?ttl=1739296992"},
              "file_size": 9999999,
              "md5": "00000000000000000000000000000000"
            }
          ]
        }
      ]
    },
    {
      "human_name": "Some Game",
      "machine_name": "somegame",
      "payee": {"human_name": "Game Studio", "machine_name": "gamestudio"},
      "downloads": [
        {
          "platform": "windows",
          "machine_name": "somegame_windows",
          "download_struct": [
            {
              "name": "Download",
              "url": {"web": "https://dl.humble.com/somegame.zip?ttl=1739296992"},
              "file_size": 123456789,
              "md5": "11111111111111111111111111111111"
            }
          ]
        }
      ]
    },
    {
      "human_name": "Key Only Item",
      "machine_name": "keyonly",
      "downloads": []
    },
    {
      "human_name": "LLMs in Production",
      "machine_name": "llmsinproduction",
      "payee": {"human_name": "Manning", "machine_name": "manning"},
      "downloads": [
        {
          "platform": "ebook",
          "machine_name": "llmsinproduction_ebook",
          "download_struct": [
            {
              "name": "MOBI",
              "url": {"web": "https://dl.humble.com/LLMs_in_Production.mobi?gamekey=CWPBwb82sqPXqEsq&ttl=1739296992&t=ghi"},
              "file_size": 3145728,
              "md5": "abcdefabcdefabcdefabcdefabcdefab",
              "human_size": "3 MB"
            }
          ]
        }
      ]
    }
  ]
}"#;

fn to_json(v: &serde_json::Value) -> JsonValue {
    match v {
        serde_json::Value::Null => JsonValue::Null,
        serde_json::Value::Bool(b) => JsonValue::Bool(*b),
        serde_json::Value::Number(n) => JsonValue::Number(n.as_u64()),
        serde_json::Value::String(s) => JsonValue::String(s.clone()),
        serde_json::Value::Array(a) => JsonValue::Array(a.iter().map(to_json).collect()),
        serde_json::Value::Object(m) => {
            JsonValue::Object(m.iter().map(|(k, v)| (k.clone(), to_json(v))).collect())
        }
    }
}

fn fixture_value() -> serde_json::Value {
    serde_json::from_str(ORDER_SAMPLE).unwrap()
}

fn fixture() -> JsonValue {
    to_json(&fixture_value())
}

fn strip_out(dest: &str) -> String {
    dest.strip_prefix("/out/").unwrap().to_string()
}

fn file_name(dest: &str) -> String {
    dest.rsplit('/').next().unwrap().to_string()
}

#[test]
fn parse_order_keeps_only_ebook_downloads() {
    let order = parse_order(&fixture());
    assert_eq!(order.key, "CWPBwb82sqPXqEsq");
    let titles: Vec<&str> = order.books.iter().map(|b| b.title.as_str()).collect();
    assert_eq!(titles, vec!["Building Agentic AI Systems", "LLMs in Production"]);
    let formats: HashSet<&str> = order
        .books
        .iter()
        .flat_map(|b| b.files.iter().map(|f| f.format.as_str()))
        .collect();
    assert_eq!(formats, HashSet::from(["epub", "pdf", "mobi"]));
}

#[test]
fn parse_order_captures_publisher_size_md5() {
    let order = parse_order(&fixture());
    let book = &order.books[0];
    assert_eq!(book.publisher.as_deref(), Some("Apress"));
    let epub = &book.files[0];
    assert_eq!(epub.size, Some(1_048_576));
    assert_eq!(epub.md5.as_deref(), Some("0123456789abcdef0123456789abcdef"));
}

#[test]
fn build_tasks_layout() {
    let order = parse_order(&fixture());
    let output = "/out";
    let tasks = build_tasks(&order, output, None);
    let dests: HashSet<String> = tasks.iter().map(|t| strip_out(&t.dest)).collect();
    assert_eq!(
        dests,
        HashSet::from([
            "Apress/Agentic AI and Large Language Models/epub/Building_Agentic_AI_Systems.epub".to_string(),
            "Apress/Agentic AI and Large Language Models/pdf/Building_Agentic_AI_Systems.pdf".to_string(),
            "Apress/Agentic AI and Large Language Models/mobi/LLMs_in_Production.mobi".to_string(),
        ])
    );
}

#[test]
fn build_tasks_format_filter() {
    let order = parse_order(&fixture());
    let formats = vec!["epub".to_string()];
    let tasks = build_tasks(&order, "/out", Some(&formats));
    let names: Vec<String> = tasks.iter().map(|t| file_name(&t.dest)).collect();
    assert_eq!(names, vec!["Building_Agentic_AI_Systems.epub"]);
}

#[test]
fn build_tasks_falls_back_to_book_publisher() {
    let mut data = fixture_value();
    data["product"]["human_name"] = serde_json::Value::String("Humble Book Bundle: Cybersecurity 2.0".to_string());
    let order = parse_order(&to_json(&data));
    let formats = vec!["epub".to_string()];
    let tasks = build_tasks(&order, "/out", Some(&formats));
    assert_eq!(
        strip_out(&tasks[0].dest),
        "Apress/Cybersecurity 2.0/epub/Building_Agentic_AI_Systems.epub"
    );
}

#[test]
fn parse_order_lowercases_and_strips_leading_dots() {
    let data = r#"{"subproducts": [{"human_name": "B", "downloads": [{"platform": "ebook",
        "download_struct": [{"name": "..PDF", "url": {"web": "https://x.test/a.pdf"}},
                            {"name": "ÉPUB", "url": {"web": "https://x.test/b"}, "file_size": -3}]}]}]}"#;
    let order = parse_order(&to_json(&serde_json::from_str(data).unwrap()));
    assert_eq!(order.key, "");
    assert_eq!(order.title, "");
    assert_eq!(order.books[0].files[0].format, "pdf");
    assert_eq!(order.books[0].files[1].format, "épub");
    assert_eq!(order.books[0].files[1].size, None);
    assert_eq!(order.books[0].files[1].md5, None);
    assert_eq!(order.books[0].publisher, None);
}

#[test]
fn book_without_title_is_unknown_and_falls_back_to_unknown_publisher() {
    let data = r#"{"product": {"human_name": "Bundle"}, "subproducts": [{"downloads": [{"platform": "ebook",
        "download_struct": [{"name": "EPUB", "url": {"web": "https://x.test/dir/"}}]}]}]}"#;
    let order = parse_order(&to_json(&serde_json::from_str(data).unwrap()));
    assert_eq!(order.books[0].title, "Unknown");
    let tasks = build_tasks(&order, "/out", None);
    // no publisher anywhere, and the URL names no file
    assert_eq!(strip_out(&tasks[0].dest), "Unknown/Bundle/epub/Unknown.epub");
}

#[test]
fn filename_is_percent_decoded_and_sanitized() {
    let data = r#"{"product": {"human_name": "B by P"}, "subproducts": [{"human_name": "T", "downloads": [{"platform": "ebook",
        "download_struct": [{"name": "EPUB", "url": {"web": "https://x.test/A%20Book%2Fpart.epub?ttl=1"}}]}]}]}"#;
    let order = parse_order(&to_json(&serde_json::from_str(data).unwrap()));
    let tasks = build_tasks(&order, "/out", None);
    assert_eq!(strip_out(&tasks[0].dest), "P/B/epub/A Book_part.epub");
    assert_eq!(tasks[0].url, "https://x.test/A%20Book%2Fpart.epub?ttl=1");
}

#[test]
fn strip_leading_dots_keeps_inner_dots() {
    assert_eq!(strip_leading_dots("..a.b"), "a.b");
    assert_eq!(strip_leading_dots("..."), "");
    assert_eq!(strip_leading_dots("epub"), "epub");
}

#[test]
fn order_keys_reads_gamekeys_in_order() {
    let listing = r#"[{"gamekey": "KEY1"}, {"other": 1}, {"gamekey": 7}, {"gamekey": "KEY2"}]"#;
    let keys = order_keys(&to_json(&serde_json::from_str(listing).unwrap()));
    assert_eq!(keys, vec!["KEY1", "KEY2"]);
    let not_a_list = order_keys(&to_json(&serde_json::from_str(r#"{"gamekey": "K"}"#).unwrap()));
    assert!(not_a_list.is_empty());
}

#[test]
fn status_check_classifies_rejections() {
    for status in [401u16, 403] {
        match check_status(status, "http://x/api") {
            Err(HumbleClientError::Auth(e)) => assert!(e.0.contains("Log into humblebundle.com")),
            other => panic!("expected Auth error, got {other:?}"),
        }
    }
    match check_status(404, "http://x/api/order/NOPE") {
        Err(HumbleClientError::Api(ApiError::NotFound(url))) => assert_eq!(url, "http://x/api/order/NOPE"),
        other => panic!("expected Api(NotFound), got {other:?}"),
    }
    assert!(check_status(200, "u").is_ok());
    match check_status(500, "http://x/api/user/order") {
        Err(HumbleClientError::Api(ApiError::Status { status, url })) => {
            assert_eq!(status, 500);
            assert_eq!(url, "http://x/api/user/order");
        }
        other => panic!("expected Api(Status), got {other:?}"),
    }
    assert!(matches!(check_status(302, "u"), Err(HumbleClientError::Api(ApiError::Status { status: 302, .. }))));
}

#[test]
fn only_api_refusals_spare_the_run() {
    let not_found = check_status(404, "u").unwrap_err();
    let server = check_status(503, "u").unwrap_err();
    let auth = check_status(401, "u").unwrap_err();
    assert!(!key_failure_is_fatal(&not_found));
    assert!(!key_failure_is_fatal(&server));
    assert!(key_failure_is_fatal(&auth));
}

#[test]
fn corrected_metadata_makes_the_delivered_file_present() {
    let order: Order = parse_order(&fixture());
    let url = order.books[0].files[0].url.clone();
    let corrected = CorrectedMetadata { size: 42, md5: "feed".to_string() };
    let patched = with_corrected_metadata(&order, &url, &corrected);
    assert_eq!(patched.books[0].files[0].size, Some(42));
    assert_eq!(patched.books[0].files[0].md5.as_deref(), Some("feed"));
    assert_eq!(patched.books[0].files[1].size, Some(2_097_152));
    assert_eq!(patched.books[1].files[0].size, Some(3_145_728));
    let tasks = build_tasks(&patched, "/out", None);
    let task = tasks.iter().find(|t| t.url == url).unwrap();
    assert!(present_on_disk(task, Some(42)));
    assert!(!present_on_disk(task, Some(1_048_576)));
}

#[test]
fn filtered_tasks_are_among_unfiltered_tasks() {
    let order = parse_order(&fixture());
    let all = build_tasks(&order, "/out", None);
    for formats in [vec!["pdf".to_string()], vec!["mobi".to_string(), "epub".to_string()], vec![]] {
        let some = build_tasks(&order, "/out", Some(&formats));
        for t in &some {
            assert!(all.iter().any(|u| u.dest == t.dest && u.url == t.url && u.size == t.size && u.md5 == t.md5));
        }
    }
    assert_eq!(all.len(), 3);
    assert!(build_tasks(&order, "/out", Some(&vec![])).is_empty());
}

#[test]
fn hostile_names_still_land_four_levels_below_output() {
    let data = r#"{"product": {"human_name": "../.. by /etc"}, "subproducts": [{"human_name": "..", "downloads": [{"platform": "ebook",
        "download_struct": [{"name": "..", "url": {"web": "https://x.test/%2E%2E"}},
                            {"name": "/", "url": {"web": "https://x.test/a%2F..%2Fb"}}]}]}]}"#;
    let order = parse_order(&to_json(&serde_json::from_str(data).unwrap()));
    let tasks = build_tasks(&order, "/out", None);
    assert_eq!(tasks.len(), 2);
    for t in &tasks {
        let rel = strip_out(&t.dest);
        let segments: Vec<&str> = rel.split('/').collect();
        assert_eq!(segments.len(), 4, "{rel}");
        for seg in segments {
            assert!(!seg.is_empty() && seg != "." && seg != "..", "{rel}");
        }
    }
}
