use std::path::PathBuf;

use serde_json::Value;
use usage_stats::content::{is_log_extension, json_frames, select_flagged};
use usage_stats::file_processor::FileProcessor;
use usage_stats::item::{Item, LogEntry, Message};
use usage_stats::text::{is_blank_line, same_text, text_lt};
use usage_stats::usage::Usage;

fn counts(a: Option<u32>, b: Option<u32>, c: Option<u32>, d: Option<u32>) -> Usage {
    Usage {
        input_tokens: a,
        output_tokens: b,
        cache_creation_input_tokens: c,
        cache_read_input_tokens: d,
    }
}

fn field(v: &Value, name: &str) -> Option<u32> {
    v.get(name).and_then(|x| x.as_u64()).map(|x| x as u32)
}

/// Reads a record the way the program does for the fields it uses.
fn decode(frame: &str) -> Option<LogEntry> {
    let v: Value = serde_json::from_str(frame).ok()?;
    let timestamp = v.get("timestamp")?.as_str()?.to_string();
    let message = v.get("message")?;
    let model = message.get("model").and_then(|m| m.as_str()).map(|m| m.to_string());
    let usage = message.get("usage").map(|u| {
        counts(
            field(u, "input_tokens"),
            field(u, "output_tokens"),
            field(u, "cache_creation_input_tokens"),
            field(u, "cache_read_input_tokens"),
        )
    });
    Some(LogEntry { timestamp, message: Message { model, usage } })
}

fn item(model: &str, timestamp: &str, usage: Option<Usage>) -> Item {
    Item { model: model.to_string(), timestamp: timestamp.to_string(), usage }
}

fn run(content: &str) -> Vec<((String, String), Usage)> {
    let mut p = FileProcessor::new(PathBuf::from("root"));
    for frame in json_frames(content) {
        if let Some(entry) = decode(&frame) {
            if let Some(it) = Item::from_log_entry(entry) {
                p.collect_item(it);
            }
        }
    }
    p.get_merged_results()
}

fn key(m: &str, d: &str) -> (String, String) {
    (m.to_string(), d.to_string())
}

#[test]
fn merge_is_commutative_and_associative() {
    let a = counts(Some(1), None, Some(3), None);
    let b = counts(Some(10), Some(20), None, None);
    let c = counts(None, Some(5), Some(7), Some(9));
    assert_eq!(a.merge(&b), b.merge(&a));
    assert_eq!(a.merge(&b).merge(&c), a.merge(&b.merge(&c)));
    assert_eq!(a.merge(&b), counts(Some(11), Some(20), Some(3), None));
}

#[test]
fn merge_with_absent_counter_is_identity() {
    let a = counts(Some(4), None, Some(0), Some(2));
    assert_eq!(a.merge(&Usage::default()), a);
    assert_eq!(Usage::default().merge(&a), a);
    assert_eq!(Usage::default().merge(&Usage::default()), Usage::default());
}

#[test]
fn merge_caps_at_largest_count() {
    let a = counts(Some(u32::MAX), Some(1), None, None);
    let b = counts(Some(1), Some(2), None, None);
    assert_eq!(a.merge(&b), counts(Some(u32::MAX), Some(3), None, None));
}

#[test]
fn total_and_zero_checks() {
    let a = counts(Some(u32::MAX), Some(u32::MAX), Some(1), None);
    assert_eq!(a.total_tokens(), 2 * (u32::MAX as u64) + 1);
    assert!(counts(Some(0), None, Some(0), None).is_all_zero());
    assert!(Usage::default().is_all_zero());
    assert!(!counts(None, None, None, Some(1)).is_all_zero());
}

#[test]
fn rerun_gives_identical_output() {
    let items = vec![
        item("m", "2024-01-01T10:00:00Z", Some(counts(Some(1), None, None, None))),
        item("a", "2024-01-02T10:00:00Z", Some(counts(None, Some(2), None, None))),
        item("m", "2024-01-01T11:00:00Z", Some(counts(Some(3), Some(4), None, None))),
    ];
    let mut first = FileProcessor::new(PathBuf::from("root"));
    for it in items.iter().cloned() {
        first.collect_item(it);
    }
    let mut second = FileProcessor::new(PathBuf::from("root"));
    for it in items.iter().rev().cloned() {
        second.collect_item(it);
    }
    let a = first.get_merged_results();
    let b = second.get_merged_results();
    assert_eq!(a, b);
    assert_eq!(a.len(), 2);
    assert_eq!(a[1], (key("m", "2024-01-01"), counts(Some(4), Some(4), None, None)));
}

#[test]
fn malformed_line_is_skipped() {
    let content = "{\"timestamp\":\"2024-01-01T00:00:00Z\",\"message\":{\"model\":\"m\",\"usage\":{\"input_tokens\":1}}}\n\
                   {not json\n\
                   {\"timestamp\":\"2024-01-01T05:00:00Z\",\"message\":{\"model\":\"m\",\"usage\":{\"input_tokens\":2}}}\n";
    let frames = json_frames(content);
    assert_eq!(frames.len(), 2);
    assert!(frames[0].contains("\"input_tokens\":1"));
    assert!(frames[1].contains("\"input_tokens\":2"));
    let out = run(content);
    assert_eq!(out, vec![(key("m", "2024-01-01"), counts(Some(3), None, None, None))]);
}

#[test]
fn single_document_is_one_record() {
    let content = "{\"timestamp\":\"2024-01-01T00:00:00Z\",\"message\":{\"model\":\"m\",\"usage\":{\"input_tokens\":5}}}";
    assert_eq!(json_frames(content), vec![content.to_string()]);
    let out = run(content);
    assert_eq!(out, vec![(key("m", "2024-01-01"), counts(Some(5), None, None, None))]);
}

#[test]
fn pretty_printed_document_is_one_record() {
    let content = "{\n  \"timestamp\": \"2024-01-01T00:00:00Z\",\n  \"message\": {\"model\": \"m\", \"usage\": {\"input_tokens\": 5}}\n}\n";
    let frames = json_frames(content);
    assert_eq!(frames, vec![content.to_string()]);
    let out = run(content);
    assert_eq!(out, vec![(key("m", "2024-01-01"), counts(Some(5), None, None, None))]);
}

#[test]
fn malformed_document_gives_nothing() {
    let content = "{\n  \"timestamp\": \"2024-01-01T00:00:00Z\",\n";
    assert!(json_frames(content).is_empty());
    assert!(run(content).is_empty());
}

#[test]
fn empty_and_blank_content_give_nothing() {
    assert!(json_frames("").is_empty());
    assert!(json_frames("  \n\t\n\r\n").is_empty());
}

#[test]
fn blank_lines_and_crlf_are_handled() {
    let content = "\n  \n{\"a\":1}\r\n\r\n{\"b\":2}";
    assert_eq!(json_frames(content), vec!["{\"a\":1}".to_string(), "{\"b\":2}".to_string()]);
}

#[test]
fn json_lines_aggregate_per_key() {
    let content = "{\"timestamp\":\"2024-01-01T01:00:00Z\",\"message\":{\"model\":\"m\",\"usage\":{\"input_tokens\":10}}}\n\
                   {\"timestamp\":\"2024-01-01T02:00:00Z\",\"message\":{\"model\":\"m\",\"usage\":{\"output_tokens\":20}}}\n";
    let out = run(content);
    assert_eq!(out, vec![(key("m", "2024-01-01"), counts(Some(10), Some(20), None, None))]);
}

#[test]
fn record_without_model_is_discarded() {
    let entry = LogEntry {
        timestamp: "2024-01-01T00:00:00Z".to_string(),
        message: Message { model: None, usage: Some(counts(Some(1), None, None, None)) },
    };
    assert!(Item::from_log_entry(entry).is_none());
    let content = "{\"timestamp\":\"2024-01-01T00:00:00Z\",\"message\":{\"usage\":{\"input_tokens\":7}}}\n";
    assert!(run(content).is_empty());
}

#[test]
fn record_with_model_is_kept() {
    let entry = LogEntry {
        timestamp: "2024-03-04T00:00:00Z".to_string(),
        message: Message { model: Some("x".to_string()), usage: None },
    };
    let it = Item::from_log_entry(entry).unwrap();
    assert_eq!(it.model, "x");
    assert_eq!(it.timestamp, "2024-03-04T00:00:00Z");
    assert!(it.usage.is_none());
}

#[test]
fn record_without_usage_creates_absent_entry() {
    let mut p = FileProcessor::new(PathBuf::from("root"));
    p.collect_item(item("m", "2024-01-01T00:00:00Z", None));
    assert_eq!(p.get_merged_results(), vec![(key("m", "2024-01-01"), Usage::default())]);
    p.collect_item(item("m", "2024-01-01T03:00:00Z", Some(counts(None, None, Some(2), None))));
    assert_eq!(
        p.get_merged_results(),
        vec![(key("m", "2024-01-01"), counts(None, None, Some(2), None))]
    );
}

#[test]
fn empty_processor_gives_empty_output() {
    let p = FileProcessor::new(PathBuf::from("no-such-root"));
    assert!(p.get_merged_results().is_empty());
    assert_eq!(p.directory(), &PathBuf::from("no-such-root"));
}

#[test]
fn output_is_sorted_by_model_then_date() {
    let mut p = FileProcessor::new(PathBuf::from("root"));
    p.collect_item(item("gpt", "2024-02-01T00:00:00Z", Some(counts(Some(1), None, None, None))));
    p.collect_item(item("alpha", "2024-01-01T00:00:00Z", Some(counts(Some(2), None, None, None))));
    p.collect_item(item("alpha", "2023-12-31T00:00:00Z", Some(counts(Some(3), None, None, None))));
    let keys: Vec<(String, String)> = p.get_merged_results().into_iter().map(|e| e.0).collect();
    assert_eq!(
        keys,
        vec![key("alpha", "2023-12-31"), key("alpha", "2024-01-01"), key("gpt", "2024-02-01")]
    );
}

#[test]
fn timestamp_key_is_utc_day() {
    assert_eq!(item("m", "2024-01-01T23:30:00-05:00", None).get_timestamp_key(), "2024-01-02");
    assert_eq!(item("m", "2024-05-06T07:08:09.123Z", None).get_timestamp_key(), "2024-05-06");
}

#[test]
fn unparsable_timestamp_is_its_own_bucket() {
    assert_eq!(item("m", "yesterday", None).get_timestamp_key(), "yesterday");
    assert_eq!(item("m", "", None).get_timestamp_key(), "");
    assert_eq!(Item::bucket_of(None, &"raw".to_string()), "raw");
    assert_eq!(Item::bucket_of(Some("2024-01-01".to_string()), &"raw".to_string()), "2024-01-01");
}

#[test]
fn only_json_extensions_are_read() {
    assert!(is_log_extension("json"));
    assert!(is_log_extension("jsonl"));
    assert!(!is_log_extension("txt"));
    assert!(!is_log_extension("JSON"));
    assert!(!is_log_extension(""));
}

#[test]
fn flagged_lines_are_selected_in_order() {
    let lines = vec!["a".to_string(), "b".to_string(), "c".to_string()];
    assert_eq!(select_flagged(&lines, &vec![true, false, true]), vec!["a".to_string(), "c".to_string()]);
    assert!(select_flagged(&lines, &vec![false, false, false]).is_empty());
}

#[test]
fn text_helpers() {
    assert!(is_blank_line(" \t\u{3000}"));
    assert!(is_blank_line(""));
    assert!(!is_blank_line("  x "));
    assert!(same_text("abc", "abc"));
    assert!(!same_text("abc", "abd"));
    assert!(text_lt("alpha", "gpt"));
    assert!(text_lt("ab", "abc"));
    assert!(!text_lt("abc", "abc"));
    assert!(!text_lt("b", "a"));
}
