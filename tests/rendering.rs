use usage_stats::table_renderer::{cell_width, group_by_date, TableRenderer, UsageRow};
use usage_stats::usage::Usage;

fn input(n: u32) -> Usage {
    Usage {
        input_tokens: Some(n),
        output_tokens: None,
        cache_creation_input_tokens: None,
        cache_read_input_tokens: None,
    }
}

fn entry(m: &str, d: &str, u: Usage) -> ((String, String), Usage) {
    ((m.to_string(), d.to_string()), u)
}

#[test]
fn model_names_are_shortened() {
    assert_eq!(TableRenderer::simplify_model_name("acme-sonnet-4-20250514", "acme-"), "sonnet4");
    assert_eq!(TableRenderer::simplify_model_name("acme-3-opus-20240229", "acme-"), "opus3");
    assert_eq!(TableRenderer::simplify_model_name("acme-3-5-sonnet-20241022", "acme-"), "3-5-sonnet");
    assert_eq!(TableRenderer::simplify_model_name("acme-opus-beta-20240229", "acme-"), "opus-beta");
    assert_eq!(TableRenderer::simplify_model_name("acme-opus", "acme-"), "opus");
    assert_eq!(TableRenderer::simplify_model_name("gpt-4", "acme-"), "gpt-4");
    assert_eq!(TableRenderer::simplify_model_name("acme-sonnet-4-2025051", "acme-"), "sonnet-4-2025051");
    assert_eq!(TableRenderer::simplify_model_name("", "acme-"), "");
    assert_eq!(TableRenderer::simplify_model_name("acme-opus-4-20250101", ""), "acme-opus-4");
    assert_eq!(TableRenderer::simplify_model_name("x-1-20250101", "acme-"), "x1");
    assert_eq!(TableRenderer::simplify_model_name("x-y-2025010", "acme-"), "x-y-2025010");
}

#[test]
fn dated_pieces_are_shortened_by_flags() {
    let two = vec!["3".to_string(), "opus".to_string()];
    assert_eq!(TableRenderer::shorten_dated(&two, true, false), "opus3");
    assert_eq!(TableRenderer::shorten_dated(&two, false, true), "3opus");
    assert_eq!(TableRenderer::shorten_dated(&two, false, false), "3-opus");
    let three = vec!["a".to_string(), "b".to_string(), "c".to_string()];
    assert_eq!(TableRenderer::shorten_dated(&three, true, true), "a-b-c");
    assert_eq!(TableRenderer::shorten_dated(&Vec::new(), false, false), "");
}

#[test]
fn table_has_seven_columns() {
    assert_eq!(UsageRow::column_count(), 7);
    let _ = TableRenderer::new();
}

#[test]
fn cell_width_follows_terminal() {
    assert_eq!(cell_width(100, 7), 11);
    assert_eq!(cell_width(1000, 7), 28);
    assert_eq!(cell_width(0, 7), 0);
}

#[test]
fn groups_by_date_without_zero_rows() {
    let data = vec![
        entry("a", "2024-01-02", input(1)),
        entry("b", "2024-01-01", input(2)),
        entry("c", "2024-01-02", input(3)),
        entry("d", "2024-01-03", input(0)),
        entry("e", "2024-01-03", Usage::default()),
    ];
    let groups = group_by_date(&data);
    assert_eq!(groups.len(), 2);
    assert_eq!(groups[0].date, "2024-01-01");
    assert_eq!(groups[0].models, vec![("b".to_string(), input(2))]);
    assert_eq!(groups[1].date, "2024-01-02");
    assert_eq!(groups[1].models, vec![("a".to_string(), input(1)), ("c".to_string(), input(3))]);
    assert!(group_by_date(&Vec::new()).is_empty());
}
